use minjson::{build_json_graph, serialize_json, Decimal, Expectation, JsonElement, JsonNum, ParseError};

fn parse(text: &str) -> JsonElement {
    build_json_graph(text).expect("valid JSON")
}

fn double_parts(e: &JsonElement) -> (i128, u32) {
    match e {
        JsonElement::JsonNumber(JsonNum::Double(d)) => (d.mantissa(), d.scale()),
        other => panic!("not a fraction: {:?}", other),
    }
}

#[test]
fn parses_integers() {
    assert_eq!(parse("42"), JsonElement::JsonNumber(JsonNum::Integer(42)));
    assert_eq!(parse("-7"), JsonElement::JsonNumber(JsonNum::Integer(-7)));
    assert_eq!(parse("  007 "), JsonElement::JsonNumber(JsonNum::Integer(7)));
    assert_eq!(
        parse("9223372036854775807"),
        JsonElement::JsonNumber(JsonNum::Integer(i64::MAX))
    );
    assert_eq!(
        parse("-9223372036854775808"),
        JsonElement::JsonNumber(JsonNum::Integer(i64::MIN))
    );
}

#[test]
fn integer_out_of_range_is_rejected() {
    assert_eq!(
        build_json_graph("9223372036854775808"),
        Err(ParseError::NumberOutOfRange { pos: 0 })
    );
    assert_eq!(
        build_json_graph(" 99999999999999999999.5"),
        Err(ParseError::NumberOutOfRange { pos: 1 })
    );
}

#[test]
fn parses_fractions_exactly() {
    assert_eq!(double_parts(&parse("1.25")), (125, 2));
    assert_eq!(double_parts(&parse("-0.5")), (-5, 1));
    assert_eq!(double_parts(&parse("3.")), (3, 0));
    assert_eq!(double_parts(&parse("1.0000001")), (10000001, 7));
}

#[test]
fn fraction_digits_past_eighteen_are_dropped() {
    assert_eq!(
        double_parts(&parse("0.12345678901234567899")),
        (123456789012345678, 18)
    );
}

#[test]
fn number_without_digits_is_rejected() {
    assert_eq!(build_json_graph("-"), Err(ParseError::NoDigits { pos: 0 }));
    assert_eq!(build_json_graph("[-,1]"), Err(ParseError::NoDigits { pos: 1 }));
}

#[test]
fn parses_strings_with_escapes() {
    assert_eq!(parse("\"a\\\"b\""), JsonElement::JsonString("a\"b".to_string()));
    assert_eq!(parse("\"x\\\\y\""), JsonElement::JsonString("x\\y".to_string()));
    assert_eq!(parse("\"\\n\""), JsonElement::JsonString("n".to_string()));
}

#[test]
fn unterminated_string_keeps_partial_buffer() {
    assert_eq!(
        build_json_graph("\"abc"),
        Err(ParseError::UnterminatedString { partial: "abc".to_string() })
    );
    assert_eq!(
        build_json_graph("\"ab\\"),
        Err(ParseError::UnterminatedString { partial: "ab".to_string() })
    );
}

#[test]
fn parses_null_and_rejects_misspellings() {
    assert_eq!(parse(" null "), JsonElement::JsonNull);
    assert_eq!(
        build_json_graph("nul"),
        Err(ParseError::EndOfInput { expected: Expectation::Letter('l') })
    );
    assert_eq!(
        build_json_graph("nux"),
        Err(ParseError::Unexpected { expected: Expectation::Letter('l'), found: 'x', pos: 2 })
    );
}

#[test]
fn parses_arrays() {
    assert_eq!(parse("[]"), JsonElement::JsonArray(vec![]));
    assert_eq!(
        parse("[1, \"a\", null]"),
        JsonElement::JsonArray(vec![
            JsonElement::JsonNumber(JsonNum::Integer(1)),
            JsonElement::JsonString("a".to_string()),
            JsonElement::JsonNull,
        ])
    );
    assert_eq!(
        parse("[1,]"),
        JsonElement::JsonArray(vec![JsonElement::JsonNumber(JsonNum::Integer(1))])
    );
}

#[test]
fn array_errors() {
    assert_eq!(
        build_json_graph("[1 2]"),
        Err(ParseError::Unexpected { expected: Expectation::CommaOrBracket, found: '2', pos: 3 })
    );
    assert_eq!(
        build_json_graph("[1"),
        Err(ParseError::EndOfInput { expected: Expectation::CommaOrBracket })
    );
    assert_eq!(
        build_json_graph("["),
        Err(ParseError::EndOfInput { expected: Expectation::Value })
    );
}

#[test]
fn parses_objects_last_key_wins() {
    assert_eq!(
        parse("{\"a\": 1, \"b\": [2], \"a\": 3}"),
        JsonElement::JsonObject(vec![
            ("a".to_string(), JsonElement::JsonNumber(JsonNum::Integer(3))),
            (
                "b".to_string(),
                JsonElement::JsonArray(vec![JsonElement::JsonNumber(JsonNum::Integer(2))])
            ),
        ])
    );
}

#[test]
fn object_errors() {
    assert_eq!(
        build_json_graph("{}"),
        Err(ParseError::Unexpected { expected: Expectation::Key, found: '}', pos: 1 })
    );
    assert_eq!(
        build_json_graph("{\"a\" 1}"),
        Err(ParseError::Unexpected { expected: Expectation::Colon, found: '1', pos: 5 })
    );
    assert_eq!(
        build_json_graph("{\"a\":1 \"b\":2}"),
        Err(ParseError::Unexpected { expected: Expectation::CommaOrBrace, found: '"', pos: 7 })
    );
    assert_eq!(
        build_json_graph("{\"a\":1"),
        Err(ParseError::EndOfInput { expected: Expectation::CommaOrBrace })
    );
    assert_eq!(
        build_json_graph("{"),
        Err(ParseError::EndOfInput { expected: Expectation::Key })
    );
}

#[test]
fn malformed_member_value_names_the_brace() {
    assert_eq!(
        build_json_graph("{\"a\": }"),
        Err(ParseError::Unexpected { expected: Expectation::Value, found: '}', pos: 6 })
    );
}

#[test]
fn empty_input_has_no_value() {
    assert_eq!(build_json_graph(""), Err(ParseError::EndOfInput { expected: Expectation::Value }));
    assert_eq!(build_json_graph("   "), Err(ParseError::EndOfInput { expected: Expectation::Value }));
}

#[test]
fn unexpected_first_character() {
    assert_eq!(
        build_json_graph("  true"),
        Err(ParseError::Unexpected { expected: Expectation::Value, found: 't', pos: 2 })
    );
}

#[test]
fn serializes_compactly() {
    let v = parse("{ \"k\\\"\" : [ 1 , -2.50 , \"s\" , null ] }");
    assert_eq!(serialize_json(&v), "{\"k\\\"\":[1,-2.5,\"s\",null]}");
    assert_eq!(serialize_json(&parse("1.0")), "1.0");
    assert_eq!(serialize_json(&parse("-0.000")), "0.0");
}

#[test]
fn serialization_reads_back_as_the_same_value() {
    let texts = [
        "{\"a\": [1, 2.25, {\"b\": null}], \"c\": \"x\\\"y\\\\z\"}",
        "[[], [-9223372036854775808], 0.000000000000000001]",
        "\"plain\"",
    ];
    for text in texts.iter() {
        let v = parse(text);
        let s = serialize_json(&v);
        let w = parse(&s);
        assert_eq!(serialize_json(&w), s);
        assert_eq!(w, parse(&serialize_json(&w)));
    }
}

#[test]
fn decimal_range_is_checked() {
    assert!(Decimal::new(1, 18).is_some());
    assert!(Decimal::new(1, 19).is_none());
    let big: i128 = 18446744073709551616;
    assert!(Decimal::new(big, 0).is_none());
    assert!(Decimal::new(big - 1, 0).is_some());
}

#[test]
fn numbers_compare_with_tolerance() {
    let tol = Decimal::new(1, 5).unwrap();
    let one = JsonNum::Integer(1);
    let near = JsonNum::Double(Decimal::new(10000001, 7).unwrap());
    let far = JsonNum::Double(Decimal::new(10001, 4).unwrap());
    assert!(one.is_equal(&near, tol));
    assert!(!one.is_equal(&far, tol));
    assert!(!one.is_equal(&JsonNum::Integer(2), tol));
    assert!(JsonNum::Integer(5).is_equal(&JsonNum::Integer(5), tol));
}

#[test]
fn unicode_whitespace_separates_tokens() {
    assert_eq!(parse("\u{2003}[1,\u{85}2]"), parse("[1,2]"));
    assert_eq!(
        build_json_graph("\u{200b}1"),
        Err(ParseError::Unexpected { expected: Expectation::Value, found: '\u{200b}', pos: 0 })
    );
}

#[test]
fn number_followed_by_whitespace_consumes_it() {
    assert_eq!(
        parse("[1 ]"),
        JsonElement::JsonArray(vec![JsonElement::JsonNumber(JsonNum::Integer(1))])
    );
}
