use minjson::{
    pretty_diff, structure_diff, Decimal, DiffSetting, DiffType, Expectation, JsonDiff, ParseError,
};

fn diff(a: &str, b: &str) -> Vec<JsonDiff> {
    structure_diff(a, b, DiffSetting::default()).expect("valid JSON")
}

fn record(kind: DiffType, from: Option<&str>, to: Option<&str>, path: &str) -> JsonDiff {
    JsonDiff {
        diff_type: kind,
        from_desc: from.map(|s| s.to_string()),
        to_desc: to.map(|s| s.to_string()),
        base_path: path.to_string(),
    }
}

#[test]
fn default_tolerance_is_one_hundred_thousandth() {
    let d = DiffSetting::default().float_tolerance;
    assert_eq!((d.mantissa(), d.scale()), (1, 5));
}

#[test]
fn diff_of_text_with_itself_is_empty() {
    let x = "{\"a\": [1, 2.5, {\"b\": \"c\"}], \"d\": null, \"e\": 0.1}";
    assert!(diff(x, x).is_empty());
    assert!(diff("[]", "[]").is_empty());
    assert!(diff("null", "null").is_empty());
}

#[test]
fn added_key_mirrors_as_deleted() {
    let a = "{\"a\": 1}";
    let b = "{\"a\": 1, \"b\": [true_is_not_here]}";
    assert!(structure_diff(a, b, DiffSetting::default()).is_err());
    let b = "{\"a\": 1, \"b\": {\"c\": 2}}";
    assert_eq!(diff(a, b), vec![record(DiffType::Added, None, Some("{\"c\":2}"), "::b")]);
    assert_eq!(diff(b, a), vec![record(DiffType::Deleted, Some("{\"c\":2}"), None, "::b")]);
}

#[test]
fn nested_mirror_follows_the_path() {
    let a = "{\"o\": {\"p\": [1]}}";
    let b = "{\"o\": {\"p\": [1, 2], \"q\": 3}}";
    assert_eq!(
        diff(a, b),
        vec![
            record(DiffType::Added, None, Some("2"), "::o::p"),
            record(DiffType::Added, None, Some("3"), "::o::q"),
        ]
    );
    assert_eq!(
        diff(b, a),
        vec![
            record(DiffType::Deleted, Some("2"), None, "::o::p"),
            record(DiffType::Deleted, Some("3"), None, "::o::q"),
        ]
    );
}

#[test]
fn numeric_tolerance_decides() {
    assert!(diff("{\"x\":1}", "{\"x\":1.0000001}").is_empty());
    let tight = DiffSetting { float_tolerance: Decimal::new(1, 9).unwrap() };
    assert_eq!(
        structure_diff("{\"x\":1}", "{\"x\":1.0000001}", tight).unwrap(),
        vec![record(DiffType::Modified, Some("1"), Some("1.0000001"), "::x")]
    );
}

#[test]
fn integers_compare_exactly() {
    assert_eq!(
        diff("[1]", "[2]"),
        vec![record(DiffType::Modified, Some("1"), Some("2"), "")]
    );
}

#[test]
fn array_length_divergence() {
    assert_eq!(diff("[1,2]", "[1,2,3]"), vec![record(DiffType::Added, None, Some("3"), "")]);
    assert_eq!(
        diff("[1,2,3,\"x\"]", "[1]"),
        vec![
            record(DiffType::Deleted, Some("2"), None, ""),
            record(DiffType::Deleted, Some("3"), None, ""),
            record(DiffType::Deleted, Some("\"x\""), None, ""),
        ]
    );
}

#[test]
fn object_key_divergence() {
    let d = diff("{\"a\":1}", "{\"b\":1}");
    assert_eq!(d.len(), 2);
    assert!(d.contains(&record(DiffType::Deleted, Some("1"), None, "::a")));
    assert!(d.contains(&record(DiffType::Added, None, Some("1"), "::b")));
}

#[test]
fn malformed_input_aborts_the_diff() {
    assert_eq!(
        structure_diff("{\"a\": }", "{}", DiffSetting::default()),
        Err(ParseError::Unexpected { expected: Expectation::Value, found: '}', pos: 6 })
    );
    assert_eq!(
        structure_diff("1", "", DiffSetting::default()),
        Err(ParseError::EndOfInput { expected: Expectation::Value })
    );
}

#[test]
fn type_change_is_modified() {
    assert_eq!(
        diff("{\"a\":1}", "{\"a\":\"x\"}"),
        vec![record(DiffType::Modified, Some("1"), Some("\"x\""), "::a")]
    );
    assert_eq!(
        diff("[null]", "[[1]]"),
        vec![record(DiffType::Modified, Some("null"), Some("[1]"), "")]
    );
}

#[test]
fn strings_compare_exactly() {
    assert_eq!(
        diff("{\"s\":\"ab\"}", "{\"s\":\"aB\"}"),
        vec![record(DiffType::Modified, Some("ab"), Some("aB"), "::s")]
    );
}

#[test]
fn diff_lines_render() {
    assert_eq!(pretty_diff(&record(DiffType::Added, None, Some("3"), "::a")), "+++ ? -> 3 in ::a");
    assert_eq!(pretty_diff(&record(DiffType::Deleted, Some("x"), None, "")), "--- x -> ? in ");
    assert_eq!(
        pretty_diff(&record(DiffType::Modified, Some("1"), Some("2"), "::b::c")),
        "*** 1 -> 2 in ::b::c"
    );
    assert_eq!(DiffType::Modified.symbol(), "***");
}
