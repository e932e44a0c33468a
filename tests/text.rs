use minjson::{minimize_json, pretty_json, JsonLexer, PrettySetting};

#[test]
fn minimize_drops_whitespace_outside_strings() {
    assert_eq!(minimize_json(" { \"a b\" : [ 1 , 2 ] }\n"), "{\"a b\":[1,2]}");
    assert_eq!(minimize_json("\"x \\\" y\" 1"), "\"x \\\" y\"1");
    assert_eq!(minimize_json(""), "");
}

#[test]
fn pretty_indents_nested_values() {
    let s = PrettySetting { indent_width: 2 };
    assert_eq!(pretty_json("{\"a\": 1}", &s), "{\n  \"a\": 1\n}\n");
    assert_eq!(pretty_json("{\"a\":[1,2]}", &s), "{\n  \"a\": [\n    1,\n    2]}\n");
    assert_eq!(pretty_json("[ ]", &PrettySetting { indent_width: 4 }), "[\n    \n]\n");
}

#[test]
fn pretty_keeps_depth_at_zero_on_extra_closers() {
    let s = PrettySetting { indent_width: 1 };
    assert_eq!(pretty_json("]", &s), "\n]\n");
}

#[test]
fn lexer_moves_over_characters() {
    let mut lex = JsonLexer::new("aé");
    assert_eq!(lex.next(), Some('a'));
    assert_eq!(lex.ptr(), 1);
    assert_eq!(lex.next(), Some('é'));
    assert_eq!(lex.next(), None);
    assert_eq!(lex.ptr(), 2);
    lex.back();
    assert_eq!(lex.next(), Some('é'));
    assert_eq!(lex.slice(0, None), Some(vec!['a', 'é']));
    assert_eq!(lex.slice(1, Some(2)), Some(vec!['é']));
    assert_eq!(lex.slice(2, Some(1)), None);
    lex.reset();
    assert_eq!(lex.ptr(), 0);
}

#[test]
fn unicode_whitespace_is_dropped_outside_strings() {
    assert_eq!(minimize_json("\u{a0}1\u{3000}\u{2003}"), "1");
    assert_eq!(minimize_json("\"\u{a0}\""), "\"\u{a0}\"");
    assert_eq!(minimize_json("\u{200b}"), "\u{200b}");
}
