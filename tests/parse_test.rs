use syml::parser;
use syml::{Table, Value};

fn s(t: &str) -> Value {
    Value::String(t.to_string())
}

fn map(entries: Vec<(&str, Value)>) -> Value {
    Value::from_pairs(entries.into_iter().map(|(k, v)| (k.to_string(), v)).collect())
}

#[test]
fn literal_parse_test() {
    let tests = [
        (r#"abc"#, "abc"),
        (r#"a'bc"#, "a'bc"),
        (r#"'ab" c'"#, "ab\" c"),
        (r#""ab\r\ncd""#, "ab\r\ncd"),
        (r#""\x1b\x00\u001b\u0000""#, "\x1b\0\u{001b}\u{0}"),
        (r#""a\\\"b""#, "a\\\"b"),
        (r#""\u{04f60}""#, "你"),
        (r#"'你好'"#, "你好"),
        (r#"'你\n好'"#, "你\\n好"),
        (r#"'ab'"#, "ab"),
        (r#"ab'"#, "ab'"),
        (r#"foo-bar"#, "foo-bar"),
        ("\"abc\\\n    def\"", "abcdef"),
        ("\"abc\\\n   \\ def\"", "abc def"),
        ("\"abc\\\n \t  \\\tdef\"", "abc\tdef"),
        ("\"abc\\\n;intoken \t def\"", "abc;intoken \t def"),
        ("\"abc\\\n;intoken \t def\"", "abc;intoken \t def"),
    ];
    for (src, expect) in tests {
        assert_eq!(parser::simple_val(src), Ok(expect.to_string()));
    }
}

#[test]
fn value_test() {
    let tests = [
        ("a", s("a")),
        ("a\n", s("a")),
        ("a\r\n", s("a")),
        ("-a", s("-a")),
        ("- a", Value::from_strs(vec!["a"])),
        ("- [a]", Value::Array(vec![Value::from_strs(vec!["a"])])),
        ("[]", Value::Array(vec![])),
        ("[a]", Value::from_strs(vec!["a"])),
        ("[a,]", Value::from_strs(vec!["a"])),
        ("[a,b]", Value::from_strs(vec!["a", "b"])),
        ("{}", Value::Table(Table::new())),
        ("{a:1}", map(vec![("a", s("1"))])),
        ("{a:1,}", map(vec![("a", s("1"))])),
        ("{a:1,b:2}", map(vec![("a", s("1")), ("b", s("2"))])),
        ("[{a:1,b:2}]", Value::Array(vec![map(vec![("a", s("1")), ("b", s("2"))])])),
    ];
    for (src, dst) in tests {
        assert_eq!(parser::value(src), Ok(dst));
    }
}

#[test]
fn doc_example_value() {
    let value = parser::value("- 1\n- {a:1,b:2}");
    let expect = Value::Array(vec![s("1"), map(vec![("a", s("1")), ("b", s("2"))])]);
    assert_eq!(value.unwrap(), expect);
}

#[test]
fn duplicate_keys_keep_the_first() {
    assert_eq!(parser::value("{a:1,a:2}"), Ok(map(vec![("a", s("1"))])));
    assert_eq!(parser::value("a: 1\na: 2\nb: 3"), Ok(map(vec![("a", s("1")), ("b", s("3"))])));
    let built = map(vec![("x", s("1")), ("y", s("2")), ("x", s("3"))]);
    assert_eq!(built, map(vec![("x", s("1")), ("y", s("2"))]));
}

#[test]
fn key_folding_is_nesting() {
    let folded = parser::value("a: b: 1").unwrap();
    let nested = parser::value("a:\n  b: 1").unwrap();
    assert_eq!(folded, nested);
    assert_eq!(folded, map(vec![("a", map(vec![("b", s("1"))]))]));
    assert_eq!(
        parser::value("a: b: c: x").unwrap(),
        map(vec![("a", map(vec![("b", map(vec![("c", s("x"))]))]))])
    );
}

#[test]
fn unterminated_table_fails_after_the_brace() {
    let e = parser::value("{a:1").unwrap_err();
    assert!(e.offset >= 0 && e.offset <= 4);
    assert_eq!(e.offset, 4);
    assert_eq!(e.line, 1);
    assert_eq!(e.column, 5);
    assert!(!e.expected.is_empty());
}

#[test]
fn error_locations_count_lines_and_columns() {
    let e = parser::value("a: 1\nb: [x\n").unwrap_err();
    assert_eq!(e.line, 2);
    assert!(e.column >= 5);
    assert!(parser::value("").is_err());
    assert!(parser::simple_val("a b").is_err());
    assert!(parser::simple_val("\"\\uD800\"").is_err());
    assert!(parser::simple_val("\"\\u{110000}\"").is_err());
    assert!(parser::simple_val("'ab").is_err());
    assert!(parser::simple_val("- a").is_err());
}

#[test]
fn comments_and_blank_lines() {
    let v = parser::value("; head\n\na: 1 ; note\n\nb:\n- x\n- y\n; tail\n").unwrap();
    assert_eq!(v, map(vec![("a", s("1")), ("b", Value::from_strs(vec!["x", "y"]))]));
}

#[test]
fn tabs_do_not_indent() {
    assert!(parser::value("a:\n\tb: 1").is_err());
}

#[test]
fn inline_value_parses_one_inline_form() {
    assert_eq!(parser::inline_value("[a, {b: c}]"), Ok(Value::Array(vec![s("a"), map(vec![("b", s("c"))])])));
    assert!(parser::inline_value("- a").is_err());
}

#[test]
fn escapes_of_every_form() {
    assert_eq!(parser::simple_val(r#""\U0001F600""#), Ok("\u{1F600}".to_string()));
    assert_eq!(parser::simple_val(r#""\u{1F600}""#), Ok("\u{1F600}".to_string()));
    assert_eq!(parser::simple_val(r#""\u00e9x""#), Ok("\u{e9}x".to_string()));
    assert_eq!(parser::simple_val(r#""\x41""#), Ok("A".to_string()));
    assert!(parser::simple_val(r#""\q""#).is_err());
    assert!(parser::simple_val(r#""\u{123456789}""#).is_err());
}

#[test]
fn indent_test() {
    let tests = [("", 0), (" ", 1), ("  ", 2), ("    ", 4)];
    for (src, indent) in tests {
        parser::indent(src, indent).unwrap();
    }
}

#[test]
fn indent_counts_spaces_only() {
    assert!(parser::indent("  ", 1).is_err());
    assert!(parser::indent("\t", 1).is_err());
    assert!(parser::indent(" ", 2).is_err());
}
