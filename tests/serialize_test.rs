use syml::parser;
use syml::{SYMLSerialize, Table, Value};

fn s(t: &str) -> Value {
    Value::String(t.to_string())
}

#[test]
fn serialize_min_test() {
    let tests = [
        ("{}", "{}"),
        ("[]", "[]"),
        ("''", "''"),
        ("a", "a"),
        ("a'b", "a'b"),
        ("'a b'", "'a b'"),
        ("'a\x1bb'", r#""a\x1bb""#),
        ("'a \u{5fc3}'", r#"'a 心'"#),
        ("'a\u{10ffff}'", r#""a\u{10ffff}""#),
        ("{a:1,b:2,c:[3,4]}", "{a:1,b:2,c:[3,4]}"),
        ("{名字:小明}", "{名字:小明}"),
    ];
    for (src, dst) in tests {
        let val = parser::value(src).unwrap();
        let mut out = String::new();
        val.serialize_min(&mut out);
        assert_eq!(out, dst);
    }
}

#[test]
fn serialize_test() {
    let tests = [
        ("{a:1,b:[1,2]}", "a: 1\nb:\n- 1\n- 2"),
        ("{a:1,b:{x:1,y:2}}", "a: 1\nb:\n  x: 1\n  y: 2"),
        ("{l:[[1,2],[3,4]]}", "l:\n- - 1\n  - 2\n- - 3\n  - 4"),
        ("{l:[[1,[2, 3]],[3,[4,5]]]}", "l:\n- - 1\n  - - 2\n    - 3\n- - 3\n  - - 4\n    - 5"),
        ("{a:1,b:{x:1,y:{n:2,i:3}},c:3}", "a: 1\nb:\n  x: 1\n  y:\n    n: 2\n    i: 3\nc: 3"),
        ("{}", "{}"),
        ("[]", "[]"),
        ("234", "234"),
        ("{a:[],b:{},c:''}", "a: []\nb: {}\nc: ''"),
        ("[[],{},'']", "- []\n- {}\n- ''"),
        ("[[],{a:1},'']", "- []\n- a: 1\n- ''"),
        ("[[],{a:1,b:2},'']", "- []\n- a: 1\n  b: 2\n- ''"),
    ];
    for (src, dst) in tests {
        let val = parser::value(src).unwrap();
        let mut out = String::new();
        val.serialize(&mut out, 0);
        assert_eq!(out, dst);
    }
}

#[test]
fn serialize_str_escape_test() {
    let tests = [
        (r#""\n""#, r#""\n""#),
        (r#""\x01""#, r#""\x01""#),
        (r#""\x1b""#, r#""\x1b""#),
        (r#""\u001b""#, r#""\x1b""#),
        (r#""\u0378""#, r#""\u0378""#),
        (r#""\u{10ffff}""#, r#""\u{10ffff}""#),
    ];
    for (src, dst) in tests {
        let val = parser::value(src).unwrap();
        let mut out = String::new();
        val.serialize_min(&mut out);
        assert_eq!(out, dst);
    }
}

#[test]
fn doc_examples_of_both_forms() {
    let value = Value::Array(vec![
        s("2"),
        Value::from_strs(vec!["3", "4", "5"]),
        Value::from_pairs(vec![("x".to_string(), s("6"))]),
    ]);
    assert_eq!(value.serialize_min_to_string(), "[2,[3,4,5],{x:6}]");
    let mut buf = value.serialize_to_string(0);
    buf.push('\n');
    assert_eq!(buf, "- 2\n- - 3\n  - 4\n  - 5\n- x: 6\n");
}

#[test]
fn quoting_is_minimal() {
    assert_eq!(s("foo-bar").serialize_min_to_string(), "foo-bar");
    assert_eq!(s("a b").serialize_min_to_string(), "'a b'");
    assert_eq!(s("say \"hi\"").serialize_min_to_string(), "'say \"hi\"'");
    assert_eq!(s("tab\there").serialize_min_to_string(), r#""tab\there""#);
    assert_eq!(s("it's me").serialize_min_to_string(), r#""it's me""#);
    assert_eq!(s("a\\b c").serialize_min_to_string(), r#""a\\b c""#);
    assert_eq!(s("nul\0").serialize_min_to_string(), r#""nul\x00""#);
    assert_eq!(s("- a").serialize_min_to_string(), "'- a'");
    assert_eq!(s("-").serialize_min_to_string(), "-");
}

#[test]
fn escapes_use_the_shortest_form() {
    assert_eq!("\u{1b}".to_string().serialize_min_to_string(), r#""\x1b""#);
    assert_eq!("\u{378}".to_string().serialize_min_to_string(), r#""\u0378""#);
    assert_eq!("\u{10ffff}".to_string().serialize_min_to_string(), r#""\u{10ffff}""#);
    assert_eq!("\u{e0001}".to_string().serialize_min_to_string(), r#""\u{e0001}""#);
}

#[test]
fn empty_forms_stay_compact() {
    for level in [0usize, 1, 3] {
        assert_eq!(Value::Array(vec![]).serialize_to_string(level), "[]");
        assert_eq!(Value::Table(Table::new()).serialize_to_string(level), "{}");
        assert_eq!(s("").serialize_to_string(level), "''");
    }
}

#[test]
fn block_list_under_a_key_keeps_its_indentation() {
    let v = parser::value("b:\n- 1\n- 2").unwrap();
    assert_eq!(v.serialize_to_string(0), "b:\n- 1\n- 2");
}

#[test]
fn indent_level_pads_later_lines() {
    let v = parser::value("{a:1,b:2}").unwrap();
    assert_eq!(v.serialize_to_string(1), "a: 1\n  b: 2");
}

#[test]
fn round_trips_through_text() {
    let texts = [
        "a: 1\nb:\n- x\n- 'y z'\nc:\n  d: \"\\x01\"\n  e: []",
        "- - 1\n  - - 2\n    - 3\n- k: v\n  l: {}",
        "{a:[1,{b:c}],'d e':''}",
        "\"\\u{10ffff}\\t'\"",
    ];
    for t in texts {
        let v = parser::value(t).unwrap();
        let long = v.serialize_to_string(0);
        let short = v.serialize_min_to_string();
        assert_eq!(parser::value(&long), Ok(v.clone()));
        assert_eq!(parser::value(&short), Ok(v.clone()));
        assert_eq!(parser::value(&long).unwrap().serialize_to_string(0), long);
    }
}

#[test]
fn serializers_of_parts_agree_with_the_whole() {
    let v = parser::value("{a:[1,2],b:{c:d}}").unwrap();
    let t = v.as_table().unwrap();
    assert_eq!(t.serialize_min_to_string(), v.serialize_min_to_string());
    let a = parser::value("[1,[2]]").unwrap();
    assert_eq!(a.as_array().unwrap().serialize_to_string(0), "- 1\n- - 2");
    assert_eq!("x y".to_string().serialize_to_string(4), "'x y'");
}
