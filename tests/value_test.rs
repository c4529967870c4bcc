use syml::parser;
use syml::cli::Reading;
use syml::{Config, Table, Value};

fn s(t: &str) -> Value {
    Value::String(t.to_string())
}

#[test]
fn variant_tests_and_views() {
    let mut v = s("abc");
    assert!(v.is_string() && !v.is_array() && !v.is_table());
    assert_eq!(v.as_str(), Some("abc"));
    v.as_string_mut().unwrap().push('d');
    assert_eq!(v, s("abcd"));
    assert!(v.as_array().is_none() && v.as_table().is_none() && v.as_slice().is_none());

    let mut a = Value::from_strs(vec!["x", "y"]);
    assert!(a.is_array());
    assert_eq!(a.as_slice().unwrap().len(), 2);
    a.as_array_mut().unwrap().push(s("z"));
    a.as_slice_mut().unwrap()[0] = s("w");
    assert_eq!(a, Value::from_strs(vec!["w", "y", "z"]));
    assert!(a.as_string_mut().is_none());

    let mut t = parser::value("{k:v}").unwrap();
    assert!(t.is_table());
    t.as_table_mut().unwrap().insert_first("k".to_string(), s("other"));
    t.as_table_mut().unwrap().insert_first("n".to_string(), s("m"));
    assert_eq!(t, parser::value("{k:v,n:m}").unwrap());
    assert_eq!(t.as_table().unwrap().len(), 2);
}

#[test]
fn emptiness() {
    assert!(s("").is_empty());
    assert!(!s("a").is_empty());
    assert!(Value::Array(vec![]).is_empty());
    assert!(Value::Table(Table::new()).is_empty());
    assert!(!parser::value("[a]").unwrap().is_empty());
}

#[test]
fn conversions_keep_the_value() {
    assert_eq!(Value::from("x".to_string()), s("x"));
    assert_eq!(String::try_from(s("x")), Ok("x".to_string()));
    assert_eq!(String::try_from(Value::Array(vec![])), Err(Value::Array(vec![])));
    assert_eq!(Vec::<Value>::try_from(Value::from(vec![s("a")])), Ok(vec![s("a")]));
    assert_eq!(Table::try_from(s("x")), Err(s("x")));
    assert!(Table::try_from(Value::from(Table::new())).is_ok());
    let c = parser::value("{a:[1,{b:2}]}").unwrap();
    assert_eq!(c.clone(), c);
}

#[test]
fn table_pairs_in_insertion_order() {
    let t = Table::from_pairs(vec![
        ("b".to_string(), s("1")),
        ("a".to_string(), s("2")),
        ("b".to_string(), s("3")),
    ]);
    let pairs = t.pairs();
    assert_eq!(pairs.len(), 2);
    assert_eq!(pairs[0].0, "b");
    assert_eq!(pairs[0].1, &s("1"));
    assert_eq!(pairs[1].0, "a");
}

#[test]
fn scalar_readings_tell_type_from_text() {
    assert_eq!(s("-42").parse_i64(), Ok(-42));
    assert_eq!(s("+7").parse_i64(), Ok(7));
    assert_eq!(s("9223372036854775807").parse_i64(), Ok(i64::MAX));
    assert!(matches!(s("9223372036854775808").parse_i64(), Err(Some(_))));
    assert!(matches!(s("4x").parse_i64(), Err(Some(_))));
    assert!(matches!(s("").parse_i64(), Err(Some(_))));
    assert!(matches!(Value::Array(vec![]).parse_i64(), Err(None)));
    assert_eq!(s("18446744073709551615").parse_u64(), Ok(u64::MAX));
    assert!(matches!(s("-1").parse_u64(), Err(Some(_))));
    assert_eq!(s("true").parse_bool(), Ok(true));
    assert_eq!(s("false").parse_bool(), Ok(false));
    assert!(matches!(s("True").parse_bool(), Err(Some(_))));
    assert!(matches!(Value::Table(Table::new()).parse_bool(), Err(None)));
    assert_eq!(s("你").parse_char(), Ok('你'));
    assert!(matches!(s("ab").parse_char(), Err(Some(_))));
    assert!(matches!(Value::Array(vec![]).parse_char(), Err(None)));
}

#[test]
fn json_readings_follow_the_flags_in_order() {
    let mut cfg = Config::default();
    assert_eq!(cfg.reading("null", false), Reading::Text);
    assert_eq!(cfg.reading("12", true), Reading::Text);
    cfg.convert_null = true;
    cfg.convert_boolean = true;
    cfg.convert_number = true;
    assert_eq!(cfg.reading("null", false), Reading::Null);
    assert_eq!(cfg.reading("true", false), Reading::Boolean(true));
    assert_eq!(cfg.reading("false", false), Reading::Boolean(false));
    assert_eq!(cfg.reading("1.5", true), Reading::Number);
    assert_eq!(cfg.reading("nul", false), Reading::Text);
}
