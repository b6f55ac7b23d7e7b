use doc_core::config::{Config, ValueWrapper};
use doc_core::error::{DocError, ErrorType};

fn strings(items: &[&str]) -> Vec<String> {
    items.iter().map(|s| s.to_string()).collect()
}

fn list_of(config: &Config, key: &str) -> Vec<String> {
    match config.get(key) {
        Some(ValueWrapper::Array(items)) => items.clone(),
        other => panic!("{:?} holds {:?}", key, other),
    }
}

fn map_of(config: &Config, key: &str) -> Vec<(String, String)> {
    match config.get(key) {
        Some(ValueWrapper::Mapping(map)) => {
            let mut pairs: Vec<(String, String)> = (0..map.len())
                .map(|i| (map.key_at(i).clone(), map.value_at(i).clone()))
                .collect();
            pairs.sort();
            pairs
        }
        other => panic!("{:?} holds {:?}", key, other),
    }
}

fn pairs(items: &[(&str, &str)]) -> Vec<(String, String)> {
    items.iter().map(|(k, v)| (k.to_string(), v.to_string())).collect()
}

fn float_of(config: &Config, key: &str) -> f64 {
    match config.get(key) {
        Some(ValueWrapper::Float(text)) => text.parse::<f64>().unwrap(),
        other => panic!("{:?} holds {:?}", key, other),
    }
}

fn same_value(a: &ValueWrapper, b: &ValueWrapper) -> bool {
    format!("{:?}", a) == format!("{:?}", b)
}

fn conflict(text: &str, key: &str) {
    match ValueWrapper::from(text) {
        Err(DocError::SoftError(ErrorType::Format(carried))) => assert_eq!(carried, key),
        other => panic!("{:?} gave {:?}", text, other),
    }
}

#[test]
fn lists_of_one_key_are_joined_in_order() {
    let config = ValueWrapper::from("k=a,b;k=c,d").unwrap();
    assert_eq!(config.len(), 1);
    assert_eq!(list_of(&config, "k"), strings(&["a", "b", "c", "d"]));
}

#[test]
fn joined_lists_keep_duplicates() {
    let config = ValueWrapper::from("k=a,b;x;k=b,a;k=solo").unwrap();
    assert_eq!(list_of(&config, "k"), strings(&["a", "b", "b", "a", "solo"]));
}

#[test]
fn maps_of_one_key_are_merged_later_first() {
    let config = ValueWrapper::from("k=a:1,b:2;k=b:3,c:4").unwrap();
    assert_eq!(config.len(), 1);
    assert_eq!(map_of(&config, "k"), pairs(&[("a", "1"), ("b", "3"), ("c", "4")]));
}

#[test]
fn a_map_literal_keeps_its_last_entry_of_a_key() {
    let config = ValueWrapper::from("k=a:1,a:2,b:x:y").unwrap();
    assert_eq!(map_of(&config, "k"), pairs(&[("a", "2"), ("b", "x:y")]));
}

#[test]
fn values_are_read_in_order_of_kinds() {
    let config = ValueWrapper::from("k=5").unwrap();
    assert!(matches!(config.get("k"), Some(ValueWrapper::Number(5))));
    let config = ValueWrapper::from("k=5.0").unwrap();
    assert_eq!(float_of(&config, "k"), 5.0);
    let config = ValueWrapper::from("k=true").unwrap();
    assert!(matches!(config.get("k"), Some(ValueWrapper::Bool(true))));
    let config = ValueWrapper::from("k=false").unwrap();
    assert!(matches!(config.get("k"), Some(ValueWrapper::Bool(false))));
    let config = ValueWrapper::from("k=x").unwrap();
    assert_eq!(list_of(&config, "k"), strings(&["x"]));
}

#[test]
fn a_clause_without_value_is_a_flag() {
    let config = ValueWrapper::from("hidden;k=").unwrap();
    assert!(matches!(config.get("hidden"), Some(ValueWrapper::Bool(true))));
    assert_eq!(list_of(&config, "k"), strings(&[""]));
    let config = ValueWrapper::from("").unwrap();
    assert_eq!(config.len(), 1);
    assert!(matches!(config.get(""), Some(ValueWrapper::Bool(true))));
}

#[test]
fn nothing_is_trimmed() {
    let config = ValueWrapper::from(" a = 5 ; b=1").unwrap();
    assert_eq!(list_of(&config, " a "), strings(&[" 5 "]));
    assert!(matches!(config.get(" b"), Some(ValueWrapper::Number(1))));
    assert!(config.get("a").is_none());
}

#[test]
fn a_value_is_split_from_its_key_at_the_first_equals() {
    let config = ValueWrapper::from("a=b=c").unwrap();
    assert_eq!(list_of(&config, "a"), strings(&["b=c"]));
}

#[test]
fn integers_follow_std() {
    for text in ["0", "-0", "+7", "-7", "007", "9223372036854775807", "-9223372036854775808"] {
        let expected: i64 = text.parse().unwrap();
        match ValueWrapper::parse_value(text) {
            ValueWrapper::Number(n) => assert_eq!(n, expected),
            other => panic!("{:?} gave {:?}", text, other),
        }
    }
    for text in ["+", "-", "1_000", "0x10", " 1", "--1"] {
        assert!(text.parse::<i64>().is_err());
        match ValueWrapper::parse_value(text) {
            ValueWrapper::Array(items) => assert_eq!(items, strings(&[text])),
            other => panic!("{:?} gave {:?}", text, other),
        }
    }
}

#[test]
fn float_literals_are_kept_as_written() {
    for text in [
        "5.0", "5.", ".5", "-.5", "+1.25", "1e3", "1E3", "1e+3", "1e-3", "5.e3", ".5E-2", "0.0", "inf",
        "-inf", "+infinity", "INF", "Infinity", "nan", "NaN", "-nan", "00.10",
    ] {
        let as_float = text.parse::<f64>().expect("std reads it as a float");
        match ValueWrapper::parse_value(text) {
            ValueWrapper::Float(kept) => {
                assert_eq!(kept, text);
                let read = kept.parse::<f64>().unwrap();
                assert!(read == as_float || (read.is_nan() && as_float.is_nan()));
            }
            other => panic!("{:?} gave {:?}", text, other),
        }
    }
}

#[test]
fn what_is_no_float_literal() {
    for text in [".", "e5", "1e", "1e+", "+", "-", "+.", "1.2.3", "1e5x", "in", "infinit", "nane", " 1.0", "1.0 ", "0x1p3", "1,5"] {
        assert!(!matches!(ValueWrapper::parse_value(text), ValueWrapper::Float(_)), "{:?}", text);
    }
}

#[test]
fn digits_alone_are_a_float_only_beyond_the_integers() {
    for text in ["5", "-5", "+5", "0", "9223372036854775807", "-9223372036854775808"] {
        assert!(matches!(ValueWrapper::parse_value(text), ValueWrapper::Number(_)), "{:?}", text);
    }
    for text in [
        "9223372036854775808", "-9223372036854775809", "+9223372036854775808", "99999999999999999999",
        "-000099999999999999999999",
    ] {
        assert!(text.parse::<i64>().is_err());
        let as_float = text.parse::<f64>().unwrap();
        match ValueWrapper::parse_value(text) {
            ValueWrapper::Float(kept) => {
                assert_eq!(kept, text);
                assert_eq!(kept.parse::<f64>().unwrap(), as_float);
            }
            other => panic!("{:?} gave {:?}", text, other),
        }
    }
    let config = ValueWrapper::from("k=99999999999999999999").unwrap();
    assert_eq!(float_of(&config, "k"), 1e20);
}

#[test]
fn booleans_are_exact() {
    for text in ["True", "TRUE", "false ", "yes", "1b"] {
        match ValueWrapper::parse_value(text) {
            ValueWrapper::Array(items) => assert_eq!(items, strings(&[text])),
            other => panic!("{:?} gave {:?}", text, other),
        }
    }
}

#[test]
fn a_map_needs_a_colon_in_every_item() {
    let config = ValueWrapper::from("k=a:1,b").unwrap();
    assert_eq!(list_of(&config, "k"), strings(&["a:1", "b"]));
    let config = ValueWrapper::from("k=a:1").unwrap();
    assert_eq!(list_of(&config, "k"), strings(&["a:1"]));
    let config = ValueWrapper::from("k=:,:").unwrap();
    assert_eq!(map_of(&config, "k"), pairs(&[("", "")]));
}

#[test]
fn list_items_may_be_empty() {
    let config = ValueWrapper::from("k=,;j=a,,b,").unwrap();
    assert_eq!(list_of(&config, "k"), strings(&["", ""]));
    assert_eq!(list_of(&config, "j"), strings(&["a", "", "b", ""]));
}

#[test]
fn parse_vec_needs_a_comma() {
    assert_eq!(ValueWrapper::parse_vec("a,b,c").unwrap(), strings(&["a", "b", "c"]));
    match ValueWrapper::parse_vec("abc") {
        Err(DocError::SoftError(ErrorType::Format(carried))) => assert_eq!(carried, "abc"),
        other => panic!("unexpected {:?}", other),
    }
}

#[test]
fn parse_map_reports_what_it_refused() {
    let map = ValueWrapper::parse_map("a:1,b:2").unwrap();
    assert_eq!(map.len(), 2);
    assert_eq!(map.get("a"), Some(&"1".to_string()));
    assert_eq!(map.get("b"), Some(&"2".to_string()));
    assert_eq!(map.get("c"), None);
    match ValueWrapper::parse_map("a:1") {
        Err(DocError::SoftError(ErrorType::Format(carried))) => assert_eq!(carried, "a:1"),
        other => panic!("unexpected {:?}", other),
    }
    match ValueWrapper::parse_map("a:1,b,c") {
        Err(DocError::SoftError(ErrorType::Format(carried))) => assert_eq!(carried, "b"),
        other => panic!("unexpected {:?}", other),
    }
}

#[test]
fn values_that_cannot_be_merged_are_a_conflict() {
    conflict("k=1;k=2", "k");
    conflict("k=1;k=a,b", "k");
    conflict("k=a,b;k=1", "k");
    conflict("k=a,b;k=a:1,b:2", "k");
    conflict("k=a:1,b:2;k=a,b", "k");
    conflict("k;k", "k");
    conflict("k=true;k=x", "k");
    conflict("a=1;b=2;b=3;a=4", "b");
    conflict("x;;", "");
    conflict("k=1.5;k=1.5", "k");
}

#[test]
fn a_lone_text_merges_as_a_list() {
    let config = ValueWrapper::from("k=x;k=y").unwrap();
    assert_eq!(list_of(&config, "k"), strings(&["x", "y"]));
}

#[test]
fn keys_keep_the_order_of_their_first_clause() {
    let config = ValueWrapper::from("b=1;a=x,y;c;a=z").unwrap();
    let keys: Vec<String> = (0..config.len()).map(|i| config.key_at(i).clone()).collect();
    assert_eq!(keys, strings(&["b", "a", "c"]));
    assert!(config.contains_key("c"));
    assert!(!config.contains_key("d"));
    assert_eq!(config.position("a"), Some(1));
    assert_eq!(config.position("z"), None);
}

#[test]
fn strings_with_disjoint_keys_parse_to_the_union() {
    let cases = [
        ("a=1;b=x,y", "c=2.5;d"),
        ("a=p:1,q:2;a=q:3,r:4", "b=l,m;b=n"),
        ("", "x=1"),
        ("flag", "other=true;more=false"),
    ];
    for (s1, s2) in cases {
        let first = ValueWrapper::from(s1).unwrap();
        let second = ValueWrapper::from(s2).unwrap();
        let both = ValueWrapper::from(&format!("{};{}", s1, s2)).unwrap();
        assert_eq!(both.len(), first.len() + second.len());
        for part in [&first, &second] {
            for i in 0..part.len() {
                let key = part.key_at(i);
                assert!(same_value(both.get(key).unwrap(), part.value_at(i)), "key {:?}", key);
            }
        }
    }
}

#[test]
fn a_failing_part_fails_the_whole() {
    conflict("a=1;a=2;b=3", "a");
    conflict("b=3;a=1;a=2", "a");
}

#[test]
fn insert_replaces_in_place() {
    let mut config: Config = Config::new();
    config.insert("a".to_string(), ValueWrapper::Number(1));
    config.insert("b".to_string(), ValueWrapper::Text("t".to_string()));
    config.insert("a".to_string(), ValueWrapper::Bool(false));
    assert_eq!(config.len(), 2);
    assert_eq!(config.key_at(0), "a");
    assert!(matches!(config.value_at(0), ValueWrapper::Bool(false)));
    assert!(matches!(config.get("b"), Some(ValueWrapper::Text(t)) if t == "t"));
    let copy = config.clone();
    assert_eq!(copy.len(), 2);
    assert!(matches!(copy.get("a"), Some(ValueWrapper::Bool(false))));
}

#[test]
fn format_error_wraps_the_message() {
    let r: Result<(), DocError> = ErrorType::format_error("bad".to_string());
    assert!(matches!(r, Err(DocError::SoftError(ErrorType::Format(m))) if m == "bad"));
    let e: DocError = ErrorType::InvalidId("x y".to_string()).into();
    assert!(matches!(e, DocError::SoftError(ErrorType::InvalidId(m)) if m == "x y"));
    let e: DocError = std::fmt::Error.into();
    assert!(matches!(e, DocError::StdErr(_)));
    let e: DocError = std::io::Error::new(std::io::ErrorKind::Other, "io").into();
    assert!(matches!(e, DocError::IoErr(_)));
}
