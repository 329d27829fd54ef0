use rae_dict::classify::{classify, Role};
use rae_dict::dict::Dict;
use rae_dict::model::Value;
use rae_dict::text::{split_at_first, str_contains, trim_start, usize_to_dec};

#[test]
fn classifier_precedence() {
    assert_eq!(classify("j"), Role::Sense);
    assert_eq!(classify("j2"), Role::Sense);
    assert_eq!(classify("jl2"), Role::Sense);
    assert_eq!(classify("k5"), Role::Header);
    assert_eq!(classify("k6"), Role::Header);
    assert_eq!(classify("k5 "), Role::Unrecognized);
    assert_eq!(classify("m"), Role::Meaning);
    assert_eq!(classify("l2"), Role::EntryLink);
    assert_eq!(classify("l"), Role::OtherLink);
    assert_eq!(classify("l3"), Role::OtherLink);
    assert_eq!(classify("b"), Role::Unrecognized);
    assert_eq!(classify(""), Role::Unrecognized);
}

#[test]
fn substring_search() {
    assert!(str_contains("hay un Aviso: aquí", "Aviso: "));
    assert!(!str_contains("aviso sin mayúscula", "Aviso: "));
    assert!(str_contains("cualquier cosa", ""));
    assert!(!str_contains("", "x"));
    assert!(str_contains("ababc", "abc"));
}

#[test]
fn decimal_rendering() {
    assert_eq!(usize_to_dec(0).as_str(), "0");
    assert_eq!(usize_to_dec(7).as_str(), "7");
    assert_eq!(usize_to_dec(10).as_str(), "10");
    assert_eq!(usize_to_dec(305).as_str(), "305");
}

#[test]
fn trimming_and_splitting() {
    assert_eq!(trim_start("  hola").as_str(), "hola");
    assert_eq!(trim_start("hola ").as_str(), "hola ");
    assert_eq!(trim_start("").as_str(), "");
    let parts = split_at_first("1.a.b", '.').expect("separator expected");
    assert_eq!(parts.0.as_str(), "1");
    assert_eq!(parts.1.as_str(), "a.b");
    assert!(split_at_first("sin punto", '.').is_none());
}

#[test]
fn dict_iterates_in_lexicographic_key_order() {
    let mut d: Dict<Value> = Dict::new();
    d.insert("2".to_string(), Value::Unique("b".to_string()));
    d.insert("10".to_string(), Value::Unique("a".to_string()));
    d.insert("1".to_string(), Value::Unique("c".to_string()));
    d.insert("Envíos".to_string(), Value::Unique("d".to_string()));
    let keys: Vec<String> = (0..d.len()).map(|i| d.key_at(i).as_str().to_string()).collect();
    assert_eq!(keys, vec!["1", "10", "2", "Envíos"]);
}

#[test]
fn dict_insert_overwrites() {
    let mut d: Dict<Value> = Dict::new();
    d.insert("k".to_string(), Value::Unique("old".to_string()));
    d.insert("k".to_string(), Value::Unique("new".to_string()));
    assert_eq!(d.len(), 1);
    match d.value_at(0) {
        Value::Unique(s) => assert_eq!(s.as_str(), "new"),
        _ => panic!("value is not a single string"),
    }
}
