use aera::str_map::StrMap;
use aera::strings::{push_decimal, starts_with, str_eq, str_lt};

#[test]
fn str_map_insert_get_and_overwrite() {
    let mut m: StrMap<i32> = StrMap::new();
    assert_eq!(m.len(), 0);
    m.insert("a".to_string(), 1);
    m.insert("b".to_string(), 2);
    m.insert("a".to_string(), 3);
    assert_eq!(m.len(), 2);
    assert_eq!(m.get(&"a".to_string()), Some(&3));
    assert_eq!(m.get(&"b".to_string()), Some(&2));
    assert_eq!(m.get(&"c".to_string()), None);
    assert!(m.contains_key(&"b".to_string()));
    assert!(!m.contains_key(&"c".to_string()));
}

#[test]
fn str_map_keeps_insertion_order() {
    let mut m: StrMap<i32> = StrMap::new();
    m.insert("z".to_string(), 1);
    m.insert("a".to_string(), 2);
    m.insert("z".to_string(), 5);
    let (k0, v0) = m.entry_at(0);
    let (k1, v1) = m.entry_at(1);
    assert_eq!((k0.as_str(), *v0), ("z", 5));
    assert_eq!((k1.as_str(), *v1), ("a", 2));
}

#[test]
fn starts_with_prefixes() {
    assert!(starts_with("CMD1", "CMD"));
    assert!(starts_with("CMD1", "C"));
    assert!(starts_with("abc", ""));
    assert!(!starts_with("CM", "CMD"));
    assert!(!starts_with("P1", "C"));
    assert!(starts_with("ééx", "éé"));
}

#[test]
fn str_lt_is_lexicographic() {
    assert!(str_lt("a", "b"));
    assert!(!str_lt("b", "a"));
    assert!(str_lt("ab", "b"));
    assert!(str_lt("", "a"));
    assert!(!str_lt("a", ""));
    assert!(!str_lt("abc", "abc"));
    assert!(str_lt("abc", "abd"));
    assert!(str_lt("ab", "abc"));
    assert!(str_lt("P1", "P2"));
    assert_eq!(str_lt("é", "z"), "é" < "z");
}

#[test]
fn str_eq_compares_characters() {
    assert!(str_eq("PE", "PE"));
    assert!(!str_eq("PE", "P"));
    assert!(str_eq("", ""));
}

#[test]
fn push_decimal_renders_numbers() {
    for n in [0usize, 7, 10, 99, 100, 12345, usize::MAX] {
        let mut s = String::from("x");
        push_decimal(&mut s, n);
        assert_eq!(s, format!("x{}", n));
    }
}

#[test]
fn str_map_extend_overrides_in_order() {
    let mut m: StrMap<i32> = StrMap::new();
    m.insert("a".to_string(), 1);
    m.insert("b".to_string(), 2);
    let mut other: StrMap<i32> = StrMap::new();
    other.insert("b".to_string(), 20);
    other.insert("c".to_string(), 30);
    m.extend(other);
    assert_eq!(m.len(), 3);
    assert_eq!(m.get(&"a".to_string()), Some(&1));
    assert_eq!(m.get(&"b".to_string()), Some(&20));
    assert_eq!(m.get(&"c".to_string()), Some(&30));
    let (k, v) = m.entry_at(2);
    assert_eq!((k.as_str(), *v), ("c", 30));
}
