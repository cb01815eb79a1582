use rnpm::strmap::StrMap;

#[test]
fn insert_then_get_gives_back_the_value() {
    let mut m: StrMap<u32> = StrMap::new();
    m.insert("one".to_string(), 1);
    m.insert("two".to_string(), 2);
    m.insert("one".to_string(), 11);
    assert_eq!(m.len(), 2);
    assert_eq!(m.get("one"), Some(&11));
    assert_eq!(m.get("two"), Some(&2));
    assert_eq!(m.get("three"), None);
    assert!(m.contains_key("two"));
    assert_eq!(m.key_at(0), "one");
    assert_eq!(m.key_at(1), "two");
}

#[test]
fn remove_keeps_the_other_keys_in_order() {
    let mut m: StrMap<u32> = StrMap::new();
    for (i, k) in ["a", "b", "c"].iter().enumerate() {
        m.insert(k.to_string(), i as u32);
    }
    assert_eq!(m.remove("b"), Some(1));
    assert_eq!(m.remove("b"), None);
    assert_eq!(m.len(), 2);
    assert_eq!(m.key_at(0), "a");
    assert_eq!(m.key_at(1), "c");
    assert_eq!(*m.value_at(1), 2);
}

#[test]
fn duplicate_copies_keys_and_values() {
    let mut m: StrMap<String> = StrMap::new();
    m.insert("x".to_string(), "1".to_string());
    m.insert("y".to_string(), "2".to_string());
    let d = m.duplicate();
    assert_eq!(d.len(), 2);
    assert_eq!(d.get("y").unwrap(), "2");
    assert_eq!(d.key_at(0), "x");
}
