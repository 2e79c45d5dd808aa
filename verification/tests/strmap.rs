use git5::strmap::StrMap;

#[test]
fn strmap_insert_get_remove() {
    let mut m = StrMap::new();
    assert_eq!(m.len(), 0);
    m.insert_str("b", "2");
    m.insert_str("a", "1");
    m.insert_str("b", "3");
    assert_eq!(m.len(), 2);
    assert_eq!(m.get_str("b").unwrap(), "3");
    assert!(m.get_str("c").is_none());
    assert!(m.contains_str("a"));
    assert!(m.remove_str("a"));
    assert!(!m.remove_str("a"));
    assert!(!m.contains_str("a"));
    assert_eq!(m.len(), 1);
}

#[test]
fn strmap_entries_in_key_order() {
    let mut m = StrMap::new();
    for k in ["pear", "apple", "fig", "Zebra", "é"] {
        m.insert_str(k, &k.to_uppercase());
    }
    let keys: Vec<String> = m.entries().into_iter().map(|(k, _)| k).collect();
    assert_eq!(keys, vec!["Zebra", "apple", "fig", "pear", "é"]);
}

#[test]
fn strmap_char_keys() {
    let mut m = StrMap::new();
    let k: Vec<char> = "key".chars().collect();
    m.insert(k.clone(), vec!['v']);
    assert!(m.contains_key(&k));
    assert_eq!(m.get(&k).unwrap(), &vec!['v']);
    assert_eq!(m.key_at(0), &k);
    assert_eq!(m.value_at(0), &vec!['v']);
    assert!(m.remove(&k));
    assert!(m.get(&k).is_none());
}
