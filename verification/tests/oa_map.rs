use ferdis::oa_map::OAMap;

#[test]
fn test_put() {
    let mut map = OAMap::new();
    map.put("my_key".to_string(), "my_value".to_string());
    let out = map.get("my_key".to_string());
    assert_eq!(out.unwrap(), "my_value");
}

#[test]
fn test_put_overwrite() {
    let mut map = OAMap::new();
    map.put("my_key".to_string(), "my_value".to_string());
    map.put("my_key".to_string(), "other_value".to_string());
    let out = map.get("my_key".to_string());
    assert_eq!(out.unwrap(), "other_value");
}

#[test]
fn test_get_non_existant() {
    let map = OAMap::new();
    let out = map.get("some_key".to_string());
    assert!(out.is_none());
}

#[test]
fn test_delete() {
    let mut map = OAMap::new();
    map.put("my_key".to_string(), "my_value".to_string());
    map.put("my_key".to_string(), "other_value".to_string());
    map.delete("my_key".to_string());
    let out = map.get("my_key".to_string());
    assert!(out.is_none());
}

#[test]
fn test_put_trigger_resize() {
    let mut map = OAMap::new_with_capacity(2);
    let test_data = [
        ("fist_key", "first_value"),
        ("second_key", "second_value"),
        ("third_key", "third_value"),
        ("fourth_key", "fourth_value"),
        ("fifth_key", "fifth_value"),
    ];
    for e in test_data.iter() {
        map.put(e.0.to_string(), e.1.to_string());
    }
    assert_eq!(map.capacity, 8);
    for e in test_data.iter() {
        let out = map.get(e.0.to_string());
        assert!(out.is_some());
        assert_eq!(out.unwrap(), e.1);
    }
}

#[test]
fn test_delete_absent_is_noop() {
    let mut map = OAMap::new();
    map.put("a".to_string(), "1".to_string());
    map.delete("b".to_string());
    assert_eq!(map.len(), 1);
    assert_eq!(map.get("a".to_string()).unwrap(), "1");
}

#[test]
fn test_reuse_after_delete() {
    let mut map = OAMap::new_with_capacity(4);
    map.put("a".to_string(), "1".to_string());
    map.put("b".to_string(), "2".to_string());
    map.delete("a".to_string());
    map.put("a".to_string(), "3".to_string());
    assert_eq!(map.get("a".to_string()).unwrap(), "3");
    assert_eq!(map.get("b".to_string()).unwrap(), "2");
    assert_eq!(map.len(), 2);
}

#[test]
fn test_empty_key_and_value() {
    let mut map = OAMap::new();
    map.put("".to_string(), "".to_string());
    assert_eq!(map.get("".to_string()).unwrap(), "");
    assert!(map.contains_key("".to_string()));
}

#[test]
fn test_keys_enumerates_live_entries() {
    let mut map = OAMap::new();
    map.put("a".to_string(), "1".to_string());
    map.put("b".to_string(), "2".to_string());
    map.put("c".to_string(), "3".to_string());
    map.delete("b".to_string());
    let mut keys = map.keys();
    keys.sort();
    assert_eq!(keys, vec!["a".to_string(), "c".to_string()]);
}

#[test]
fn test_load_factor_after_many_puts() {
    let mut map = OAMap::new_with_capacity(1);
    for i in 0..100 {
        map.put(format!("key_{}", i), format!("value_{}", i));
    }
    assert_eq!(map.len(), 100);
    // The advertised ratio always stays within the band the table keeps.
    assert!(100 * map.len() <= 51 * map.capacity + 99);
    for i in 0..100 {
        assert_eq!(map.get(format!("key_{}", i)).unwrap(), format!("value_{}", i));
    }
}

#[test]
fn test_anagram_keys_do_not_collide() {
    // A byte-sum hash would put anagrams in one slot; FNV-1a keeps the
    // table honest either way, but the entries must stay distinct.
    let mut map = OAMap::new_with_capacity(8);
    map.put("abc".to_string(), "1".to_string());
    map.put("bca".to_string(), "2".to_string());
    map.put("cab".to_string(), "3".to_string());
    assert_eq!(map.get("abc".to_string()).unwrap(), "1");
    assert_eq!(map.get("bca".to_string()).unwrap(), "2");
    assert_eq!(map.get("cab".to_string()).unwrap(), "3");
}
