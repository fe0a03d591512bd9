use ahash::AHashMap;
use hanconv::Trie;

#[test]
fn flat_map_holds_every_key_with_its_value() {
    let mut trie = Trie::default();
    trie.insert("一", String::from("1"));
    trie.insert("一分", String::from("2"));
    trie.insert("一分钟", String::from("3"));
    trie.insert("分钟", String::from("4"));
    trie.insert("钟", String::from("5"));
    trie.insert("一分", String::from("6"));
    let map: AHashMap<String, String> = AHashMap::from(trie);
    let mut expected: AHashMap<String, String> = AHashMap::new();
    expected.insert("一".to_string(), "1".to_string());
    expected.insert("一分".to_string(), "6".to_string());
    expected.insert("一分钟".to_string(), "3".to_string());
    expected.insert("分钟".to_string(), "4".to_string());
    expected.insert("钟".to_string(), "5".to_string());
    assert_eq!(map, expected);
}

#[test]
fn flat_map_of_an_empty_tree_is_empty() {
    let map: AHashMap<String, String> = Trie::default().into();
    assert!(map.is_empty());
}

#[test]
fn inner_nodes_without_a_value_give_no_entry() {
    let mut trie = Trie::default();
    trie.insert("abc", String::from("x"));
    let map: AHashMap<String, String> = trie.into();
    assert_eq!(map.len(), 1);
    assert_eq!(map.get("abc").map(String::as_str), Some("x"));
    assert_eq!(map.get("ab"), None);
    assert_eq!(map.get(""), None);
}

#[test]
fn tree_from_a_flat_map_holds_its_entries() {
    let mut map: AHashMap<String, String> = AHashMap::new();
    map.insert("ab".to_string(), "x".to_string());
    map.insert("a".to_string(), "y".to_string());
    map.insert("".to_string(), "never".to_string());
    let trie = Trie::from(map);
    assert_eq!(trie.get("ab"), Some("x"));
    assert_eq!(trie.get("a"), Some("y"));
    assert_eq!(trie.get(""), None);
    assert_eq!(trie.get_depth(), 2);
    assert_eq!(trie.convert("aab"), "yx");
}

#[test]
fn flattening_undoes_building_from_a_flat_map() {
    let mut map: AHashMap<String, String> = AHashMap::new();
    let entries = [("一分钟", "一分鐘"), ("钟", "鐘"), ("里", "裏"), ("这里", "這裏")];
    for (k, v) in entries {
        map.insert(k.to_string(), v.to_string());
    }
    let back: AHashMap<String, String> = Trie::from(map.clone()).into();
    assert_eq!(back, map);
}
