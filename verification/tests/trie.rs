use hanconv::trie::Trie;

#[test]
fn trie_test_trie() {
    let mut trie = Trie::default();

    trie.insert("一分钟", String::from("一分鐘"));

    assert_eq!(trie.get("一分钟"), Some("一分鐘"));
    assert_eq!(trie.convert("一分钟"), "一分鐘");
}

#[test]
fn lib_test_trie() {
    let mut trie = Trie::default();

    trie.insert("一分钟", String::from("一分鐘"));

    assert_eq!(trie.get("一分钟"), Some("一分鐘"));
    assert_eq!(trie.convert("一分钟"), "一分鐘");
}

#[test]
fn longest_key_wins_at_a_position() {
    let mut trie = Trie::default();
    trie.insert("AB", String::from("X"));
    trie.insert("A", String::from("Y"));
    assert_eq!(trie.convert("ABAB"), "XX");
    assert_eq!(trie.convert("AAB"), "YX");
    assert_eq!(trie.longest_match("ABC"), Some(("X", 2)));
    assert_eq!(trie.longest_match("AC"), Some(("Y", 1)));
    assert_eq!(trie.longest_match("C"), None);
}

#[test]
fn greedy_scan_does_not_backtrack() {
    let mut trie = Trie::default();
    trie.insert("AB", String::from("X"));
    trie.insert("BC", String::from("Z"));
    assert_eq!(trie.convert("ABC"), "XC");
}

#[test]
fn empty_key_is_ignored() {
    let mut trie = Trie::default();
    trie.insert("", String::from("x"));
    assert_eq!(trie.get(""), None);
    assert_eq!(trie.get_depth(), 0);
    assert_eq!(trie.convert("abc"), "abc");
    assert!(!trie.starts_with(""));
}

#[test]
fn later_value_overwrites_earlier_one() {
    let mut trie = Trie::default();
    trie.insert("发", String::from("發"));
    trie.insert("发", String::from("髮"));
    assert_eq!(trie.get("发"), Some("髮"));
    assert_eq!(trie.convert("发"), "髮");
}

#[test]
fn get_is_exact() {
    let mut trie = Trie::default();
    trie.insert("一分钟", String::from("一分鐘"));
    assert_eq!(trie.get("一分"), None);
    assert_eq!(trie.get("一"), None);
    assert_eq!(trie.get("一分钟了"), None);
    assert_eq!(trie.get("分钟"), None);
}

#[test]
fn starts_with_tells_prefixes_of_keys() {
    let mut trie = Trie::default();
    assert!(!trie.starts_with("一"));
    trie.insert("一分钟", String::from("一分鐘"));
    assert!(trie.starts_with(""));
    assert!(trie.starts_with("一"));
    assert!(trie.starts_with("一分"));
    assert!(trie.starts_with("一分钟"));
    assert!(!trie.starts_with("一分钟了"));
    assert!(!trie.starts_with("分"));
}

#[test]
fn depth_is_the_length_of_the_longest_key_in_scalar_values() {
    let mut trie = Trie::default();
    assert_eq!(trie.get_depth(), 0);
    trie.insert("一分钟", String::from("x"));
    assert_eq!(trie.get_depth(), 3);
    trie.insert("一", String::from("y"));
    assert_eq!(trie.get_depth(), 3);
    trie.insert("abcde", String::from("z"));
    assert_eq!(trie.get_depth(), 5);
}

#[test]
fn longest_match_reports_the_length_of_the_key() {
    let mut trie = Trie::default();
    trie.insert("一分", String::from("long replacement"));
    assert_eq!(trie.longest_match("一分钟"), Some(("long replacement", 2)));
    assert_eq!(trie.longest_match("一"), None);
    assert_eq!(trie.longest_match(""), None);
}

#[test]
fn a_prefix_without_a_value_is_no_match() {
    let mut trie = Trie::default();
    trie.insert("abc", String::from("X"));
    trie.insert("a", String::from("Y"));
    // "ab" is on the way to "abc" but holds nothing: the match falls back to "a".
    assert_eq!(trie.longest_match("abd"), Some(("Y", 1)));
    assert_eq!(trie.convert("abd"), "Ybd");
    assert_eq!(trie.convert("abcabd"), "XYbd");
}

#[test]
fn output_may_be_longer_or_shorter_than_the_input() {
    let mut trie = Trie::default();
    trie.insert("a", String::from("xyz"));
    trie.insert("bcd", String::from(""));
    assert_eq!(trie.convert("abcda"), "xyzxyz");
}

#[test]
fn text_without_keys_passes_through() {
    let mut trie = Trie::default();
    trie.insert("一分钟", String::from("一分鐘"));
    assert_eq!(trie.convert("Hello, world"), "Hello, world");
    assert_eq!(trie.convert("一分"), "一分");
    assert_eq!(trie.convert(""), "");
    assert_eq!(Trie::default().convert("一分钟"), "一分钟");
}

#[test]
fn extend_inserts_in_order() {
    let mut trie = Trie::default();
    trie.extend(vec![
        ("a".to_string(), "1".to_string()),
        ("b".to_string(), "2".to_string()),
        ("a".to_string(), "3".to_string()),
        ("".to_string(), "4".to_string()),
    ]);
    assert_eq!(trie.get("a"), Some("3"));
    assert_eq!(trie.get("b"), Some("2"));
    assert_eq!(trie.get(""), None);
    let built = Trie::from_entries(vec![("ab".to_string(), "x".to_string())]);
    assert_eq!(built.convert("abab"), "xx");
}
