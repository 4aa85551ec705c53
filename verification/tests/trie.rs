use mipt_rust::trie::Trie;
use mipt_rust::trie_key::ToKeyIter;

#[test]
fn trie_insert_get_remove() {
    let mut t: Trie<i32> = Trie::new();
    assert!(t.is_empty());
    assert_eq!(t.len(), 0);
    assert_eq!(t.insert("hello", 1), None);
    assert_eq!(t.insert("help", 2), None);
    assert_eq!(t.insert("hello", 3), Some(1));
    assert_eq!(t.len(), 2);
    assert!(!t.is_empty());
    assert_eq!(t.get("hello"), Some(&3));
    assert_eq!(t.get("hel"), None);
    assert!(t.contains("help"));
    assert!(!t.contains("he"));
    assert!(t.starts_with("he"));
    assert!(t.starts_with(""));
    assert!(!t.starts_with("x"));
    if let Some(v) = t.get_mut("help") {
        *v = 20;
    }
    assert_eq!(t.get("help"), Some(&20));
    assert_eq!(t.remove("help"), Some(20));
    assert_eq!(t.remove("help"), None);
    assert!(!t.contains("help"));
    assert!(!t.starts_with("help"));
    assert_eq!(t.len(), 1);
    assert_eq!(t.remove("hello"), Some(3));
    assert_eq!(t.len(), 0);
    assert!(!t.is_empty());
}

#[test]
fn empty_key_alone_is_not_counted() {
    let mut t: Trie<u8> = Trie::new();
    assert_eq!(t.insert("", 7), None);
    assert_eq!(t.get(""), Some(&7));
    assert!(t.is_empty());
    assert_eq!(t.len(), 0);
    t.insert("a", 1);
    assert_eq!(t.len(), 2);
    assert!(t.prefix_is_valid("a", true));
    assert!(!t.prefix_is_valid("b", false));
}

#[test]
fn string_and_str_keys_agree() {
    let mut t: Trie<i32> = Trie::new();
    let key = String::from("héllo");
    assert_eq!(t.insert(&key, 5), None);
    assert_eq!(t.get("héllo"), Some(&5));
    assert!(t.contains(&String::from("héllo")));
    assert!(t.starts_with(&String::from("hé")));
    assert_eq!(key.key_iter(), vec!['h', 'é', 'l', 'l', 'o']);
    assert_eq!("ab".key_iter(), vec!['a', 'b']);
}
