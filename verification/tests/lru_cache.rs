use mipt_rust::lru_cache::LRUCache;

#[test]
fn evicts_least_recently_used() {
    let mut cache: LRUCache<&str> = LRUCache::new(2);
    assert_eq!(cache.insert(1, "one"), None);
    assert_eq!(cache.insert(2, "two"), None);
    assert_eq!(cache.get(&1), Some(&"one"));
    assert_eq!(cache.insert(3, "three"), None);
    assert_eq!(cache.get(&2), None);
    assert_eq!(cache.get(&1), Some(&"one"));
    assert_eq!(cache.get(&3), Some(&"three"));
    assert_eq!(cache.insert(1, "uno"), Some("one"));
    assert_eq!(cache.insert(4, "four"), None);
    assert_eq!(cache.get(&3), None);
    assert_eq!(cache.get(&1), Some(&"uno"));
    assert_eq!(cache.get(&4), Some(&"four"));
}
