use mipt_rust::flatmap::FlatMap;

#[test]
fn insert_get_remove() {
    let mut m: FlatMap<&str> = FlatMap::new();
    assert!(m.is_empty());
    assert_eq!(m.insert(3, "c"), None);
    assert_eq!(m.insert(1, "a"), None);
    assert_eq!(m.insert(2, "b"), None);
    assert_eq!(m.as_slice(), &[(1, "a"), (2, "b"), (3, "c")]);
    assert_eq!(m.insert(2, "B"), Some("b"));
    assert_eq!(m.len(), 3);
    assert_eq!(m.get(2), Some(&"B"));
    assert_eq!(m.get(4), None);
    assert_eq!(*m.index(3), "c");
    assert_eq!(m.remove(1), Some("a"));
    assert_eq!(m.as_slice(), &[(3, "c"), (2, "B")]);
    assert_eq!(m.remove_entry(3), Some((3, "c")));
    assert_eq!(m.remove(7), None);
    assert_eq!(m.len(), 1);
    assert!(m.capacity() >= 1);
}

#[test]
fn from_vec_later_pairs_win() {
    let m = FlatMap::from_vec(vec![(5, 'x'), (1, 'y'), (5, 'z')]);
    assert_eq!(m.into_vec(), vec![(1, 'y'), (5, 'z')]);
}

#[test]
fn extend_inserts_in_order() {
    let mut m = FlatMap::from_vec(vec![(5, "five"), (1, "one")]);
    m.extend(vec![(3, "three"), (5, "FIVE"), (3, "THREE")]);
    assert_eq!(m.as_slice(), &[(1, "one"), (3, "THREE"), (5, "FIVE")]);
    let mut e: FlatMap<i32> = FlatMap::new();
    e.extend(Vec::new());
    assert!(e.is_empty());
}

#[test]
fn remove_swaps_in_the_last_pair_and_get_still_finds_every_key() {
    let mut m = FlatMap::from_vec(vec![(1, 'a'), (2, 'b'), (3, 'c'), (4, 'd')]);
    assert_eq!(m.remove(1), Some('a'));
    assert_eq!(m.as_slice(), &[(4, 'd'), (2, 'b'), (3, 'c')]);
    assert_eq!(m.get(2), Some(&'b'));
    assert_eq!(m.get(3), Some(&'c'));
    assert_eq!(m.get(4), Some(&'d'));
    assert_eq!(m.get(1), None);
}
