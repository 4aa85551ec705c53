use mipt_rust::min_queue::MinQueue;

#[test]
fn fifo_with_minimum() {
    let mut q = MinQueue::new();
    assert!(q.is_empty());
    assert_eq!(q.min(), None);
    assert_eq!(q.front(), None);
    for x in [5, 3, 8, 1, 9] {
        q.push(x);
    }
    assert_eq!(q.len(), 5);
    assert_eq!(q.front(), Some(&5));
    assert_eq!(q.min(), Some(&1));
    assert_eq!(q.pop(), Some(5));
    assert_eq!(q.pop(), Some(3));
    q.push(0);
    assert_eq!(q.min(), Some(&0));
    assert_eq!(q.pop(), Some(8));
    assert_eq!(q.pop(), Some(1));
    assert_eq!(q.min(), Some(&0));
    assert_eq!(q.pop(), Some(9));
    assert_eq!(q.front(), Some(&0));
    assert_eq!(q.pop(), Some(0));
    assert_eq!(q.pop(), None);
    assert!(q.is_empty());
}
