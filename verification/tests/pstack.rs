use mipt_rust::pstack::PStack;

#[test]
fn persistence() {
    let empty: PStack<i32> = PStack::new();
    let one = empty.push(1);
    let two = one.push(2);
    assert!(empty.is_empty());
    assert_eq!(one.len(), 1);
    assert_eq!(two.len(), 2);
    let (top, rest) = two.pop().unwrap();
    assert_eq!(*top, 2);
    assert_eq!(rest.len(), 1);
    assert_eq!(two.len(), 2);
    assert!(empty.pop().is_none());
    let mut it = two.iter();
    assert_eq!(*it.next().unwrap(), 2);
    assert_eq!(*it.next().unwrap(), 1);
    assert!(it.next().is_none());
}

#[test]
fn default_is_empty() {
    let s: PStack<i32> = PStack::default();
    assert!(s.is_empty());
    assert_eq!(s.len(), 0);
    assert!(s.pop().is_none());
}
