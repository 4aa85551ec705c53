use mipt_rust::mpsc::{Channel, ReceiveError};

#[test]
fn channel_state() {
    let mut ch = Channel::new();
    assert!(!ch.is_closed());
    assert_eq!(ch.recv().unwrap_err(), ReceiveError::Empty);
    ch.send(1).unwrap();
    ch.send(2).unwrap();
    assert_eq!(ch.recv().unwrap(), 1);
    ch.close();
    assert_eq!(ch.send(3).unwrap_err().value, 3);
    assert_eq!(ch.recv().unwrap(), 2);
    assert_eq!(ch.recv().unwrap_err(), ReceiveError::Closed);
}
