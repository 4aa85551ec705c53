use mipt_rust::tracking_writer::{TrackingWriter, WriteError};

#[test]
fn write() {
    let mut writer = TrackingWriter::new(10);

    assert_eq!(writer.write(&[1, 2, 3, 4]), 4);
    assert_eq!(writer.byte_count(), 4);

    assert_eq!(writer.write(&[4, 8, 15, 16, 23]), 5);
    assert_eq!(writer.byte_count(), 9);

    assert_eq!(writer.write(&[0, 0, 123]), 1);
    assert_eq!(writer.byte_count(), 10);

    assert_eq!(writer.write(&[42, 124, 234, 27]), 0);
    assert_eq!(writer.byte_count(), 10);
    assert_eq!(writer.crc32(), 2992191065);
}

#[test]
fn write_previous() {
    let mut writer = TrackingWriter::new(512);

    for i in 0..=255u8 {
        writer.write(&[i]);
    }

    writer.write_previous(192, 128).unwrap();
    assert_eq!(writer.byte_count(), 384);

    assert!(writer.write_previous(10000, 20).is_err());
    assert_eq!(writer.byte_count(), 384);
    assert!(writer.write_previous(256, 256).is_err());
    assert_eq!(writer.byte_count(), 512);

    assert!(writer.write_previous(1, 1).is_err());
    assert_eq!(writer.byte_count(), 512);
    assert_eq!(writer.crc32(), 2733545866);
}

#[test]
fn write_previous_overlapping_repeats_the_tail() {
    let mut writer = TrackingWriter::new(100);
    writer.write(&[1, 2, 3]);
    writer.write_previous(2, 5).unwrap();
    assert_eq!(writer.inner(), &vec![1, 2, 3, 2, 3, 2, 3, 2]);
    assert_eq!(writer.byte_count(), 8);
}

#[test]
fn write_previous_errors() {
    let mut writer = TrackingWriter::new(4);
    writer.write(&[7, 8, 9]);
    assert_eq!(writer.write_previous(4, 1), Err(WriteError::DistanceTooLarge));
    assert_eq!(writer.byte_count(), 3);
    assert_eq!(writer.write_previous(3, 2), Err(WriteError::NoSpace));
    assert_eq!(writer.inner(), &vec![7, 8, 9, 7]);
    assert_eq!(writer.byte_count(), 4);
}

#[test]
fn overlapping_copy_fills_what_room_is_left() {
    let mut w = TrackingWriter::new(5);
    assert_eq!(w.write(b"ab"), 2);
    assert_eq!(w.write_previous(2, 6), Ok(()));
    assert_eq!(w.inner(), &b"ababa".to_vec());
    assert_eq!(w.byte_count(), 8);
}
