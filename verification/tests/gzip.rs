use mipt_rust::gzip::{GzipError, GzipReader};
use mipt_rust::ripgzip::decompress;

#[test]
fn name_is_skipped_with_its_zero() {
    let header: &[u8] = &[0x1f, 0x8b, 0x08, 0x08, 0, 0, 0, 0, 0x00, 0x03, b'a', 0x00, 0xAA];
    let (h, f, n) = GzipReader::parse_header(header).unwrap();
    assert_eq!(h.name, Some("a".to_string()));
    assert_eq!(h.extra, None);
    assert_eq!(h.comment, None);
    assert!(f.has_name());
    assert_eq!(n, 12);
}

const ALL_FIELDS: &[u8] = &[
    0x1f, 0x8b, 0x08, 0x1e, 0x00, 0x00, 0x00, 0x00, 0x00, 0x03, 0x03, 0x00, 0x78, 0x79, 0x7a, 0x61,
    0x00, 0x68, 0x69, 0x00, 0xe1, 0x34, 0x01, 0x05, 0x00, 0xfa, 0xff, 0x68, 0x65, 0x6c, 0x6c, 0x6f,
    0x86, 0xa6, 0x10, 0x36, 0x05, 0x00, 0x00, 0x00,
];

#[test]
fn every_optional_field_in_turn() {
    let (h, _f, n) = GzipReader::parse_header(ALL_FIELDS).unwrap();
    assert_eq!(h.extra, Some(b"xyz".to_vec()));
    assert_eq!(h.name, Some("a".to_string()));
    assert_eq!(h.comment, Some("hi".to_string()));
    assert!(h.has_crc);
    assert_eq!(n, 22);
    let mut out = Vec::new();
    assert_eq!(decompress(ALL_FIELDS, &mut out), Ok(()));
    assert_eq!(out, b"hello".to_vec());
}

#[test]
fn wrong_header_crc_is_refused() {
    let mut data = ALL_FIELDS.to_vec();
    data[20] ^= 1;
    assert_eq!(GzipReader::parse_header(&data).err(), Some(GzipError::WrongHeaderCrc));
}

#[test]
fn name_without_its_zero_fails() {
    let header: &[u8] = &[0x1f, 0x8b, 0x08, 0x08, 0, 0, 0, 0, 0x00, 0x03, b'a', b'b'];
    assert_eq!(GzipReader::parse_header(header).err(), Some(GzipError::UnexpectedEof));
}
