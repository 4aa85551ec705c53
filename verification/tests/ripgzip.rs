use mipt_rust::bit_reader::{ErrorKind, ReadError};
use mipt_rust::gzip::GzipError;
use mipt_rust::ripgzip::{decompress, DecompressError};

const STORED: &[u8] = &[
    0x1f, 0x8b, 0x08, 0x00, 0x00, 0x00, 0x00, 0x00, 0x04, 0x03, 0x01, 0x05, 0x00, 0xfa, 0xff,
    0x68, 0x65, 0x6c, 0x6c, 0x6f, 0x86, 0xa6, 0x10, 0x36, 0x05, 0x00, 0x00, 0x00,
];

const FIXED: &[u8] = &[
    0x1f, 0x8b, 0x08, 0x00, 0x00, 0x00, 0x00, 0x00, 0x02, 0x03, 0xcb, 0x48, 0xcd, 0xc9, 0xc9,
    0x57, 0x28, 0xcf, 0x2f, 0xca, 0x49, 0x01, 0x00, 0x85, 0x11, 0x4a, 0x0d, 0x0b, 0x00, 0x00,
    0x00,
];

const DYNAMIC: &[u8] = &[
    0x1f, 0x8b, 0x08, 0x00, 0x00, 0x00, 0x00, 0x00, 0x02, 0x03, 0x4d, 0x8c, 0x59, 0x0e, 0x80,
    0x20, 0x10, 0x43, 0xaf, 0x32, 0x57, 0x43, 0xc0, 0x5d, 0x46, 0x11, 0xdc, 0x4e, 0x6f, 0x3a,
    0x80, 0xf8, 0xd1, 0xa6, 0x69, 0x9b, 0xd7, 0x78, 0x3e, 0x1d, 0x69, 0x15, 0x68, 0x8b, 0x83,
    0x9e, 0x68, 0x8c, 0xcb, 0xba, 0xe7, 0x6c, 0xb8, 0xfb, 0x34, 0xab, 0xe7, 0xa6, 0x96, 0xaf,
    0xdf, 0x14, 0x7a, 0x9b, 0x6a, 0x31, 0x20, 0xd0, 0x60, 0x49, 0x10, 0xbc, 0x2b, 0x98, 0x0f,
    0xeb, 0xe5, 0x50, 0xa4, 0x9c, 0xa9, 0x08, 0x7c, 0x25, 0x94, 0x05, 0x05, 0x50, 0x2f, 0x77,
    0x0c, 0xd3, 0x63, 0xa0, 0x00, 0x00, 0x00,
];

const HUFFMAN_ONLY: &[u8] = &[
    0x1f, 0x8b, 0x08, 0x00, 0x00, 0x00, 0x00, 0x00, 0x02, 0x03, 0x05, 0xc1, 0x07, 0x02, 0x81, 0x00, 0x00, 0x00, 0xc0, 0xaf, 0x88, 0x0a, 0xc9, 0xc8, 0x88, 0x64, 0xcb, 0x68, 0x48, 0x29, 0xb2, 0x93, 0x68, 0x20, 0xc9, 0x5e, 0x79, 0xbb, 0xbb, 0x00, 0x10, 0x0c, 0x81, 0x10, 0x1c, 0x8e, 0x44, 0x91, 0x18, 0x1a, 0x4f, 0x24, 0x53, 0x58, 0x3a, 0x93, 0xcd, 0xe1, 0xf9, 0x02, 0x51, 0x24, 0x4b, 0xe5, 0x4a, 0xb5, 0x56, 0x6f, 0x34, 0xa9, 0x56, 0xbb, 0xd3, 0xa5, 0x19, 0x96, 0xeb, 0xf1, 0x7d, 0x41, 0x1c, 0x48, 0xf2, 0x70, 0xa4, 0x8c, 0x27, 0xd3, 0xd9, 0x7c, 0xb1, 0x54, 0x57, 0xda, 0x5a, 0xdf, 0x6c, 0x0d, 0xd3, 0xb2, 0x77, 0xfb, 0x83, 0x73, 0x74, 0x4f, 0xde, 0xf9, 0x72, 0xbd, 0xdd, 0x1f, 0xcf, 0xd7, 0xfb, 0xf3, 0xf5, 0x7f, 0x01, 0x20, 0x18, 0x02, 0x21, 0x38, 0x1c, 0x89, 0x22, 0x31, 0x34, 0x9e, 0x48, 0xa6, 0xb0, 0x74, 0x26, 0x9b, 0xc3, 0xf3, 0x05, 0xa2, 0x48, 0x96, 0xca, 0x95, 0x6a, 0xad, 0xde, 0x68, 0x52, 0xad, 0x76, 0xa7, 0x4b, 0x33, 0x2c, 0xd7, 0xe3, 0xfb, 0x82, 0x38, 0x90, 0xe4, 0xe1, 0x48, 0x19, 0x4f, 0xa6, 0xb3, 0xf9, 0x62, 0xa9, 0xae, 0xb4, 0xb5, 0xbe, 0xd9, 0x1a, 0xa6, 0x65, 0xef, 0xf6, 0x07, 0xe7, 0xe8, 0x9e, 0xbc, 0xf3, 0xe5, 0x7a, 0xbb, 0x3f, 0x9e, 0xaf, 0xf7, 0xe7, 0xeb, 0xff, 0x02, 0x40, 0x30, 0x04, 0x42, 0x70, 0x38, 0x12, 0x45, 0x62, 0x68, 0x3c, 0x91, 0x4c, 0x61, 0xe9, 0x4c, 0x36, 0x87, 0xe7, 0x0b, 0x44, 0x91, 0x2c, 0x95, 0x2b, 0xd5, 0x5a, 0xbd, 0xd1, 0xa4, 0x5a, 0xed, 0x4e, 0x97, 0x66, 0x58, 0xae, 0xc7, 0xf7, 0x05, 0x71, 0x20, 0xc9, 0xc3, 0x91, 0x32, 0x9e, 0x4c, 0x67, 0xf3, 0xc5, 0x52, 0x5d, 0x69, 0x6b, 0x7d, 0xb3, 0x35, 0x4c, 0xcb, 0xde, 0xed, 0x0f, 0xce, 0xd1, 0x3d, 0x79, 0xe7, 0xcb, 0xf5, 0x76, 0x7f, 0x3c, 0x5f, 0xef, 0xcf, 0xd7, 0xff, 0xfd, 0x01, 0x22, 0xa8, 0x4c, 0xd4, 0x1d, 0x01, 0x00, 0x00
];

/// Decompresses `input` into a fresh output; gives the output and the status.
fn run(input: &[u8]) -> Result<Vec<u8>, DecompressError> {
    let mut out = Vec::new();
    decompress(input, &mut out).map(|()| out)
}

fn run_with_output(input: &[u8]) -> (Vec<u8>, Result<(), DecompressError>) {
    let mut out = Vec::new();
    let r = decompress(input, &mut out);
    (out, r)
}

#[test]
fn stored_block() {
    assert_eq!(run(STORED), Ok(b"hello".to_vec()));
}

#[test]
fn dynamic_block_with_back_references() {
    let expected: &[u8] = b"brown cat quick jumps quick dog dog dog lazy fox quick dog the lazy lazy cat the dog jumps fox cat quick over the the the and the lazy fox lazy the and fox dog ";
    assert_eq!(run(DYNAMIC), Ok(expected.to_vec()));
}

#[test]
fn literals_waiting_at_end_of_block_are_written() {
    let all: Vec<u8> = (32u8..127).chain(32u8..127).chain(32u8..127).collect();
    assert_eq!(all.len(), 285);
    assert_eq!(run(HUFFMAN_ONLY), Ok(all));
}

#[test]
fn fixed_huffman_block_ends_the_output() {
    assert_eq!(run(FIXED), Ok(Vec::new()));
}

#[test]
fn wrong_magic_is_refused() {
    let mut data = STORED.to_vec();
    data[0] = 0x1e;
    assert_eq!(run(&data), Err(DecompressError::Gzip(GzipError::WrongId1)));
    let mut data = STORED.to_vec();
    data[1] = 0x8c;
    assert_eq!(run(&data), Err(DecompressError::Gzip(GzipError::WrongId2)));
}

#[test]
fn truncated_inputs_fail() {
    assert_eq!(run(&STORED[..5]), Err(DecompressError::Gzip(GzipError::UnexpectedEof)));
    let eof = Err(DecompressError::Read(ReadError { kind: ErrorKind::UnexpectedEof }));
    assert_eq!(run(&STORED[..10]), eof);
    assert_eq!(run(&STORED[..18]), eof);
    assert_eq!(run(&DYNAMIC[..40]).is_err(), true);
}

#[test]
fn output_before_a_failure_is_kept() {
    let input: &[u8] = &[
        0x1f, 0x8b, 0x08, 0x00, 0x00, 0x00, 0x00, 0x00, 0x04, 0x03, 0x00, 0x05, 0x00, 0xfa, 0xff,
        0x68, 0x65, 0x6c, 0x6c, 0x6f,
    ];
    let (out, r) = run_with_output(input);
    assert_eq!(out, b"hello".to_vec());
    assert_eq!(r, Err(DecompressError::Read(ReadError { kind: ErrorKind::UnexpectedEof })));
}

#[test]
fn output_is_appended() {
    let mut out = b"> ".to_vec();
    assert_eq!(decompress(STORED, &mut out), Ok(()));
    assert_eq!(out, b"> hello".to_vec());
}

#[test]
fn nothing_is_written_on_a_bad_header() {
    let (out, r) = run_with_output(&STORED[..5]);
    assert_eq!(out, Vec::<u8>::new());
    assert_eq!(r, Err(DecompressError::Gzip(GzipError::UnexpectedEof)));
}
