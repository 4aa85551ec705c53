use byteorder::ReadBytesExt;
use mipt_rust::bit_reader::{BitReader, BitSequence, ErrorKind, ReadError};

#[test]
fn read_bits() -> Result<(), ReadError> {
    let data: &[u8] = &[0b01100011, 0b11011011, 0b10101111];
    let mut reader = BitReader::new(data);
    assert_eq!(reader.read_bits(1)?, BitSequence::new(0b1, 1));
    assert_eq!(reader.read_bits(2)?, BitSequence::new(0b01, 2));
    assert_eq!(reader.read_bits(3)?, BitSequence::new(0b100, 3));
    assert_eq!(reader.read_bits(4)?, BitSequence::new(0b1101, 4));
    assert_eq!(reader.read_bits(5)?, BitSequence::new(0b10110, 5));
    assert_eq!(reader.read_bits(8)?, BitSequence::new(0b01011111, 8));
    assert_eq!(
        reader.read_bits(2).unwrap_err().kind(),
        ErrorKind::UnexpectedEof
    );

    let mut reader = BitReader::new(data);
    assert_eq!(reader.read_bits(9)?, BitSequence::new(0b101100011, 9));
    assert_eq!(
        reader.read_bits(15)?,
        BitSequence::new(0b101011111101101, 15)
    );

    Ok(())
}

#[test]
fn borrow_reader_from_boundary() -> Result<(), ReadError> {
    let data: &[u8] = &[0b01100011, 0b11011011, 0b10101111];
    let mut reader = BitReader::new(data);
    assert_eq!(reader.read_bits(3)?, BitSequence::new(0b011, 3));
    assert_eq!(
        reader.borrow_reader_from_boundary().read_u8().unwrap(),
        0b11011011
    );
    assert_eq!(reader.read_bits(8)?, BitSequence::new(0b10101111, 8));
    Ok(())
}

#[test]
fn read_bits_zero_and_sixteen() -> Result<(), ReadError> {
    let data: &[u8] = &[0xff, 0x00, 0x5a];
    let mut reader = BitReader::new(data);
    assert_eq!(reader.read_bits(0)?, BitSequence::new(0, 0));
    assert_eq!(reader.read_bits(16)?, BitSequence::new(0x00ff, 16));
    assert_eq!(reader.read_bits(4)?, BitSequence::new(0xa, 4));
    assert_eq!(reader.read_bits(4)?, BitSequence::new(0x5, 4));
    assert!(reader.read_bits(1).is_err());
    Ok(())
}

#[test]
fn read_bits_split_equals_whole() -> Result<(), ReadError> {
    let data: &[u8] = &[0b10110100, 0b01101001];
    let mut whole = BitReader::new(data);
    let w = whole.read_bits(13)?.bits();
    let mut parts = BitReader::new(data);
    let a = parts.read_bits(5)?.bits();
    let b = parts.read_bits(8)?.bits();
    assert_eq!(w, a | (b << 5));
    Ok(())
}

#[test]
fn read_bits_eof_after_one_byte() {
    let data: &[u8] = &[0xab];
    let mut reader = BitReader::new(data);
    assert_eq!(reader.read_bits(3).unwrap(), BitSequence::new(0b011, 3));
    // Needs eleven more bits: the last byte is used up and the read fails.
    assert_eq!(reader.read_bits(14).unwrap_err().kind(), ErrorKind::UnexpectedEof);
}

#[test]
fn get_mask_values() {
    let data: &[u8] = &[];
    let reader = BitReader::new(data);
    assert_eq!(reader.get_mask(0), 0);
    assert_eq!(reader.get_mask(1), 1);
    assert_eq!(reader.get_mask(7), 0x7f);
    assert_eq!(reader.get_mask(16), 0xffff);
    assert_eq!(reader.get_mask(17), 0);
}

#[test]
fn concat_puts_first_bits_high() {
    let a = BitSequence::new(0b101, 3);
    let b = BitSequence::new(0b01, 2);
    assert_eq!(a.concat(b), BitSequence::new(0b10101, 5));
    assert_eq!(a.concat(b).len(), 5);
    assert_eq!(a.concat(b).bits(), 0b10101);
}

#[test]
fn new_zeroes_the_unused_bits() {
    assert_eq!(BitSequence::new(3, 1), BitSequence::new(1, 1));
    assert_eq!(BitSequence::new(3, 1).bits(), 1);
    assert_eq!(BitSequence::new(0xffff, 0).bits(), 0);
    assert_eq!(BitSequence::new(0xffff, 16).bits(), 0xffff);
    assert_eq!(BitSequence::new(0b1011_0110, 4).bits(), 0b0110);
}
