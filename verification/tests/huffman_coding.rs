use std::convert::TryFrom;

use mipt_rust::bit_reader::{BitReader, BitSequence};
use mipt_rust::huffman_coding::{
    decode_litlen_distance_trees, DistanceToken, HuffmanCodeWord, HuffmanCoding, HuffmanError,
    LitLenToken, TreeCodeToken,
};

#[derive(Clone, Copy, Debug, PartialEq)]
struct Value(u16);

impl TryFrom<HuffmanCodeWord> for Value {
    type Error = HuffmanError;

    fn try_from(x: HuffmanCodeWord) -> Result<Self, HuffmanError> {
        Ok(Self(x.0))
    }
}

#[test]
fn from_lengths() -> Result<(), HuffmanError> {
    let code = HuffmanCoding::<Value>::from_lengths(&[2, 3, 4, 3, 3, 4, 2])?;

    assert_eq!(
        code.decode_symbol(BitSequence::new(0b00, 2)),
        Some(Value(0)),
    );
    assert_eq!(
        code.decode_symbol(BitSequence::new(0b100, 3)),
        Some(Value(1)),
    );
    assert_eq!(
        code.decode_symbol(BitSequence::new(0b1110, 4)),
        Some(Value(2)),
    );
    assert_eq!(
        code.decode_symbol(BitSequence::new(0b101, 3)),
        Some(Value(3)),
    );
    assert_eq!(
        code.decode_symbol(BitSequence::new(0b110, 3)),
        Some(Value(4)),
    );
    assert_eq!(
        code.decode_symbol(BitSequence::new(0b1111, 4)),
        Some(Value(5)),
    );
    assert_eq!(
        code.decode_symbol(BitSequence::new(0b01, 2)),
        Some(Value(6)),
    );

    assert_eq!(code.decode_symbol(BitSequence::new(0b0, 1)), None);
    assert_eq!(code.decode_symbol(BitSequence::new(0b10, 2)), None);
    assert_eq!(code.decode_symbol(BitSequence::new(0b111, 3)), None,);

    Ok(())
}

#[test]
fn read_symbol() -> Result<(), HuffmanError> {
    let code = HuffmanCoding::<Value>::from_lengths(&[2, 3, 4, 3, 3, 4, 2])?;
    let data: &[u8] = &[0b10111001, 0b11001010, 0b11101101];
    let mut reader = BitReader::new(data);

    assert_eq!(code.read_symbol(&mut reader)?, Value(1));
    assert_eq!(code.read_symbol(&mut reader)?, Value(2));
    assert_eq!(code.read_symbol(&mut reader)?, Value(3));
    assert_eq!(code.read_symbol(&mut reader)?, Value(6));

    assert_eq!(code.read_symbol(&mut reader)?, Value(0));
    assert_eq!(code.read_symbol(&mut reader)?, Value(2));
    assert_eq!(code.read_symbol(&mut reader)?, Value(4));
    assert!(code.read_symbol(&mut reader).is_err());

    Ok(())
}

#[test]
fn from_lengths_with_zeros() -> Result<(), HuffmanError> {
    let lengths = [3, 4, 5, 5, 0, 0, 6, 6, 4, 0, 6, 0, 7];
    let code = HuffmanCoding::<Value>::from_lengths(&lengths)?;
    let data: &[u8] = &[
        0b00100000, 0b00100001, 0b00010101, 0b10010101, 0b00110101, 0b00011101,
    ];
    let mut reader = BitReader::new(data);
    assert_eq!(code.read_symbol(&mut reader)?, Value(0));
    assert_eq!(code.read_symbol(&mut reader)?, Value(1));
    assert_eq!(code.read_symbol(&mut reader)?, Value(2));
    assert_eq!(code.read_symbol(&mut reader)?, Value(3));
    assert_eq!(code.read_symbol(&mut reader)?, Value(6));
    assert_eq!(code.read_symbol(&mut reader)?, Value(7));
    assert_eq!(code.read_symbol(&mut reader)?, Value(8));
    assert_eq!(code.read_symbol(&mut reader)?, Value(10));
    assert_eq!(code.read_symbol(&mut reader)?, Value(12));
    assert!(code.read_symbol(&mut reader).is_err());

    Ok(())
}

#[test]
fn from_lengths_additional() -> Result<(), HuffmanError> {
    let lengths = [
        9, 10, 10, 8, 8, 8, 5, 6, 4, 5, 4, 5, 4, 5, 4, 4, 5, 4, 4, 5, 4, 5, 4, 5, 5, 5, 4, 6, 6,
    ];
    let code = HuffmanCoding::<Value>::from_lengths(&lengths)?;
    let data: &[u8] = &[
        0b11111000, 0b10111100, 0b01010001, 0b11111111, 0b00110101, 0b11111001, 0b11011111,
        0b11100001, 0b01110111, 0b10011111, 0b10111111, 0b00110100, 0b10111010, 0b11111111,
        0b11111101, 0b10010100, 0b11001110, 0b01000011, 0b11100111, 0b00000010,
    ];
    let mut reader = BitReader::new(data);

    assert_eq!(code.read_symbol(&mut reader)?, Value(10));
    assert_eq!(code.read_symbol(&mut reader)?, Value(7));
    assert_eq!(code.read_symbol(&mut reader)?, Value(27));
    assert_eq!(code.read_symbol(&mut reader)?, Value(22));
    assert_eq!(code.read_symbol(&mut reader)?, Value(9));
    assert_eq!(code.read_symbol(&mut reader)?, Value(0));
    assert_eq!(code.read_symbol(&mut reader)?, Value(11));
    assert_eq!(code.read_symbol(&mut reader)?, Value(15));
    assert_eq!(code.read_symbol(&mut reader)?, Value(2));
    assert_eq!(code.read_symbol(&mut reader)?, Value(20));
    assert_eq!(code.read_symbol(&mut reader)?, Value(8));
    assert_eq!(code.read_symbol(&mut reader)?, Value(4));
    assert_eq!(code.read_symbol(&mut reader)?, Value(23));
    assert_eq!(code.read_symbol(&mut reader)?, Value(24));
    assert_eq!(code.read_symbol(&mut reader)?, Value(5));
    assert_eq!(code.read_symbol(&mut reader)?, Value(26));
    assert_eq!(code.read_symbol(&mut reader)?, Value(18));
    assert_eq!(code.read_symbol(&mut reader)?, Value(12));
    assert_eq!(code.read_symbol(&mut reader)?, Value(25));
    assert_eq!(code.read_symbol(&mut reader)?, Value(1));
    assert_eq!(code.read_symbol(&mut reader)?, Value(3));
    assert_eq!(code.read_symbol(&mut reader)?, Value(6));
    assert_eq!(code.read_symbol(&mut reader)?, Value(13));
    assert_eq!(code.read_symbol(&mut reader)?, Value(14));
    assert_eq!(code.read_symbol(&mut reader)?, Value(16));
    assert_eq!(code.read_symbol(&mut reader)?, Value(17));
    assert_eq!(code.read_symbol(&mut reader)?, Value(19));
    assert_eq!(code.read_symbol(&mut reader)?, Value(21));

    Ok(())
}

#[test]
fn from_lengths_rejects_length_above_count() {
    // A length of 5 cannot index tables sized for three symbols.
    assert!(matches!(
        HuffmanCoding::<Value>::from_lengths(&[1, 5, 2]),
        Err(HuffmanError::BadCodeLengths)
    ));
}

#[test]
fn from_lengths_rejects_unknown_symbol() {
    // Twenty code length symbols: index 19 is not a code length symbol.
    let lengths = [5u8; 20];
    assert!(matches!(
        HuffmanCoding::<TreeCodeToken>::from_lengths(&lengths),
        Err(HuffmanError::BadCodeWord(19))
    ));
}

#[test]
fn token_tables() {
    assert_eq!(
        LitLenToken::try_from(HuffmanCodeWord(65)).unwrap(),
        LitLenToken::Literal(65)
    );
    assert_eq!(
        LitLenToken::try_from(HuffmanCodeWord(256)).unwrap(),
        LitLenToken::EndOfBlock
    );
    assert_eq!(
        LitLenToken::try_from(HuffmanCodeWord(270)).unwrap(),
        LitLenToken::Length { base: 23, extra_bits: 2 }
    );
    assert_eq!(
        LitLenToken::try_from(HuffmanCodeWord(285)).unwrap(),
        LitLenToken::Length { base: 258, extra_bits: 0 }
    );
    assert_eq!(
        LitLenToken::try_from(HuffmanCodeWord(286)).unwrap_err(),
        HuffmanError::BadCodeWord(286)
    );
    assert_eq!(
        DistanceToken::try_from(HuffmanCodeWord(0)).unwrap(),
        DistanceToken { base: 1, extra_bits: 0 }
    );
    assert_eq!(
        DistanceToken::try_from(HuffmanCodeWord(29)).unwrap(),
        DistanceToken { base: 24577, extra_bits: 13 }
    );
    assert!(DistanceToken::try_from(HuffmanCodeWord(30)).is_err());
    assert_eq!(
        TreeCodeToken::try_from(HuffmanCodeWord(17)).unwrap(),
        TreeCodeToken::RepeatZero { base: 3, extra_bits: 3 }
    );
    assert_eq!(
        TreeCodeToken::try_from(HuffmanCodeWord(18)).unwrap(),
        TreeCodeToken::RepeatZero { base: 11, extra_bits: 7 }
    );
    assert_eq!(
        TreeCodeToken::try_from(HuffmanCodeWord(16)).unwrap(),
        TreeCodeToken::CopyPrev
    );
    assert!(TreeCodeToken::try_from(HuffmanCodeWord(19)).is_err());
}

#[test]
fn decode_trees_truncated_input() {
    let data: &[u8] = &[0xff];
    let mut reader = BitReader::new(data);
    assert!(matches!(
        decode_litlen_distance_trees(&mut reader),
        Err(HuffmanError::Read(_))
    ));
}

#[test]
fn zero_lengths_get_no_code() -> Result<(), HuffmanError> {
    let lengths = [3, 4, 5, 5, 0, 0, 6, 6, 4, 0, 6, 0, 7];
    let code = HuffmanCoding::<Value>::from_lengths(&lengths)?;
    for c in 0..4 {
        assert_eq!(code.decode_symbol(BitSequence::new(c, 0)), None);
    }
    assert_eq!(code.decode_symbol(BitSequence::new(0b000, 3)), Some(Value(0)));
    assert_eq!(code.decode_symbol(BitSequence::new(0b0101110, 7)), Some(Value(12)));
    Ok(())
}
