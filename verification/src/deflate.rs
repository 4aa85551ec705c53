//! DEFLATE block headers (RFC 1951, section 3.2.3).

use vstd::prelude::*;
use vstd::std_specs::convert::FromSpecImpl;
use crate::bit_reader::{BitReader, BitSequence, ReadError, ErrorKind, bits_value};

verus! {

#[derive(Debug)]
pub struct BlockHeader {
    pub is_final: bool,
    pub compression_type: CompressionType,
}

#[derive(Clone, Copy, Debug, PartialEq, Eq, Structural)]
pub enum CompressionType {
    Uncompressed,
    FixedTree,
    DynamicTree,
    Reserved,
}

/// The block type of a two-bit sequence.
pub open spec fn compression_type_spec(s: BitSequence) -> CompressionType {
    if s.bits == 0 && s.len == 2 {
        CompressionType::Uncompressed
    } else if s.bits == 1 && s.len == 2 {
        CompressionType::FixedTree
    } else if s.bits == 2 && s.len == 2 {
        CompressionType::DynamicTree
    } else {
        CompressionType::Reserved
    }
}

impl From<BitSequence> for CompressionType {
    fn from(value: BitSequence) -> (r: Self)
        ensures
            r == compression_type_spec(value),
    {
        match (value.bits(), value.len()) {
            (0, 2) => Self::Uncompressed,
            (1, 2) => Self::FixedTree,
            (2, 2) => Self::DynamicTree,
            _ => Self::Reserved,
        }
    }
}

impl FromSpecImpl<BitSequence> for CompressionType {
    open spec fn obeys_from_spec() -> bool {
        true
    }

    open spec fn from_spec(v: BitSequence) -> Self {
        compression_type_spec(v)
    }
}

/// The header of the block at the start of `v`: BFINAL, then BTYPE.
pub open spec fn block_header_spec(v: Seq<bool>) -> (bool, CompressionType) {
    (
        bits_value(v.take(1)) == 1,
        compression_type_spec(BitSequence { bits: bits_value(v.skip(1).take(2)) as u16, len: 2 }),
    )
}

/// Reads the blocks of a DEFLATE stream.
pub struct DeflateReader<'a> {
    bit_reader: BitReader<'a>,
}

impl<'a> DeflateReader<'a> {
    pub closed spec fn reader(&self) -> BitReader<'a> {
        self.bit_reader
    }

    pub fn new(bit_reader: BitReader<'a>) -> (r: Self)
        ensures
            r.reader() == bit_reader,
    {
        Self { bit_reader: bit_reader }
    }

    /// Reads the next block header and hands out the bit reader, positioned
    /// at the block's body. Fails when fewer than three bits are left.
    pub fn next_block(&mut self) -> (r: Option<Result<(BlockHeader, &mut BitReader<'a>), ReadError>>)
        requires
            old(self).reader().wf(),
        ensures
            r is Some,
            old(self).reader().bits().len() < 3 ==> (r matches Some(Err(e)) && e.kind == ErrorKind::UnexpectedEof),
            old(self).reader().bits().len() >= 3 ==> (r matches Some(Ok((h, br))) && (h.is_final,
            h.compression_type) == block_header_spec(old(self).reader().bits()) && br.wf()
                && br.bits() == old(self).reader().bits().skip(3) && final(self).reader()
                == *final(br)),
    {
        proof {
            self.bit_reader.lemma_wf();
        }
        let b1 = match self.bit_reader.read_bits(1) {
            Ok(b) => b,
            Err(e) => {
                return Some(Err(e));
            },
        };
        let b2 = match self.bit_reader.read_bits(2) {
            Ok(b) => b,
            Err(e) => {
                return Some(Err(e));
            },
        };
        proof {
            let v = old(self).reader().bits();
            assert(v.skip(1).skip(2) =~= v.skip(3));
            vstd::arithmetic::power2::lemma2_to64();
        }
        let header = BlockHeader {
            is_final: b1 == BitSequence::new(0b1, 1),
            compression_type: CompressionType::from(b2),
        };
        Some(Ok((header, &mut self.bit_reader)))
    }
}

} // verus!
