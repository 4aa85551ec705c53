//! Decompressing a gzip member whose data is made of stored and
//! dynamic-Huffman DEFLATE blocks.

use vstd::prelude::*;
use crate::bit_reader::{BitReader, ReadError, ErrorKind, bits_value, stream_bits, byte_bits, lemma_low_bits_value, lemma_stream_bits_split, lemma_stream_bits_len, lemma_bits_value_bound, lemma_bits_value_append};
use crate::gzip::{le16, read_u16_le};
use vstd::arithmetic::power2::{pow2, lemma2_to64, lemma_pow2_unfold};
use crate::deflate::{CompressionType, DeflateReader, block_header_spec};
use crate::gzip::{GzipError, GzipReader, MemberReader, header_error, header_read_bytes};
use crate::huffman_coding::{
    HuffmanCoding, HuffmanError, LitLenToken, DistanceToken, match_from, code_key, msb_value,
    decode_trees_spec, litlen_build, distance_build, no_symbol_error, canonical_map, symbol_of,
    lemma_canonical_values, lemma_match_from_range, lemma_decode_trees_rest,
    decode_litlen_distance_trees,
};
use crate::tracking_writer::{TrackingWriter, WriteError, lz_copy, lemma_lz_copy_len};

verus! {

/// Failures of decompression.
#[derive(Clone, Copy, Debug, PartialEq, Eq, Structural)]
pub enum DecompressError {
    Gzip(GzipError),
    Read(ReadError),
    Huffman(HuffmanError),
    Write(WriteError),
    /// The output would reach the limit of the address space.
    OutputTooLarge,
}

pub open spec fn eof() -> DecompressError {
    DecompressError::Read(ReadError { kind: ErrorKind::UnexpectedEof })
}

/// The output is too close to the size limit for another step.
pub open spec fn too_large(out: Seq<u8>) -> bool {
    out.len() > usize::MAX - 131072
}

/// `n` bytes read from bits, least significant bit of each byte first.
pub open spec fn bytes_of(w: Seq<bool>, n: nat) -> Seq<u8> {
    Seq::new(n, |i: int| bits_value(w.skip(8 * i).take(8)) as u8)
}

/// The history after copying `len` bytes from `dist` bytes back.
pub open spec fn copy_back(h: Seq<u8>, dist: int, len: int) -> Seq<u8> {
    if len > dist {
        lz_copy(h, dist, len)
    } else {
        h + h.subrange(h.len() - dist, h.len() - dist + len)
    }
}

/// A back-reference whose length symbol (`base`, `extra_bits`) was just read
/// from the bits before `w`, after the output `out` and the literals `pend`
/// waiting to join it: reads the length's extra bits, the distance symbol
/// and the distance's extra bits from `w`, then writes the waiting literals
/// and copies from the output. Gives the output and the unread bits, or the
/// output written before the failure and the failure.
pub open spec fn reference_step(
    dist: Map<u32, DistanceToken>,
    w: Seq<bool>,
    out: Seq<u8>,
    pend: Seq<u8>,
    base: u16,
    extra_bits: u8,
) -> Result<(Seq<u8>, Seq<bool>), (Seq<u8>, DecompressError)> {
    if w.len() < extra_bits {
        Err((out, eof()))
    } else {
        let l = base + bits_value(w.take(extra_bits as int));
        let w2 = w.skip(extra_bits as int);
        match match_from(dist, w2, 1) {
            None => Err((out, DecompressError::Huffman(no_symbol_error(w2)))),
            Some(k) => {
                if 1 <= k <= w2.len() {
                    let dt = dist[code_key(msb_value(w2.take(k as int)) as int, k as int)];
                    let w3 = w2.skip(k as int);
                    if w3.len() < dt.extra_bits {
                        Err((out, eof()))
                    } else {
                        let d = dt.base + bits_value(w3.take(dt.extra_bits as int));
                        if (out + pend).len() < d {
                            Err((out + pend, DecompressError::Write(WriteError::DistanceTooLarge)))
                        } else {
                            Ok((copy_back(out + pend, d, l), w3.skip(dt.extra_bits as int)))
                        }
                    }
                } else {
                    Err((out, DecompressError::Huffman(HuffmanError::SymbolNotFound)))
                }
            },
        }
    }
}

/// A back-reference never gives back more bits than it was handed.
pub proof fn lemma_reference_step_rest(
    dist: Map<u32, DistanceToken>,
    w: Seq<bool>,
    out: Seq<u8>,
    pend: Seq<u8>,
    base: u16,
    extra_bits: u8,
)
    ensures
        reference_step(dist, w, out, pend, base, extra_bits) matches Ok((o, rest)) ==> rest.len()
            <= w.len(),
{
}

/// Decodes the symbols of a dynamic block from `v` until the end-of-block
/// symbol. Literals wait in `pend` and join the output ten at a time, before
/// a back-reference, and at the end of the block; those still waiting at a
/// failure are dropped. Gives the output and the unread bits, or the
/// output written before the failure and the failure.
pub open spec fn inflate_symbols(
    lit: Map<u32, LitLenToken>,
    dist: Map<u32, DistanceToken>,
    v: Seq<bool>,
    out: Seq<u8>,
    pend: Seq<u8>,
) -> Result<(Seq<u8>, Seq<bool>), (Seq<u8>, DecompressError)>
    decreases v.len(),
{
    if too_large(out) {
        Err((out, DecompressError::OutputTooLarge))
    } else {
        match match_from(lit, v, 1) {
            None => Err((out, DecompressError::Huffman(no_symbol_error(v)))),
            Some(j) => {
                if 1 <= j <= v.len() {
                    let w = v.skip(j as int);
                    match lit[code_key(msb_value(v.take(j as int)) as int, j as int)] {
                        LitLenToken::EndOfBlock => Ok((out + pend, w)),
                        LitLenToken::Literal(x) => {
                            let p2 = pend.push(x);
                            if p2.len() == 10 {
                                inflate_symbols(lit, dist, w, out + p2, Seq::empty())
                            } else {
                                inflate_symbols(lit, dist, w, out, p2)
                            }
                        },
                        LitLenToken::Length { base, extra_bits } => {
                            match reference_step(dist, w, out, pend, base, extra_bits) {
                                Err(f) => Err(f),
                                Ok((out2, w4)) => {
                                    proof {
                                        lemma_reference_step_rest(dist, w, out, pend, base, extra_bits);
                                    }
                                    inflate_symbols(lit, dist, w4, out2, Seq::empty())
                                },
                            }
                        },
                    }
                } else {
                    Err((out, DecompressError::Huffman(HuffmanError::SymbolNotFound)))
                }
            },
        }
    }
}

/// Decodes the blocks at the start of `v` (whose length, modulo eight, is
/// the number of bits left in the current byte) after the output `out`.
/// Stops after a final block or at a block type other than stored or
/// dynamic Huffman. Gives the output, or the output written before the
/// failure and the failure.
pub open spec fn inflate_blocks(v: Seq<bool>, out: Seq<u8>) -> Result<Seq<u8>, (Seq<u8>, DecompressError)>
    decreases v.len(),
{
    if too_large(out) {
        Err((out, DecompressError::OutputTooLarge))
    } else if v.len() < 3 {
        Err((out, eof()))
    } else {
        let (fin, ty) = block_header_spec(v);
        let v1 = v.skip(3);
        match ty {
            CompressionType::Uncompressed => {
                let w = v1.skip(v1.len() as int % 8);
                if w.len() < 32 {
                    Err((out, eof()))
                } else {
                    let ulen = bits_value(w.take(16));
                    let w2 = w.skip(32);
                    if w2.len() < 8 * ulen {
                        Err((out, eof()))
                    } else {
                        let out2 = out + bytes_of(w2, ulen);
                        if fin {
                            Ok(out2)
                        } else {
                            inflate_blocks(w2.skip((8 * ulen) as int), out2)
                        }
                    }
                }
            },
            CompressionType::DynamicTree => match decode_trees_spec(v1) {
                Err(e) => Err((out, DecompressError::Huffman(e))),
                Ok((lit, dist, rest)) => match (litlen_build(lit), distance_build(dist)) {
                    (Err(e), _) => Err((out, DecompressError::Huffman(e))),
                    (Ok(_), Err(e)) => Err((out, DecompressError::Huffman(e))),
                    (Ok(m1), Ok(m2)) => match inflate_symbols(m1, m2, rest, out, Seq::empty()) {
                        Err(f) => Err(f),
                        Ok((out2, rest2)) => {
                            if fin {
                                Ok(out2)
                            } else if rest2.len() < v.len() {
                                inflate_blocks(rest2, out2)
                            } else {
                                Err((out2, eof()))
                            }
                        },
                    },
                },
            },
            _ => Ok(out),
        }
    }
}

/// What decompressing the gzip data `input` gives: the output, or the
/// output written before a failure and the failure.
pub open spec fn decompress_spec(input: Seq<u8>) -> Result<Seq<u8>, (Seq<u8>, DecompressError)> {
    match header_error(input) {
        Some(e) => Err((Seq::empty(), DecompressError::Gzip(e))),
        None => {
            if header_read_bytes(input) > input.len() {
                Err((Seq::empty(), DecompressError::Gzip(GzipError::UnexpectedEof)))
            } else {
                inflate_blocks(stream_bits(input.skip(header_read_bytes(input) as int)), Seq::empty())
            }
        },
    }
}

/// The lengths of a literal/length code are at most 258 with at most five extra bits.
pub open spec fn litlen_values_ok(m: Map<u32, LitLenToken>) -> bool {
    forall|key: u32|
        #![trigger m[key]]
        m.contains_key(key) ==> match m[key] {
            LitLenToken::Length { base, extra_bits } => extra_bits <= 5 && base <= 258,
            _ => true,
        }
}

/// The distances of a distance code are positive, at most 24577, with at most
/// thirteen extra bits.
pub open spec fn distance_values_ok(m: Map<u32, DistanceToken>) -> bool {
    forall|key: u32|
        #![trigger m[key]]
        m.contains_key(key) ==> 1 <= m[key].base <= 24577 && m[key].extra_bits <= 13
}

proof fn lemma_litlen_values(lengths: Seq<u8>)
    ensures
        litlen_build(lengths) matches Ok(m) ==> litlen_values_ok(m),
{
    if let Ok(m) = litlen_build(lengths) {
        let k = lengths.len() as int;
        assert forall|key: u32| m.contains_key(key) implies match #[trigger] m[key] {
            LitLenToken::Length { base, extra_bits } => extra_bits <= 5 && base <= 258,
            _ => true,
        } by {
            lemma_canonical_values::<LitLenToken>(lengths, k, key);
            let i = choose|i: int|
                0 <= i < k && canonical_map::<LitLenToken>(lengths, k)[key] == symbol_of::<
                    LitLenToken,
                >(i);
            assert((i as u16) == i);
        }
    }
}

proof fn lemma_distance_values(lengths: Seq<u8>)
    ensures
        distance_build(lengths) matches Ok(m) ==> distance_values_ok(m),
{
    if let Ok(m) = distance_build(lengths) {
        let k = lengths.len() as int;
        assert forall|key: u32| m.contains_key(key) implies 1 <= #[trigger] m[key].base <= 24577
            && m[key].extra_bits <= 13 by {
            lemma_canonical_values::<DistanceToken>(lengths, k, key);
            let i = choose|i: int|
                0 <= i < k && canonical_map::<DistanceToken>(lengths, k)[key] == symbol_of::<
                    DistanceToken,
                >(i);
            assert((i as u16) == i);
        }
    }
}

/// Decoding the symbols of a block never gives back more bits than it was handed.
proof fn lemma_inflate_symbols_rest(
    lit: Map<u32, LitLenToken>,
    dist: Map<u32, DistanceToken>,
    v: Seq<bool>,
    out: Seq<u8>,
    pend: Seq<u8>,
)
    ensures
        inflate_symbols(lit, dist, v, out, pend) matches Ok((o, rest)) ==> rest.len() <= v.len(),
    decreases v.len(),
{
    if !too_large(out) {
        if let Some(j) = match_from(lit, v, 1) {
            if 1 <= j <= v.len() {
                let w = v.skip(j as int);
                match lit[code_key(msb_value(v.take(j as int)) as int, j as int)] {
                    LitLenToken::EndOfBlock => {},
                    LitLenToken::Literal(x) => {
                        let p2 = pend.push(x);
                        if p2.len() == 10 {
                            lemma_inflate_symbols_rest(lit, dist, w, out + p2, Seq::empty());
                        } else {
                            lemma_inflate_symbols_rest(lit, dist, w, out, p2);
                        }
                    },
                    LitLenToken::Length { base, extra_bits } => {
                        lemma_reference_step_rest(dist, w, out, pend, base, extra_bits);
                        if let Ok((out2, w4)) = reference_step(dist, w, out, pend, base, extra_bits) {
                            lemma_inflate_symbols_rest(lit, dist, w4, out2, Seq::empty());
                        }
                    },
                }
            }
        }
    }
}

/// The bits of a dynamic block after its code tables are decoded, and the
/// output after its symbols, when both succeed.
pub open spec fn dynamic_block(v: Seq<bool>, out: Seq<u8>) -> Option<(Seq<u8>, Seq<bool>)> {
    match decode_trees_spec(v.skip(3)) {
        Ok((lit, dist, rest)) => match (litlen_build(lit), distance_build(dist)) {
            (Ok(m1), Ok(m2)) => match inflate_symbols(m1, m2, rest, out, Seq::empty()) {
                Ok((out2, rest2)) => Some((out2, rest2)),
                Err(_) => None,
            },
            _ => None,
        },
        Err(_) => None,
    }
}

/// A block is decoded on its own, and the decoder stops only after the block
/// whose BFINAL bit is set: after a dynamic block that is not final, the
/// output is that block's output followed by the decoding of the blocks
/// after it; a final one ends the output whatever follows. A stored block
/// behaves the same way with its bytes. Whatever happens, the output only
/// grows: what was written before stays at its front.
pub proof fn law_blocks_in_sequence(v: Seq<bool>, out: Seq<u8>)
    ensures
        !too_large(out) && v.len() >= 3 && block_header_spec(v).1 == CompressionType::DynamicTree
            ==> (dynamic_block(v, out) matches Some((out2, rest2)) ==> inflate_blocks(v, out) == if block_header_spec(
            v,
        ).0 {
            Ok::<Seq<u8>, (Seq<u8>, DecompressError)>(out2)
        } else {
            inflate_blocks(rest2, out2)
        }),
        !too_large(out) && v.len() >= 3 && block_header_spec(v).1 == CompressionType::Uncompressed
            ==> ({
            let v1 = v.skip(3);
            let w = v1.skip(v1.len() as int % 8);
            let ulen = bits_value(w.take(16));
            let w2 = w.skip(32);
            w.len() >= 32 && w2.len() >= 8 * ulen ==> inflate_blocks(v, out) == if block_header_spec(
                v,
            ).0 {
                Ok::<Seq<u8>, (Seq<u8>, DecompressError)>(out + bytes_of(w2, ulen))
            } else {
                inflate_blocks(w2.skip((8 * ulen) as int), out + bytes_of(w2, ulen))
            }
        }),
        inflate_blocks(v, out) matches Ok(o) ==> o.take(out.len() as int) == out && o.len() >= out.len(),
        inflate_blocks(v, out) matches Err((o, e)) ==> o.take(out.len() as int) == out && o.len()
            >= out.len(),
    decreases v.len(),
{
    lemma_inflate_blocks_grows(v, out);
    if !too_large(out) && v.len() >= 3 && block_header_spec(v).1 == CompressionType::DynamicTree {
        let v1 = v.skip(3);
        lemma_decode_trees_rest(v1);
        if let Ok((lit, dist, rest)) = decode_trees_spec(v1) {
            if let (Ok(m1), Ok(m2)) = (litlen_build(lit), distance_build(dist)) {
                lemma_inflate_symbols_rest(m1, m2, rest, out, Seq::empty());
            }
        }
    }
}

/// Decoding symbols only adds to the output.
proof fn lemma_inflate_symbols_grows(
    lit: Map<u32, LitLenToken>,
    dist: Map<u32, DistanceToken>,
    v: Seq<bool>,
    out: Seq<u8>,
    pend: Seq<u8>,
)
    ensures
        inflate_symbols(lit, dist, v, out, pend) matches Ok((o, rest)) ==> o.take(out.len() as int)
            == out && o.len() >= out.len(),
        inflate_symbols(lit, dist, v, out, pend) matches Err((o, e)) ==> o.take(out.len() as int)
            == out && o.len() >= out.len(),
    decreases v.len(),
{
    assert(out.take(out.len() as int) =~= out);
    if !too_large(out) {
        if let Some(j) = match_from(lit, v, 1) {
            if 1 <= j <= v.len() {
                let w = v.skip(j as int);
                match lit[code_key(msb_value(v.take(j as int)) as int, j as int)] {
                    LitLenToken::EndOfBlock => {
                        assert((out + pend).take(out.len() as int) =~= out);
                    },
                    LitLenToken::Literal(x) => {
                        let p2 = pend.push(x);
                        if p2.len() == 10 {
                            lemma_inflate_symbols_grows(lit, dist, w, out + p2, Seq::empty());
                            if let Ok((o, rest)) = inflate_symbols(lit, dist, w, out + p2, Seq::empty()) {
                                assert(o.take(out.len() as int) =~= o.take((out + p2).len() as int).take(
                                    out.len() as int,
                                ));
                                assert((out + p2).take(out.len() as int) =~= out);
                            }
                            if let Err((o, e)) = inflate_symbols(lit, dist, w, out + p2, Seq::empty()) {
                                assert(o.take(out.len() as int) =~= o.take((out + p2).len() as int).take(
                                    out.len() as int,
                                ));
                                assert((out + p2).take(out.len() as int) =~= out);
                            }
                        } else {
                            lemma_inflate_symbols_grows(lit, dist, w, out, p2);
                        }
                    },
                    LitLenToken::Length { base, extra_bits } => {
                        lemma_reference_step_rest(dist, w, out, pend, base, extra_bits);
                        lemma_reference_step_grows(dist, w, out, pend, base, extra_bits);
                        if let Ok((out2, w4)) = reference_step(dist, w, out, pend, base, extra_bits) {
                            lemma_inflate_symbols_grows(lit, dist, w4, out2, Seq::empty());
                            if let Ok((o, rest)) = inflate_symbols(lit, dist, w4, out2, Seq::empty()) {
                                assert(o.take(out.len() as int) =~= o.take(out2.len() as int).take(
                                    out.len() as int,
                                ));
                                assert(out2.take(out.len() as int) =~= out);
                            }
                            if let Err((o, e)) = inflate_symbols(lit, dist, w4, out2, Seq::empty()) {
                                assert(o.take(out.len() as int) =~= o.take(out2.len() as int).take(
                                    out.len() as int,
                                ));
                                assert(out2.take(out.len() as int) =~= out);
                            }
                        }
                    },
                }
            }
        }
    }
}

/// A back-reference only adds to the output.
proof fn lemma_reference_step_grows(
    dist: Map<u32, DistanceToken>,
    w: Seq<bool>,
    out: Seq<u8>,
    pend: Seq<u8>,
    base: u16,
    extra_bits: u8,
)
    ensures
        reference_step(dist, w, out, pend, base, extra_bits) matches Ok((o, rest)) ==> o.take(
            out.len() as int,
        ) == out && o.len() >= out.len(),
        reference_step(dist, w, out, pend, base, extra_bits) matches Err((o, e)) ==> o.take(
            out.len() as int,
        ) == out && o.len() >= out.len(),
{
    assert(out.take(out.len() as int) =~= out);
    assert((out + pend).take(out.len() as int) =~= out);
    if let Ok((o, rest)) = reference_step(dist, w, out, pend, base, extra_bits) {
        let h = out + pend;
        if w.len() >= extra_bits {
            let l = base + bits_value(w.take(extra_bits as int));
            let w2 = w.skip(extra_bits as int);
            let k = match_from(dist, w2, 1)->Some_0;
            let dt = dist[code_key(msb_value(w2.take(k as int)) as int, k as int)];
            let w3 = w2.skip(k as int);
            let d = dt.base + bits_value(w3.take(dt.extra_bits as int));
            assert(o == copy_back(h, d, l));
            if l > d {
                lemma_lz_copy_len(h, d, l);
                assert(o.take(out.len() as int) =~= o.take(h.len() as int).take(out.len() as int));
            } else {
                assert(o.take(out.len() as int) =~= out);
            }
        }
    }
}

/// Decoding blocks only adds to the output.
proof fn lemma_inflate_blocks_grows(v: Seq<bool>, out: Seq<u8>)
    ensures
        inflate_blocks(v, out) matches Ok(o) ==> o.take(out.len() as int) == out && o.len() >= out.len(),
        inflate_blocks(v, out) matches Err((o, e)) ==> o.take(out.len() as int) == out && o.len()
            >= out.len(),
    decreases v.len(),
{
    assert(out.take(out.len() as int) =~= out);
    if !too_large(out) && v.len() >= 3 {
        let (fin, ty) = block_header_spec(v);
        let v1 = v.skip(3);
        match ty {
            CompressionType::Uncompressed => {
                let w = v1.skip(v1.len() as int % 8);
                if w.len() >= 32 {
                    let ulen = bits_value(w.take(16));
                    let w2 = w.skip(32);
                    if w2.len() >= 8 * ulen {
                        let out2 = out + bytes_of(w2, ulen);
                        assert(out2.take(out.len() as int) =~= out);
                        if !fin {
                            lemma_inflate_blocks_grows(w2.skip((8 * ulen) as int), out2);
                            if let Ok(o) = inflate_blocks(w2.skip((8 * ulen) as int), out2) {
                                assert(o.take(out.len() as int) =~= o.take(out2.len() as int).take(
                                    out.len() as int,
                                ));
                            }
                            if let Err((o, e)) = inflate_blocks(w2.skip((8 * ulen) as int), out2) {
                                assert(o.take(out.len() as int) =~= o.take(out2.len() as int).take(
                                    out.len() as int,
                                ));
                            }
                        }
                    }
                }
            },
            CompressionType::DynamicTree => {
                if let Ok((lit, dist, rest)) = decode_trees_spec(v1) {
                    if let (Ok(m1), Ok(m2)) = (litlen_build(lit), distance_build(dist)) {
                        lemma_inflate_symbols_grows(m1, m2, rest, out, Seq::empty());
                        if let Ok((out2, rest2)) = inflate_symbols(m1, m2, rest, out, Seq::empty()) {
                            if !fin && rest2.len() < v.len() {
                                lemma_inflate_blocks_grows(rest2, out2);
                                if let Ok(o) = inflate_blocks(rest2, out2) {
                                    assert(o.take(out.len() as int) =~= o.take(out2.len() as int).take(
                                        out.len() as int,
                                    ));
                                }
                                if let Err((o, e)) = inflate_blocks(rest2, out2) {
                                    assert(o.take(out.len() as int) =~= o.take(out2.len() as int).take(
                                        out.len() as int,
                                    ));
                                }
                            }
                        }
                    }
                }
            },
            _ => {},
        }
    }
}

proof fn lemma_byte_value(b: u8)
    ensures
        bits_value(byte_bits(b)) == b,
{
    lemma_low_bits_value(b as u32, 8);
    lemma2_to64();
}

/// The bits of the bytes from index `k` on are the bits from `8 k` on.
proof fn lemma_stream_bits_skip(s: Seq<u8>, k: int)
    requires
        0 <= k <= s.len(),
    ensures
        stream_bits(s).skip(8 * k) == stream_bits(s.skip(k)),
{
    lemma_stream_bits_split(s, k);
    lemma_stream_bits_len(s.take(k));
    assert(s.take(k).len() == k);
    assert(stream_bits(s).skip(8 * k) =~= stream_bits(s.skip(k)));
}

/// The eight bits of byte `i`.
proof fn lemma_stream_bits_byte(s: Seq<u8>, i: int)
    requires
        0 <= i < s.len(),
    ensures
        stream_bits(s).skip(8 * i).take(8) == byte_bits(s[i]),
        bits_value(stream_bits(s).skip(8 * i).take(8)) == s[i],
{
    lemma_stream_bits_skip(s, i);
    let t = s.skip(i);
    assert(stream_bits(t) == byte_bits(t[0]) + stream_bits(t.drop_first()));
    assert(stream_bits(t).take(8) =~= byte_bits(s[i]));
    lemma_byte_value(s[i]);
}

proof fn lemma_le16_bits(s: Seq<u8>)
    requires
        s.len() >= 2,
    ensures
        bits_value(stream_bits(s).take(16)) == le16(s, 0),
{
    lemma_stream_bits_byte(s, 0);
    lemma_stream_bits_byte(s, 1);
    lemma_stream_bits_len(s);
    let v = stream_bits(s);
    assert(v.take(16) =~= v.skip(0).take(8) + v.skip(8).take(8));
    lemma_bits_value_append(v.skip(0).take(8), v.skip(8).take(8));
    lemma2_to64();
}

proof fn lemma_bytes_of(s: Seq<u8>, k: int, n: nat)
    requires
        0 <= k,
        k + n <= s.len(),
    ensures
        bytes_of(stream_bits(s).skip(8 * k), n) == s.subrange(k, k + n),
{
    lemma_stream_bits_len(s);
    assert forall|i: int| 0 <= i < n implies #[trigger] bytes_of(stream_bits(s).skip(8 * k), n)[i]
        == s[k + i] by {
        lemma_stream_bits_byte(s, k + i);
        assert(stream_bits(s).skip(8 * k).skip(8 * i) =~= stream_bits(s).skip(8 * (k + i)));
    }
    assert(bytes_of(stream_bits(s).skip(8 * k), n) =~= s.subrange(k, k + n));
}

/// Copies a stored block: drops the rest of the current byte, reads the
/// length and its complement, and writes that many bytes.
fn copy_stored_block(bit_reader: &mut BitReader, writer: &mut TrackingWriter) -> (r: Result<
    (),
    DecompressError,
>)
    requires
        old(bit_reader).wf(),
        old(writer).wf(),
        old(writer).capacity() == usize::MAX,
        old(writer).output() == old(writer).history(),
        !too_large(old(writer).history()),
    ensures
        final(bit_reader).wf(),
        final(writer).wf(),
        final(writer).capacity() == usize::MAX,
        final(writer).output() == final(writer).history(),
        ({
            let v = old(bit_reader).bits();
            let w = v.skip(v.len() as int % 8);
            if w.len() < 32 {
                r == Err::<(), DecompressError>(eof()) && final(writer).history() == old(writer).history()
            } else {
                let ulen = bits_value(w.take(16));
                let w2 = w.skip(32);
                if w2.len() < 8 * ulen {
                    r == Err::<(), DecompressError>(eof()) && final(writer).history() == old(
                        writer,
                    ).history()
                } else {
                    &&& r is Ok
                    &&& final(writer).history() == old(writer).history() + bytes_of(w2, ulen)
                    &&& final(bit_reader).bits() == w2.skip((8 * ulen) as int)
                }
            }
        }),
{
    proof {
        bit_reader.lemma_wf();
        writer.lemma_wf();
    }
    let ghost v = old(bit_reader).bits();
    let ghost p = old(bit_reader).pending();
    let stream = bit_reader.borrow_reader_from_boundary();
    let bytes: &[u8] = *stream;
    let ghost sb = bytes@;
    proof {
        lemma_stream_bits_len(sb);
        assert(v.len() as int % 8 == p.len());
        assert(v.skip(v.len() as int % 8) =~= stream_bits(sb));
    }
    if bytes.len() < 4 {
        return Err(DecompressError::Read(ReadError { kind: ErrorKind::UnexpectedEof }));
    }
    let ulen = read_u16_le(bytes) as usize;
    proof {
        lemma_le16_bits(sb);
        lemma_stream_bits_skip(sb, 4);
    }
    if bytes.len() - 4 < ulen {
        return Err(DecompressError::Read(ReadError { kind: ErrorKind::UnexpectedEof }));
    }
    let data = vstd::slice::slice_subrange(bytes, 4, 4 + ulen);
    let n = writer.write(data);
    *stream = vstd::slice::slice_subrange(bytes, 4 + ulen, bytes.len());
    proof {
        lemma_bytes_of(sb, 4, ulen as nat);
        lemma_stream_bits_skip(sb, 4 + ulen);
        assert(data@.take(n as int) =~= data@);
        assert(stream_bits(sb).skip(32).skip((8 * ulen) as int) =~= stream_bits(sb).skip(8 * (4 + ulen)));
    }
    Ok(())
}

/// Reads the rest of a back-reference after its length symbol (`base`,
/// `extra_bits`): the length's extra bits, the distance symbol and its extra
/// bits; then writes the waiting literals in `buf` and copies from the history.
#[verifier::spinoff_prover]
#[verifier::rlimit(40)]
fn copy_reference(
    bit_reader: &mut BitReader,
    writer: &mut TrackingWriter,
    buf: &mut Vec<u8>,
    dist: &HuffmanCoding<DistanceToken>,
    base: u16,
    extra_bits: u8,
) -> (r: Result<(), DecompressError>)
    requires
        old(bit_reader).wf(),
        old(writer).wf(),
        old(writer).capacity() == usize::MAX,
        old(writer).output() == old(writer).history(),
        !too_large(old(writer).history()),
        old(buf)@.len() < 10,
        distance_values_ok(dist@),
        extra_bits <= 5,
        base <= 258,
    ensures
        final(bit_reader).wf(),
        final(writer).wf(),
        final(writer).capacity() == usize::MAX,
        final(writer).output() == final(writer).history(),
        match reference_step(dist@, old(bit_reader).bits(), old(writer).history(), old(buf)@, base, extra_bits) {
            Ok((out, rest)) => {
                &&& r is Ok
                &&& final(writer).history() == out
                &&& final(bit_reader).bits() == rest
                &&& final(buf)@ == Seq::<u8>::empty()
            },
            Err((out, e)) => r == Err::<(), DecompressError>(e) && final(writer).history() == out,
        },
{
    let ghost w = old(bit_reader).bits();
    let ghost out = old(writer).history();
    proof {
        bit_reader.lemma_wf();
        writer.lemma_wf();
    }
    let mut len: usize = base as usize;
    if extra_bits > 0 {
        proof {
            lemma_bits_value_bound(w.take(extra_bits as int));
            lemma2_to64();
        }
        match bit_reader.read_bits(extra_bits) {
            Ok(b) => {
                len = len + b.bits() as usize;
            },
            Err(e) => {
                return Err(DecompressError::Read(e));
            },
        }
    } else {
        proof {
            assert(w.take(0) =~= Seq::<bool>::empty());
            assert(w.skip(0) =~= w);
        }
    }
    let ghost w2 = bit_reader.bits();
    proof {
        bit_reader.lemma_wf();
        lemma_match_from_range(dist@, w2, 1);
    }
    let dt = match dist.read_symbol(bit_reader) {
        Ok(t) => t,
        Err(e) => {
            return Err(DecompressError::Huffman(e));
        },
    };
    let ghost k = match_from(dist@, w2, 1)->Some_0;
    let ghost w3 = w2.skip(k as int);
    let mut d: usize = dt.base as usize;
    if dt.extra_bits > 0 {
        proof {
            lemma_bits_value_bound(w3.take(dt.extra_bits as int));
            lemma2_to64();
        }
        match bit_reader.read_bits(dt.extra_bits) {
            Ok(b) => {
                d = d + b.bits() as usize;
            },
            Err(e) => {
                return Err(DecompressError::Read(e));
            },
        }
    } else {
        proof {
            assert(w3.take(0) =~= Seq::<bool>::empty());
            assert(w3.skip(0) =~= w3);
        }
    }
    if buf.len() > 0 {
        let n = writer.write(buf.as_slice());
        proof {
            assert(buf@.take(n as int) =~= buf@);
        }
        buf.clear();
    } else {
        proof {
            assert(out + old(buf)@ =~= out);
        }
    }
    let ghost h = writer.history();
    proof {
        writer.lemma_wf();
        lemma_lz_copy_len(h, d as int, len as int);
    }
    match writer.write_previous(d, len) {
        Ok(()) => {},
        Err(e) => {
            return Err(DecompressError::Write(e));
        },
    }
    proof {
        assert(writer.history() =~= h + writer.history().skip(h.len() as int));
    }
    Ok(())
}

/// Decodes the symbols of a dynamic block up to its end-of-block symbol and
/// writes what they stand for. Literals are written ten at a time, before a
/// back-reference and at the end of the block.
fn inflate_block_symbols(
    bit_reader: &mut BitReader,
    writer: &mut TrackingWriter,
    lit: &HuffmanCoding<LitLenToken>,
    dist: &HuffmanCoding<DistanceToken>,
) -> (r: Result<(), DecompressError>)
    requires
        old(bit_reader).wf(),
        old(writer).wf(),
        old(writer).capacity() == usize::MAX,
        old(writer).output() == old(writer).history(),
        litlen_values_ok(lit@),
        distance_values_ok(dist@),
    ensures
        final(bit_reader).wf(),
        final(writer).wf(),
        final(writer).capacity() == usize::MAX,
        final(writer).output() == final(writer).history(),
        match inflate_symbols(lit@, dist@, old(bit_reader).bits(), old(writer).history(), Seq::empty()) {
            Ok((out, rest)) => {
                &&& r is Ok
                &&& final(writer).history() == out
                &&& final(bit_reader).bits() == rest
            },
            Err((out, e)) => r == Err::<(), DecompressError>(e) && final(writer).history() == out,
        },
{
    let ghost goal = inflate_symbols(lit@, dist@, old(bit_reader).bits(), old(writer).history(), Seq::empty());
    let mut buf: Vec<u8> = Vec::new();
    loop
        invariant
            bit_reader.wf(),
            writer.wf(),
            writer.capacity() == usize::MAX,
            writer.output() == writer.history(),
            litlen_values_ok(lit@),
            distance_values_ok(dist@),
            buf@.len() < 10,
            inflate_symbols(lit@, dist@, bit_reader.bits(), writer.history(), buf@) == goal,
            goal == inflate_symbols(lit@, dist@, old(bit_reader).bits(), old(writer).history(), Seq::empty()),
        decreases bit_reader.bits().len(),
    {
        let ghost v = bit_reader.bits();
        proof {
            writer.lemma_wf();
            lemma_match_from_range(lit@, v, 1);
        }
        if writer.byte_count() > usize::MAX - 131072 {
            return Err(DecompressError::OutputTooLarge);
        }
        let token = match lit.read_symbol(bit_reader) {
            Ok(t) => t,
            Err(e) => {
                return Err(DecompressError::Huffman(e));
            },
        };
        match token {
            LitLenToken::EndOfBlock => {
                if buf.len() > 0 {
                    let n = writer.write(buf.as_slice());
                    proof {
                        assert(buf@.take(n as int) =~= buf@);
                    }
                } else {
                    proof {
                        assert(writer.history() + buf@ =~= writer.history());
                    }
                }
                return Ok(());
            },
            LitLenToken::Literal(x) => {
                buf.push(x);
                if buf.len() == 10 {
                    let n = writer.write(buf.as_slice());
                    proof {
                        assert(buf@.take(n as int) =~= buf@);
                    }
                    buf.clear();
                }
            },
            LitLenToken::Length { base, extra_bits } => {
                let ghost w = bit_reader.bits();
                let ghost pend = buf@;
                let ghost out = writer.history();
                match copy_reference(bit_reader, writer, &mut buf, dist, base, extra_bits) {
                    Ok(()) => {},
                    Err(e) => {
                        return Err(e);
                    },
                }
                proof {
                    lemma_reference_step_rest(dist@, w, out, pend, base, extra_bits);
                }
            },
        }
    }
}

/// Decompresses the gzip data `input`: parses the member header, then decodes
/// DEFLATE blocks until a final block, or until a block type other than
/// stored or dynamic Huffman, which ends the output. The footer is not read.
pub fn decompress(input: &[u8], output: &mut Vec<u8>) -> (r: Result<(), DecompressError>)
    requires
        input@.len() <= isize::MAX,
    ensures
        match decompress_spec(input@) {
            Ok(out) => r is Ok && final(output)@ == old(output)@ + out,
            Err((out, e)) => r == Err::<(), DecompressError>(e) && final(output)@ == old(output)@ + out,
        },
{
    let mut writer = TrackingWriter::new(usize::MAX);
    let r = decompress_into(input, &mut writer);
    let mut produced = writer.inner().clone();
    output.append(&mut produced);
    r
}

/// Decompresses `input` into `writer`, which starts empty.
fn decompress_into(input: &[u8], writer: &mut TrackingWriter) -> (r: Result<(), DecompressError>)
    requires
        input@.len() <= isize::MAX,
        old(writer).wf(),
        old(writer).capacity() == usize::MAX,
        old(writer).output() == Seq::<u8>::empty(),
        old(writer).history() == Seq::<u8>::empty(),
    ensures
        final(writer).output() == final(writer).history(),
        match decompress_spec(input@) {
            Ok(out) => r is Ok && final(writer).history() == out,
            Err((out, e)) => r == Err::<(), DecompressError>(e) && final(writer).history() == out,
        },
{
    let mut gzip_reader = GzipReader::new(input);
    match gzip_reader.read_header() {
        Ok(_) => {},
        Err(e) => {
            return Err(DecompressError::Gzip(e));
        },
    }
    let mut member_reader = MemberReader { inner: *gzip_reader.reader_mut() };
    let bit_reader = BitReader::new(*member_reader.inner_mut());
    let mut deflate_reader = DeflateReader::new(bit_reader);
    loop
        invariant
            deflate_reader.reader().wf(),
            writer.wf(),
            writer.capacity() == usize::MAX,
            writer.output() == writer.history(),
            inflate_blocks(deflate_reader.reader().bits(), writer.history()) == decompress_spec(
                input@,
            ),
        decreases deflate_reader.reader().bits().len(),
    {
        let ghost v = deflate_reader.reader().bits();
        proof {
            writer.lemma_wf();
        }
        if writer.byte_count() > usize::MAX - 131072 {
            return Err(DecompressError::OutputTooLarge);
        }
        let (header, br) = match deflate_reader.next_block() {
            Some(Ok(x)) => x,
            Some(Err(e)) => {
                return Err(DecompressError::Read(e));
            },
            None => {
                return Err(DecompressError::Read(ReadError { kind: ErrorKind::UnexpectedEof }));
            },
        };
        let is_final = header.is_final;
        match header.compression_type {
            CompressionType::Uncompressed => {
                match copy_stored_block(br, writer) {
                    Ok(()) => {},
                    Err(e) => {
                        return Err(e);
                    },
                }
            },
            CompressionType::DynamicTree => {
                let ghost v1 = br.bits();
                let ghost trees = decode_trees_spec(v1);
                proof {
                    lemma_decode_trees_rest(v1);
                    if let Ok((lit, dist, rest)) = trees {
                        lemma_litlen_values(lit);
                        lemma_distance_values(dist);
                    }
                }
                let (lit_len_huffman, dist_huffman) = match decode_litlen_distance_trees(br) {
                    Ok(x) => x,
                    Err(e) => {
                        return Err(DecompressError::Huffman(e));
                    },
                };
                let ghost rest = br.bits();
                let ghost out = writer.history();
                match inflate_block_symbols(br, writer, &lit_len_huffman, &dist_huffman) {
                    Ok(()) => {},
                    Err(e) => {
                        return Err(e);
                    },
                }
                proof {
                    lemma_inflate_symbols_rest(lit_len_huffman@, dist_huffman@, rest, out, Seq::empty());
                }
            },
            _ => {
                return Ok(());
            },
        }
        if is_final {
            return Ok(());
        }
    }
}

} // verus!
