//! Reading a byte stream bit by bit, least significant bit of each byte first.

use vstd::prelude::*;
use vstd::arithmetic::power2::{pow2, lemma_pow2_unfold, lemma_pow2_pos, lemma2_to64};
use vstd::arithmetic::div_mod::lemma_mod_breakdown;
use vstd::bits::{low_bits_mask, lemma_u32_low_bits_mask_is_mod, lemma_u16_low_bits_mask_is_mod, lemma_low_bits_mask_values, lemma_u32_shr_is_div};

verus! {

// ---------------------------------------------------------------------------
// Bit-level model

/// Bit `i` of `x` (bit 0 is the least significant one).
pub open spec fn get_bit(x: u32, i: int) -> bool {
    ((x >> (i as u32)) & 1u32) == 1u32
}

/// The `n` lowest bits of `x`, least significant first.
pub open spec fn low_bits(x: u32, n: nat) -> Seq<bool> {
    Seq::new(n, |i: int| get_bit(x, i))
}

/// The eight bits of a byte, least significant first.
pub open spec fn byte_bits(b: u8) -> Seq<bool> {
    low_bits(b as u32, 8)
}

/// The bits of a byte sequence: each byte contributes its bits least significant first.
pub open spec fn stream_bits(s: Seq<u8>) -> Seq<bool>
    decreases s.len(),
{
    if s.len() == 0 {
        Seq::empty()
    } else {
        byte_bits(s[0]) + stream_bits(s.drop_first())
    }
}

/// The number whose binary digits, least significant first, are `s`.
pub open spec fn bits_value(s: Seq<bool>) -> nat
    decreases s.len(),
{
    if s.len() == 0 {
        0
    } else {
        (if s[0] { 1nat } else { 0nat }) + 2 * bits_value(s.drop_first())
    }
}

proof fn lemma_get_bit_shr(x: u32, i: u32)
    requires
        i < 31,
    ensures
        get_bit(x, i + 1) == get_bit(x >> 1, i as int),
{
    assert(((x >> (i + 1)) & 1u32) == (((x >> 1u32) >> i) & 1u32)) by (bit_vector)
        requires
            i < 31,
    ;
}

/// The value of the `n` low bits of `x` is `x mod 2^n`.
pub proof fn lemma_low_bits_value(x: u32, n: nat)
    requires
        n <= 32,
    ensures
        bits_value(low_bits(x, n)) == x as nat % pow2(n),
    decreases n,
{
    if n == 0 {
        lemma2_to64();
    } else {
        let s = low_bits(x, n);
        assert(s.drop_first() =~= low_bits(x >> 1, (n - 1) as nat)) by {
            assert forall|i: int| 0 <= i < n - 1 implies #[trigger] s.drop_first()[i] == low_bits(
                x >> 1,
                (n - 1) as nat,
            )[i] by {
                lemma_get_bit_shr(x, i as u32);
            }
        }
        lemma_low_bits_value(x >> 1, (n - 1) as nat);
        assert(x >> 1 == x / 2) by (bit_vector);
        assert(((x >> 0u32) & 1u32) == x % 2) by (bit_vector);
        assert(s[0] == (x % 2 == 1));
        assert(bits_value(s) == (if s[0] { 1nat } else { 0nat }) + 2 * bits_value(s.drop_first()));
        lemma_pow2_unfold(n);
        lemma_pow2_pos((n - 1) as nat);
        lemma_mod_breakdown(x as int, 2, pow2((n - 1) as nat) as int);
    }
}

/// A value of `n` binary digits is below `2^n`.
pub proof fn lemma_bits_value_bound(s: Seq<bool>)
    ensures
        bits_value(s) < pow2(s.len()),
    decreases s.len(),
{
    if s.len() == 0 {
        lemma2_to64();
    } else {
        lemma_bits_value_bound(s.drop_first());
        lemma_pow2_unfold(s.len());
    }
}

/// The bits of a concatenation of byte sequences are the concatenation of their bits.
pub proof fn lemma_stream_bits_split(s: Seq<u8>, k: int)
    requires
        0 <= k <= s.len(),
    ensures
        stream_bits(s) == stream_bits(s.take(k)) + stream_bits(s.skip(k)),
        stream_bits(s).len() == 8 * s.len(),
    decreases k,
{
    if k == 0 {
        assert(s.take(0) =~= Seq::<u8>::empty());
        assert(s.skip(0) =~= s);
        lemma_stream_bits_len(s);
    } else {
        lemma_stream_bits_split(s.drop_first(), k - 1);
        assert(s.take(k).drop_first() =~= s.drop_first().take(k - 1));
        assert(s.drop_first().skip(k - 1) =~= s.skip(k));
        assert(stream_bits(s.take(k)) == byte_bits(s[0]) + stream_bits(s.take(k).drop_first()));
        assert(stream_bits(s) =~= stream_bits(s.take(k)) + stream_bits(s.skip(k)));
        lemma_stream_bits_len(s);
    }
}

proof fn lemma_stream_bits_prefix(s: Seq<u8>, k: int)
    requires
        1 <= k <= 2,
        k <= s.len(),
    ensures
        k == 1 ==> stream_bits(s.take(k)) == byte_bits(s[0]),
        k == 2 ==> stream_bits(s.take(k)) == byte_bits(s[0]) + byte_bits(s[1]),
{
    let t = s.take(k);
    assert(stream_bits(t) == byte_bits(t[0]) + stream_bits(t.drop_first()));
    if k == 1 {
        assert(t.drop_first() =~= Seq::<u8>::empty());
        assert(stream_bits(t) =~= byte_bits(s[0]));
    } else {
        let u = t.drop_first();
        assert(stream_bits(u) == byte_bits(u[0]) + stream_bits(u.drop_first()));
        assert(u.drop_first() =~= Seq::<u8>::empty());
        assert(stream_bits(t) =~= byte_bits(s[0]) + byte_bits(s[1]));
    }
}

/// Reading `len` bits out of a window whose `total` low bits start the stream.
proof fn lemma_window(v: Seq<bool>, w: u32, total: nat, rest: Seq<bool>, len: nat)
    requires
        v == low_bits(w, total) + rest,
        len <= total,
    ensures
        low_bits(w, len) == v.take(len as int),
        v.skip(len as int) == low_bits(w, total).skip(len as int) + rest,
{
    assert(low_bits(w, len) =~= v.take(len as int));
    assert(v.skip(len as int) =~= low_bits(w, total).skip(len as int) + rest);
}

/// The value of two runs of bits read one after the other: the later bits
/// are the higher ones.
pub proof fn lemma_bits_value_append(a: Seq<bool>, b: Seq<bool>)
    ensures
        bits_value(a + b) == bits_value(a) + pow2(a.len()) * bits_value(b),
    decreases a.len(),
{
    if a.len() == 0 {
        lemma2_to64();
        assert(a + b =~= b);
    } else {
        lemma_bits_value_append(a.drop_first(), b);
        assert((a + b).drop_first() =~= a.drop_first() + b);
        lemma_pow2_unfold(a.len());
        assert(pow2(a.len()) * bits_value(b) == 2 * (pow2((a.len() - 1) as nat) * bits_value(b)))
            by (nonlinear_arith)
            requires
                pow2(a.len()) == 2 * pow2((a.len() - 1) as nat),
        ;
    }
}

/// Reading `n` bits and then `m` more gives what reading `n + m` bits at
/// once gives: the first `n` are the low bits of the value.
pub proof fn law_reads_compose(v: Seq<bool>, n: nat, m: nat)
    requires
        n + m <= v.len(),
    ensures
        bits_value(v.take((n + m) as int)) == bits_value(v.take(n as int)) + pow2(n) * bits_value(
            v.skip(n as int).take(m as int),
        ),
        v.skip(n as int).skip(m as int) == v.skip((n + m) as int),
{
    assert(v.take((n + m) as int) =~= v.take(n as int) + v.skip(n as int).take(m as int));
    lemma_bits_value_append(v.take(n as int), v.skip(n as int).take(m as int));
    assert(v.skip(n as int).skip(m as int) =~= v.skip((n + m) as int));
}

/// A stream of `n` bytes has `8 n` bits.
pub proof fn lemma_stream_bits_len(s: Seq<u8>)
    ensures
        stream_bits(s).len() == 8 * s.len(),
    decreases s.len(),
{
    if s.len() > 0 {
        lemma_stream_bits_len(s.drop_first());
    }
}

// ---------------------------------------------------------------------------
// Bit sequences

/// The mask of the low `len` bits (none for 0, all for 16 or more).
fn low_mask(len: u8) -> (r: u16)
    ensures
        r as nat == if len <= 16 { low_bits_mask(len as nat) } else { low_bits_mask(16) },
{
    proof {
        lemma_low_bits_mask_values();
    }
    match len {
        0 => 0x0,
        1 => 0b0000000000000001,
        2 => 0b0000000000000011,
        3 => 0b0000000000000111,
        4 => 0b0000000000001111,
        5 => 0b0000000000011111,
        6 => 0b0000000000111111,
        7 => 0b0000000001111111,
        8 => 0b0000000011111111,
        9 => 0b0000000111111111,
        10 => 0b0000001111111111,
        11 => 0b0000011111111111,
        12 => 0b0000111111111111,
        13 => 0b0001111111111111,
        14 => 0b0011111111111111,
        15 => 0b0111111111111111,
        _ => 0b1111111111111111,
    }
}

/// A value below `2^len` is kept whole by `BitSequence::new`.
proof fn lemma_small_value(b: u16, len: u8)
    requires
        len >= 16 || (b as nat) < pow2(len as nat),
    ensures
        len < 16 ==> b as nat % pow2(len as nat) == b,
{
    if len < 16 {
        vstd::arithmetic::div_mod::lemma_small_mod(b as nat, pow2(len as nat));
    }
}

/// A code of at most 16 bits: `bits` holds the value, `len` the number of bits.
#[derive(Clone, Copy, Debug, PartialEq, Eq, Hash, Structural)]
pub struct BitSequence {
    pub bits: u16,
    pub len: u8,
}

impl BitSequence {
    /// A sequence of `len` bits with value `bits`. The bits above `len` are
    /// zeroed (`bits & (2^len - 1)`), so that two sequences with the same low
    /// `len` bits are equal and hash alike.
    pub fn new(bits: u16, len: u8) -> (r: Self)
        ensures
            r.len == len,
            len < 16 ==> r.bits as nat == bits as nat % pow2(len as nat),
            len >= 16 ==> r.bits == bits,
    {
        if len >= 16 {
            Self { bits: bits, len: len }
        } else {
            let mask = low_mask(len);
            proof {
                lemma_u16_low_bits_mask_is_mod(bits, len as nat);
                lemma2_to64();
                lemma_pow2_pos(len as nat);
            }
            Self { bits: bits & mask, len: len }
        }
    }

    /// The value of the sequence.
    pub fn bits(&self) -> (r: u16)
        ensures
            r == self.bits,
    {
        self.bits
    }

    /// The number of bits in the sequence.
    pub fn len(&self) -> (r: u8)
        ensures
            r == self.len,
    {
        self.len
    }

    /// Appends `other` after `self`: the bits of `self` become the high bits.
    pub fn concat(self, other: Self) -> (r: Self)
        requires
            other.len < 16,
            self.len + other.len <= u8::MAX,
        ensures
            r.bits == ((self.bits << other.len) | other.bits),
            r.len == self.len + other.len,
    {
        Self { bits: self.bits << other.len | other.bits, len: other.len + self.len }
    }
}

// ---------------------------------------------------------------------------
// Bit reader

/// The kind of a read failure.
#[derive(Clone, Copy, Debug, PartialEq, Eq, Structural)]
pub enum ErrorKind {
    UnexpectedEof,
}

/// A failed read.
#[derive(Clone, Copy, Debug, PartialEq, Eq, Structural)]
pub struct ReadError {
    pub kind: ErrorKind,
}

impl ReadError {
    /// The kind of the failure.
    pub fn kind(&self) -> (r: ErrorKind)
        ensures
            r == self.kind,
    {
        self.kind
    }
}

/// The number of stream bytes that a read of `len` bits takes when `pending`
/// bits are buffered.
pub open spec fn bytes_needed(pending: nat, len: nat) -> nat {
    if len <= pending {
        0
    } else if len - pending <= 8 {
        1
    } else {
        2
    }
}

/// Reads bits from a byte stream; keeps at most seven bits of the current byte.
pub struct BitReader<'a> {
    stream: &'a [u8],
    bits_left_: u8,
    buf_: u16,
}

impl<'a> BitReader<'a> {
    /// The buffered bits of the current byte that were not read yet.
    pub closed spec fn pending(&self) -> Seq<bool> {
        low_bits(self.buf_ as u32, self.bits_left_ as nat)
    }

    /// The bytes of the underlying stream that were not touched yet.
    pub closed spec fn stream_bytes(&self) -> Seq<u8> {
        self.stream@
    }

    /// The stream itself.
    pub closed spec fn stream(&self) -> &'a [u8] {
        self.stream
    }

    /// All the bits that are still to be read.
    pub open spec fn bits(&self) -> Seq<bool> {
        self.pending() + stream_bits(self.stream_bytes())
    }

    /// Well-formedness: fewer than eight buffered bits, and no stray bit above them.
    pub closed spec fn wf(&self) -> bool {
        &&& self.bits_left_ <= 7
        &&& (self.buf_ as u32) < (1u32 << (self.bits_left_ as u32))
        &&& self.stream@ == self.stream@
    }

    pub proof fn lemma_wf(&self)
        requires
            self.wf(),
        ensures
            self.pending().len() <= 7,
            self.bits().len() == self.pending().len() + 8 * self.stream_bytes().len(),
    {
        lemma_stream_bits_len(self.stream_bytes());
    }

    /// A reader positioned at the first bit of `stream`.
    pub fn new(stream: &'a [u8]) -> (r: Self)
        ensures
            r.wf(),
            r.pending() == Seq::<bool>::empty(),
            r.stream_bytes() == stream@,
            r.stream() == stream,
    {
        let r = Self { stream: stream, bits_left_: 0, buf_: 0 };
        assert(r.pending() =~= Seq::<bool>::empty());
        assert((0u32) < (1u32 << 0u32)) by (bit_vector);
        r
    }

    /// The mask of the `len` lowest bits of a 16-bit word (`0` when `len` is
    /// zero or above sixteen).
    pub fn get_mask(&self, len: u8) -> (r: u16)
        ensures
            r as nat == if 1 <= len <= 16 { low_bits_mask(len as nat) } else { 0 },
    {
        proof {
            lemma2_to64();
        }
        match len {
            16 => 0b1111111111111111,
            15 => 0b0111111111111111,
            14 => 0b0011111111111111,
            13 => 0b0001111111111111,
            12 => 0b0000111111111111,
            11 => 0b0000011111111111,
            10 => 0b0000001111111111,
            9 => 0b0000000111111111,
            8 => 0b0000000011111111,
            7 => 0b0000000001111111,
            6 => 0b0000000000111111,
            5 => 0b0000000000011111,
            4 => 0b0000000000001111,
            3 => 0b0000000000000111,
            2 => 0b0000000000000011,
            1 => 0b0000000000000001,
            _ => 0x0,
        }
    }

    fn next_byte(&mut self) -> (r: Option<u8>)
        ensures
            old(self).stream@.len() == 0 ==> r is None && *final(self) == *old(self),
            old(self).stream@.len() > 0 ==> r == Some(old(self).stream@[0]) && final(self).stream@
                == old(self).stream@.drop_first() && final(self).bits_left_ == old(
                self,
            ).bits_left_ && final(self).buf_ == old(self).buf_,
    {
        if self.stream.len() == 0 {
            None
        } else {
            let b = self.stream[0];
            self.stream = vstd::slice::slice_subrange(self.stream, 1, self.stream.len());
            assert(self.stream@ =~= old(self).stream@.drop_first());
            Some(b)
        }
    }

    /// Takes the `len` low bits of the window `w` (which holds `total` valid
    /// bits) and keeps the rest buffered.
    fn take_from_window(&mut self, w: u32, total: u8, len: u8) -> (r: u16)
        requires
            1 <= len <= 16,
            len <= total <= 23,
            total - len <= 7,
            w < (1u32 << (total as u32)),
        ensures
            r as nat == w as nat % pow2(len as nat),
            final(self).stream == old(self).stream,
            final(self).bits_left_ == total - len,
            final(self).buf_ as u32 == w >> (len as u32),
            final(self).wf(),
            final(self).pending() == low_bits(w, total as nat).skip(len as int),
    {
        let mask = self.get_mask(len) as u32;
        let r = w & mask;
        proof {
            lemma_u32_low_bits_mask_is_mod(w, len as nat);
            lemma2_to64();
            assert(r < 0x10000) by (bit_vector)
                requires
                    r == w & mask,
                    mask <= 0xffff,
            ;
        }
        let rest = w >> (len as u32);
        proof {
            let t = total as u32;
            let l = len as u32;
            let d = (total - len) as u32;
            assert(rest < (1u32 << d)) by (bit_vector)
                requires
                    rest == w >> l,
                    w < (1u32 << t),
                    l <= t,
                    d == t - l,
                    t <= 23,
            ;
            assert((1u32 << d) <= 128) by (bit_vector)
                requires
                    d <= 7,
            ;
        }
        self.buf_ = rest as u16;
        self.bits_left_ = total - len;
        proof {
            let t = total as u32;
            let l = len as u32;
            assert forall|i: int| 0 <= i < total - len implies #[trigger] low_bits(
                self.buf_ as u32,
                (total - len) as nat,
            )[i] == low_bits(w, total as nat).skip(len as int)[i] by {
                let iu = i as u32;
                assert(((rest >> iu) & 1u32) == ((w >> (iu + l)) & 1u32)) by (bit_vector)
                    requires
                        rest == w >> l,
                        iu + l < 32,
                ;
            }
            assert(self.pending() =~= low_bits(w, total as nat).skip(len as int));
        }
        r as u16
    }

    /// Reads the next `len` bits; the first bit read is the least significant
    /// bit of the result. Fails with `UnexpectedEof` when fewer than `len`
    /// bits are left.
    pub fn read_bits(&mut self, len: u8) -> (res: Result<BitSequence, ReadError>)
        requires
            old(self).wf(),
            len <= 16,
        ensures
            final(self).wf(),
            final(self).stream()@ == final(self).stream_bytes(),
            res is Ok <==> len <= old(self).bits().len(),
            match res {
                Ok(seq) => {
                    &&& seq.len == len
                    &&& seq.bits as nat == bits_value(old(self).bits().take(len as int))
                    &&& final(self).bits() == old(self).bits().skip(len as int)
                    &&& final(self).pending().len() == (old(self).pending().len() - len) % 8
                    &&& final(self).stream_bytes() == old(self).stream_bytes().skip(
                        bytes_needed(old(self).pending().len(), len as nat) as int,
                    )
                },
                Err(e) => {
                    &&& e.kind == ErrorKind::UnexpectedEof
                    &&& if len - old(self).pending().len() > 8 && old(
                        self,
                    ).stream_bytes().len() == 1 {
                        &&& final(self).pending() == old(self).pending()
                        &&& final(self).stream_bytes() == old(self).stream_bytes().skip(1)
                    } else {
                        *final(self) == *old(self)
                    }
                },
            },
    {
        proof {
            self.lemma_wf();
            lemma_stream_bits_len(self.stream@);
        }
        let ghost v = old(self).bits();
        let ghost p = old(self).pending();
        let ghost s = old(self).stream@;
        if len == 0 {
            proof {
                assert(s.skip(0) =~= s);
                assert(v.skip(0) =~= v);
                assert(v.take(0) =~= Seq::<bool>::empty());
            }
            proof {
                lemma2_to64();
            }
            return Ok(BitSequence::new(0, 0));
        }
        let bl = self.bits_left_;
        let buf = self.buf_ as u32;
        if bl >= len {
            proof {
                assert(buf < (1u32 << (bl as u32)));
                assert((1u32 << (bl as u32)) <= 128) by (bit_vector)
                    requires
                        bl <= 7,
                ;
            }
            let r = self.take_from_window(buf, bl, len);
            proof {
                lemma_low_bits_value(buf, len as nat);
                lemma_window(v, buf, bl as nat, stream_bits(s), len as nat);
                assert(s.skip(0) =~= s);
                assert(self.bits() =~= v.skip(len as int));
            }
            proof {
                lemma_pow2_pos(len as nat);
                lemma_small_value(r, len);
            }
            return Ok(BitSequence::new(r, len));
        }
        let need = len - bl;
        if need <= 8 {
            let b0 = match self.next_byte() {
                Some(b) => b,
                None => {
                    return Err(ReadError { kind: ErrorKind::UnexpectedEof });
                },
            };
            let w: u32 = buf | ((b0 as u32) << (bl as u32));
            let total = bl + 8;
            proof {
                let blu = bl as u32;
                let b0u = b0 as u32;
                assert(w < (1u32 << (blu + 8))) by (bit_vector)
                    requires
                        w == buf | (b0u << blu),
                        buf < (1u32 << blu),
                        b0u < 256,
                        blu <= 7,
                ;
                assert forall|i: int| 0 <= i < total implies #[trigger] low_bits(
                    w,
                    total as nat,
                )[i] == (p + byte_bits(b0))[i] by {
                    let iu = i as u32;
                    if i < bl {
                        assert(((w >> iu) & 1u32) == ((buf >> iu) & 1u32)) by (bit_vector)
                            requires
                                w == buf | (b0u << blu),
                                buf < (1u32 << blu),
                                b0u < 256,
                                blu <= 7,
                                iu < blu,
                        ;
                    } else {
                        let j = (i - bl) as u32;
                        assert(((w >> iu) & 1u32) == ((b0u >> j) & 1u32)) by (bit_vector)
                            requires
                                j == iu - blu,
                                w == buf | (b0u << blu),
                                buf < (1u32 << blu),
                                b0u < 256,
                                blu <= 7,
                                blu <= iu,
                                iu < blu + 8,
                        ;
                    }
                }
                assert(low_bits(w, total as nat) =~= p + byte_bits(b0));
                lemma_stream_bits_split(s, 1);
                lemma_stream_bits_prefix(s, 1);
                assert(s.skip(1) =~= s.drop_first());
                assert(v =~= low_bits(w, total as nat) + stream_bits(s.skip(1)));
            }
            let r = self.take_from_window(w, total, len);
            proof {
                lemma_low_bits_value(w, len as nat);
                lemma_window(v, w, total as nat, stream_bits(s.skip(1)), len as nat);
                assert(self.bits() =~= v.skip(len as int));
            }
            proof {
                lemma_pow2_pos(len as nat);
                lemma_small_value(r, len);
            }
            return Ok(BitSequence::new(r, len));
        }
        let b0 = match self.next_byte() {
            Some(b) => b,
            None => {
                return Err(ReadError { kind: ErrorKind::UnexpectedEof });
            },
        };
        let b1 = match self.next_byte() {
            Some(b) => b,
            None => {
                return Err(ReadError { kind: ErrorKind::UnexpectedEof });
            },
        };
        let w: u32 = buf | ((b0 as u32) << (bl as u32)) | ((b1 as u32) << ((bl + 8) as u32));
        let total = bl + 16;
        proof {
            let blu = bl as u32;
            let b0u = b0 as u32;
            let b1u = b1 as u32;
            assert(w < (1u32 << (blu + 16))) by (bit_vector)
                requires
                    w == buf | (b0u << blu) | (b1u << (blu + 8)),
                    buf < (1u32 << blu),
                    b0u < 256,
                    b1u < 256,
                    blu <= 7,
            ;
            assert forall|i: int| 0 <= i < total implies #[trigger] low_bits(w, total as nat)[i]
                == (p + byte_bits(b0) + byte_bits(b1))[i] by {
                let iu = i as u32;
                if i < bl {
                    assert(((w >> iu) & 1u32) == ((buf >> iu) & 1u32)) by (bit_vector)
                        requires
                            w == buf | (b0u << blu) | (b1u << (blu + 8)),
                            buf < (1u32 << blu),
                            b0u < 256,
                            b1u < 256,
                            blu <= 7,
                            iu < blu,
                    ;
                } else if i < bl + 8 {
                    let j = (i - bl) as u32;
                    assert(((w >> iu) & 1u32) == ((b0u >> j) & 1u32)) by (bit_vector)
                        requires
                            j == iu - blu,
                            w == buf | (b0u << blu) | (b1u << (blu + 8)),
                            buf < (1u32 << blu),
                            b0u < 256,
                            b1u < 256,
                            blu <= 7,
                            blu <= iu,
                            iu < blu + 8,
                    ;
                } else {
                    let j = (i - bl - 8) as u32;
                    assert(((w >> iu) & 1u32) == ((b1u >> j) & 1u32))
                        by (bit_vector)
                        requires
                            j == iu - blu - 8,
                            w == buf | (b0u << blu) | (b1u << (blu + 8)),
                            buf < (1u32 << blu),
                            b0u < 256,
                            b1u < 256,
                            blu <= 7,
                            blu + 8 <= iu,
                            iu < blu + 16,
                    ;
                }
            }
            assert(low_bits(w, total as nat) =~= p + byte_bits(b0) + byte_bits(b1));
            lemma_stream_bits_split(s, 2);
            lemma_stream_bits_prefix(s, 2);
            assert(self.stream@ =~= s.skip(2));
            assert(v =~= low_bits(w, total as nat) + stream_bits(s.skip(2)));
        }
        let r = self.take_from_window(w, total, len);
        proof {
            lemma_low_bits_value(w, len as nat);
            lemma_window(v, w, total as nat, stream_bits(s.skip(2)), len as nat);
            assert(self.bits() =~= v.skip(len as int));
        }
        proof {
            lemma_pow2_pos(len as nat);
            lemma_small_value(r, len);
        }
        Ok(BitSequence::new(r, len))
    }

    /// Discards the buffered bits of the current byte and hands out the
    /// underlying stream, positioned at the next byte boundary.
    pub fn borrow_reader_from_boundary(&mut self) -> (r: &mut &'a [u8])
        ensures
            *r == old(self).stream(),
            (*r)@ == old(self).stream_bytes(),
            final(self).wf(),
            final(self).pending() == Seq::<bool>::empty(),
            final(self).stream() == *final(r),
            final(self).stream_bytes() == final(r)@,
    {
        self.buf_ = 0;
        self.bits_left_ = 0;
        proof {
            assert((0u32) < (1u32 << 0u32)) by (bit_vector);
        }
        &mut self.stream
    }
}

} // verus!
