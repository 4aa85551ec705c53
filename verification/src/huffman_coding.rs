//! Canonical Huffman codes (RFC 1951, section 3.2.2) and the DEFLATE symbol alphabets.

use vstd::prelude::*;
use std::collections::HashMap;
use std::convert::TryFrom;
use vstd::std_specs::convert::TryFromSpec;
use vstd::std_specs::convert::TryFromSpecImpl;
use crate::bit_reader::{BitReader, BitSequence, ReadError, ErrorKind, bits_value, lemma_bits_value_bound};
use vstd::arithmetic::power2::{pow2, lemma2_to64, lemma_pow2_unfold, lemma_pow2_pos, lemma_pow2_strictly_increases};
use vstd::arithmetic::div_mod::{lemma_div_denominator, lemma_multiply_divide_le, lemma_div_is_ordered};

verus! {

broadcast use vstd::std_specs::hash::group_hash_axioms;

/// Failures while building or using a Huffman code.
#[derive(Clone, Copy, Debug, PartialEq, Eq, Structural)]
pub enum HuffmanError {
    /// The bit stream ended.
    Read(ReadError),
    /// A code word that the alphabet does not define.
    BadCodeWord(u16),
    /// No code of at most sixteen bits matched the input.
    SymbolNotFound,
    /// The code lengths do not describe a code that can be built.
    BadCodeLengths,
    /// A repeat code in a code length sequence points outside of it.
    BadRepeat,
}

/// The index of a symbol in an alphabet.
#[derive(Debug)]
pub struct HuffmanCodeWord(pub u16);

// ---------------------------------------------------------------------------
// Code length alphabet (RFC 1951, section 3.2.7)

#[derive(Clone, Copy, Debug, PartialEq, Eq, Structural)]
pub enum TreeCodeToken {
    Length(u8),
    CopyPrev,
    RepeatZero { base: u16, extra_bits: u8 },
}

/// The code length symbol with index `w`.
pub open spec fn tree_token_spec(w: u16) -> Result<TreeCodeToken, HuffmanError> {
    if w <= 15 {
        Ok(TreeCodeToken::Length(w as u8))
    } else if w == 16 {
        Ok(TreeCodeToken::CopyPrev)
    } else if w == 17 {
        Ok(TreeCodeToken::RepeatZero { base: 3, extra_bits: 3 })
    } else if w == 18 {
        Ok(TreeCodeToken::RepeatZero { base: 11, extra_bits: 7 })
    } else {
        Err(HuffmanError::BadCodeWord(w))
    }
}

/// The shortest run of zeros of code length symbol `w` (0 where `w` is no
/// zero run).
pub open spec fn zero_run_base(w: u16) -> int {
    match tree_token_spec(w) {
        Ok(TreeCodeToken::RepeatZero { base, extra_bits }) => base as int,
        _ => 0,
    }
}

/// The extra bits of code length symbol `w` (0 where `w` is no zero run).
pub open spec fn zero_run_extra(w: u16) -> nat {
    match tree_token_spec(w) {
        Ok(TreeCodeToken::RepeatZero { base, extra_bits }) => extra_bits as nat,
        _ => 0,
    }
}

/// The code length alphabet is RFC 1951's: symbols 0 to 15 are the lengths
/// themselves, 16 repeats the previous length, and the two zero runs follow
/// one another: 17 gives 3 to 10 zeros and 18 gives 11 to 138 zeros. There
/// are no other symbols.
pub proof fn law_tree_alphabet()
    ensures
        forall|w: u16| w <= 15 ==> #[trigger] tree_token_spec(w) == Ok::<TreeCodeToken, HuffmanError>(
            TreeCodeToken::Length(w as u8),
        ),
        tree_token_spec(16) == Ok::<TreeCodeToken, HuffmanError>(TreeCodeToken::CopyPrev),
        tree_token_spec(17) is Ok && tree_token_spec(17)->Ok_0 is RepeatZero,
        tree_token_spec(18) is Ok && tree_token_spec(18)->Ok_0 is RepeatZero,
        zero_run_base(17) == 3,
        zero_run_base(18) == zero_run_base(17) + pow2(zero_run_extra(17)),
        zero_run_base(18) + pow2(zero_run_extra(18)) - 1 == 138,
        forall|w: u16| w >= 19 ==> #[trigger] tree_token_spec(w) == Err::<TreeCodeToken, HuffmanError>(
            HuffmanError::BadCodeWord(w),
        ),
{
    lemma2_to64();
}

impl TryFrom<HuffmanCodeWord> for TreeCodeToken {
    type Error = HuffmanError;

    fn try_from(value: HuffmanCodeWord) -> (r: Result<Self, HuffmanError>)
        ensures
            r == tree_token_spec(value.0),
    {
        match value.0 {
            0..=15 => Ok(TreeCodeToken::Length(value.0 as u8)),
            16 => Ok(TreeCodeToken::CopyPrev),
            17 => Ok(TreeCodeToken::RepeatZero { base: 3, extra_bits: 3 }),
            18 => Ok(TreeCodeToken::RepeatZero { base: 11, extra_bits: 7 }),
            _ => Err(HuffmanError::BadCodeWord(value.0)),
        }
    }
}

impl TryFromSpecImpl<HuffmanCodeWord> for TreeCodeToken {
    open spec fn obeys_try_from_spec() -> bool {
        true
    }

    open spec fn try_from_spec(v: HuffmanCodeWord) -> Result<Self, HuffmanError> {
        tree_token_spec(v.0)
    }
}

// ---------------------------------------------------------------------------
// Literal/length alphabet (RFC 1951, section 3.2.5)

#[derive(Clone, Copy, Debug, PartialEq, Eq, Structural)]
pub enum LitLenToken {
    Literal(u8),
    EndOfBlock,
    Length { base: u16, extra_bits: u8 },
}

/// The literal/length symbol with index `w`.
pub open spec fn litlen_token_spec(w: u16) -> Result<LitLenToken, HuffmanError> {
    if w <= 255 {
        Ok(LitLenToken::Literal(w as u8))
    } else if w == 256 {
        Ok(LitLenToken::EndOfBlock)
    } else if w <= 264 {
        Ok(LitLenToken::Length { base: (w - 254) as u16, extra_bits: 0 })
    } else if w <= 268 {
        Ok(LitLenToken::Length { base: (11 + (w - 265) * 2) as u16, extra_bits: 1 })
    } else if w <= 272 {
        Ok(LitLenToken::Length { base: (19 + (w - 269) * 4) as u16, extra_bits: 2 })
    } else if w <= 276 {
        Ok(LitLenToken::Length { base: (35 + (w - 273) * 8) as u16, extra_bits: 3 })
    } else if w <= 280 {
        Ok(LitLenToken::Length { base: (67 + (w - 277) * 16) as u16, extra_bits: 4 })
    } else if w <= 284 {
        Ok(LitLenToken::Length { base: (131 + (w - 281) * 32) as u16, extra_bits: 5 })
    } else if w == 285 {
        Ok(LitLenToken::Length { base: 258, extra_bits: 0 })
    } else {
        Err(HuffmanError::BadCodeWord(w))
    }
}

impl TryFrom<HuffmanCodeWord> for LitLenToken {
    type Error = HuffmanError;

    fn try_from(value: HuffmanCodeWord) -> (r: Result<Self, HuffmanError>)
        ensures
            r == litlen_token_spec(value.0),
    {
        match value.0 {
            0..=255 => Ok(LitLenToken::Literal(value.0 as u8)),
            256 => Ok(LitLenToken::EndOfBlock),
            257..=264 => Ok(LitLenToken::Length { base: value.0 - 254, extra_bits: 0 }),
            265..=268 => Ok(LitLenToken::Length { base: 11 + (value.0 - 265) * 2, extra_bits: 1 }),
            269..=272 => Ok(LitLenToken::Length { base: 19 + (value.0 - 269) * 4, extra_bits: 2 }),
            273..=276 => Ok(LitLenToken::Length { base: 35 + (value.0 - 273) * 8, extra_bits: 3 }),
            277..=280 => Ok(
                LitLenToken::Length { base: 67 + (value.0 - 277) * 16, extra_bits: 4 },
            ),
            281..=284 => Ok(
                LitLenToken::Length { base: 131 + (value.0 - 281) * 32, extra_bits: 5 },
            ),
            285 => Ok(LitLenToken::Length { base: 258, extra_bits: 0 }),
            _ => Err(HuffmanError::BadCodeWord(value.0)),
        }
    }
}

impl TryFromSpecImpl<HuffmanCodeWord> for LitLenToken {
    open spec fn obeys_try_from_spec() -> bool {
        true
    }

    open spec fn try_from_spec(v: HuffmanCodeWord) -> Result<Self, HuffmanError> {
        litlen_token_spec(v.0)
    }
}

// ---------------------------------------------------------------------------
// Distance alphabet (RFC 1951, section 3.2.5)

#[derive(Clone, Copy, Debug, PartialEq, Eq, Structural)]
pub struct DistanceToken {
    pub base: u16,
    pub extra_bits: u8,
}

/// The distance symbol with index `w`: symbols `2k` and `2k + 1` (for `k >= 1`)
/// have `k - 1` extra bits.
pub open spec fn distance_token_spec(w: u16) -> Result<DistanceToken, HuffmanError> {
    if w <= 3 {
        Ok(DistanceToken { base: (w + 1) as u16, extra_bits: 0 })
    } else if w <= 5 {
        Ok(DistanceToken { base: (5 + (w - 4) * 2) as u16, extra_bits: 1 })
    } else if w <= 7 {
        Ok(DistanceToken { base: (9 + (w - 6) * 4) as u16, extra_bits: 2 })
    } else if w <= 9 {
        Ok(DistanceToken { base: (17 + (w - 8) * 8) as u16, extra_bits: 3 })
    } else if w <= 11 {
        Ok(DistanceToken { base: (33 + (w - 10) * 16) as u16, extra_bits: 4 })
    } else if w <= 13 {
        Ok(DistanceToken { base: (65 + (w - 12) * 32) as u16, extra_bits: 5 })
    } else if w <= 15 {
        Ok(DistanceToken { base: (129 + (w - 14) * 64) as u16, extra_bits: 6 })
    } else if w <= 17 {
        Ok(DistanceToken { base: (257 + (w - 16) * 128) as u16, extra_bits: 7 })
    } else if w <= 19 {
        Ok(DistanceToken { base: (513 + (w - 18) * 256) as u16, extra_bits: 8 })
    } else if w <= 21 {
        Ok(DistanceToken { base: (1025 + (w - 20) * 512) as u16, extra_bits: 9 })
    } else if w <= 23 {
        Ok(DistanceToken { base: (2049 + (w - 22) * 1024) as u16, extra_bits: 10 })
    } else if w <= 25 {
        Ok(DistanceToken { base: (4097 + (w - 24) * 2048) as u16, extra_bits: 11 })
    } else if w <= 27 {
        Ok(DistanceToken { base: (8193 + (w - 26) * 4096) as u16, extra_bits: 12 })
    } else if w <= 29 {
        Ok(DistanceToken { base: (16385 + (w - 28) * 8192) as u16, extra_bits: 13 })
    } else {
        Err(HuffmanError::BadCodeWord(w))
    }
}

impl TryFrom<HuffmanCodeWord> for DistanceToken {
    type Error = HuffmanError;

    fn try_from(value: HuffmanCodeWord) -> (r: Result<Self, HuffmanError>)
        ensures
            r == distance_token_spec(value.0),
    {
        match value.0 {
            0..=3 => Ok(DistanceToken { base: value.0 + 1, extra_bits: 0 }),
            4..=5 => Ok(DistanceToken { base: 5 + (value.0 - 4) * 2, extra_bits: 1 }),
            6..=7 => Ok(DistanceToken { base: 9 + (value.0 - 6) * 4, extra_bits: 2 }),
            8..=9 => Ok(DistanceToken { base: 17 + (value.0 - 8) * 8, extra_bits: 3 }),
            10..=11 => Ok(DistanceToken { base: 33 + (value.0 - 10) * 16, extra_bits: 4 }),
            12..=13 => Ok(DistanceToken { base: 65 + (value.0 - 12) * 32, extra_bits: 5 }),
            14..=15 => Ok(DistanceToken { base: 129 + (value.0 - 14) * 64, extra_bits: 6 }),
            16..=17 => Ok(DistanceToken { base: 257 + (value.0 - 16) * 128, extra_bits: 7 }),
            18..=19 => Ok(DistanceToken { base: 513 + (value.0 - 18) * 256, extra_bits: 8 }),
            20..=21 => Ok(DistanceToken { base: 1025 + (value.0 - 20) * 512, extra_bits: 9 }),
            22..=23 => Ok(DistanceToken { base: 2049 + (value.0 - 22) * 1024, extra_bits: 10 }),
            24..=25 => Ok(DistanceToken { base: 4097 + (value.0 - 24) * 2048, extra_bits: 11 }),
            26..=27 => Ok(DistanceToken { base: 8193 + (value.0 - 26) * 4096, extra_bits: 12 }),
            28..=29 => Ok(DistanceToken { base: 16385 + (value.0 - 28) * 8192, extra_bits: 13 }),
            _ => Err(HuffmanError::BadCodeWord(value.0)),
        }
    }
}

impl TryFromSpecImpl<HuffmanCodeWord> for DistanceToken {
    open spec fn obeys_try_from_spec() -> bool {
        true
    }

    open spec fn try_from_spec(v: HuffmanCodeWord) -> Result<Self, HuffmanError> {
        distance_token_spec(v.0)
    }
}


/// The extra bits of distance symbol `w` (RFC 1951, section 3.2.5).
pub open spec fn distance_extra(w: u16) -> u8 {
    match distance_token_spec(w) {
        Ok(t) => t.extra_bits,
        Err(_) => 0,
    }
}

/// The smallest distance of distance symbol `w`.
pub open spec fn distance_base(w: u16) -> int {
    match distance_token_spec(w) {
        Ok(t) => t.base as int,
        Err(_) => 0,
    }
}

/// The distance alphabet is RFC 1951's: symbols 0 to 29 exist, the first
/// four stand for distances 1 to 4 with no extra bits, symbol `w >= 4` has
/// `w / 2 - 1` extra bits, and each symbol's distances start where the
/// previous symbol's range ends, so that the ranges cover 1 to 32768 with no
/// gap or overlap.
pub proof fn law_distance_table()
    ensures
        forall|w: u16| w < 30 ==> (#[trigger] distance_token_spec(w)) is Ok,
        forall|w: u16| w >= 30 ==> #[trigger] distance_token_spec(w) == Err::<DistanceToken, HuffmanError>(
            HuffmanError::BadCodeWord(w),
        ),
        distance_base(0) == 1,
        forall|w: u16| w < 4 ==> #[trigger] distance_extra(w) == 0,
        forall|w: u16| 4 <= w < 30 ==> #[trigger] distance_extra(w) == w / 2 - 1,
        forall|w: u16|
            w < 29 ==> #[trigger] distance_base((w + 1) as u16) == distance_base(w) + pow2(
                distance_extra(w) as nat,
            ),
        distance_base(29) + pow2(distance_extra(29) as nat) == 32769,
{
    lemma2_to64();
    assert forall|w: u16|
        w < 29 implies #[trigger] distance_base((w + 1) as u16) == distance_base(w) + pow2(
            distance_extra(w) as nat,
        ) by {
        lemma2_to64();
    }
}

/// The extra bits of literal/length symbol `w`, for a length.
pub open spec fn length_extra(w: u16) -> u8 {
    match litlen_token_spec(w) {
        Ok(LitLenToken::Length { base, extra_bits }) => extra_bits,
        _ => 0,
    }
}

/// The smallest length of literal/length symbol `w`, for a length.
pub open spec fn length_base(w: u16) -> int {
    match litlen_token_spec(w) {
        Ok(LitLenToken::Length { base, extra_bits }) => base as int,
        _ => 0,
    }
}

/// The literal/length alphabet is RFC 1951's (section 3.2.5): symbols below
/// 256 are the literal bytes, 256 ends the block, 257 to 285 are lengths;
/// lengths start at 3, symbol `w` in 265..=284 has `(w - 261) / 4` extra
/// bits, each length range starts where the previous one ends, the ranges of
/// 257 to 284 cover 3 to 258, and 285 stands for 258 alone. There are no
/// other symbols.
pub proof fn law_litlen_table()
    ensures
        forall|w: u16| w < 256 ==> #[trigger] litlen_token_spec(w) == Ok::<LitLenToken, HuffmanError>(
            LitLenToken::Literal(w as u8),
        ),
        litlen_token_spec(256) == Ok::<LitLenToken, HuffmanError>(LitLenToken::EndOfBlock),
        forall|w: u16| 257 <= w <= 285 ==> (#[trigger] litlen_token_spec(w)) is Ok && litlen_token_spec(
            w,
        )->Ok_0 is Length,
        forall|w: u16| w >= 286 ==> #[trigger] litlen_token_spec(w) == Err::<LitLenToken, HuffmanError>(
            HuffmanError::BadCodeWord(w),
        ),
        length_base(257) == 3,
        forall|w: u16| 257 <= w < 265 ==> #[trigger] length_extra(w) == 0,
        forall|w: u16| 265 <= w <= 284 ==> #[trigger] length_extra(w) == (w - 261) / 4,
        forall|w: u16|
            257 <= w < 284 ==> #[trigger] length_base((w + 1) as u16) == length_base(w) + pow2(
                length_extra(w) as nat,
            ),
        length_base(284) + pow2(length_extra(284) as nat) == 259,
        length_base(285) == 258 && length_extra(285) == 0,
{
    lemma2_to64();
    assert forall|w: u16|
        257 <= w < 284 implies #[trigger] length_base((w + 1) as u16) == length_base(w) + pow2(
            length_extra(w) as nat,
        ) by {
        lemma2_to64();
    }
}

// ---------------------------------------------------------------------------
// Canonical codes

/// The number of the first `k` lengths that equal `l`.
pub open spec fn count_in(lengths: Seq<u8>, l: int, k: int) -> nat
    decreases k,
{
    if k <= 0 {
        0
    } else {
        count_in(lengths, l, k - 1) + (if lengths[k - 1] == l { 1nat } else { 0nat })
    }
}

/// The number of codes of length `l` (a zero length counts too).
pub open spec fn count_len(lengths: Seq<u8>, l: int) -> nat {
    count_in(lengths, l, lengths.len() as int)
}

/// The number of codes of length `l`, where zero-length entries count for nothing.
pub open spec fn bl_count(lengths: Seq<u8>, l: int) -> nat {
    if l == 0 {
        0
    } else {
        count_len(lengths, l)
    }
}

/// The smallest code of length `b`, computed in 16 bits (RFC 1951, step 2).
pub open spec fn code_start(lengths: Seq<u8>, b: nat) -> int
    decreases b,
{
    if b == 0 {
        0
    } else {
        ((code_start(lengths, (b - 1) as nat) + bl_count(lengths, b - 1)) * 2) % 65536
    }
}

/// The code lengths can be turned into codes: every length indexes the
/// tables, and no 16-bit counter of the construction overflows.
pub open spec fn lengths_ok(lengths: Seq<u8>) -> bool {
    &&& lengths.len() < usize::MAX
    &&& forall|i: int| 0 <= i < lengths.len() ==> lengths[i] <= lengths.len()
    &&& forall|b: int|
        1 <= b <= lengths.len() ==> #[trigger] code_start(lengths, (b - 1) as nat) + bl_count(
            lengths,
            b - 1,
        ) <= 65535
    &&& forall|l: int|
        0 <= l <= lengths.len() ==> #[trigger] code_start(lengths, l as nat) + count_len(lengths, l)
            <= 65535
}

/// The code given to symbol `i` (RFC 1951, step 3).
pub open spec fn code_of(lengths: Seq<u8>, i: int) -> int {
    code_start(lengths, lengths[i] as nat) + count_in(lengths, lengths[i] as int, i)
}

/// The map key of a code with value `bits` and length `len`.
pub open spec fn code_key(bits: int, len: int) -> u32 {
    (len * 65536 + bits) as u32
}

/// The symbol with index `i` of the alphabet `T`.
pub open spec fn symbol_of<T: TryFrom<HuffmanCodeWord>>(i: int) -> T {
    match <T as TryFromSpec<HuffmanCodeWord>>::try_from_spec(HuffmanCodeWord(i as u16)) {
        Ok(t) => t,
        Err(_) => arbitrary(),
    }
}

/// The first `k` symbols of the alphabet exist.
pub open spec fn symbols_ok<T: TryFrom<HuffmanCodeWord>>(k: int) -> bool {
    forall|i: int|
        0 <= i < k ==> (#[trigger] <T as TryFromSpec<HuffmanCodeWord>>::try_from_spec(
            HuffmanCodeWord(i as u16),
        )) is Ok
}

/// The code table after the first `k` symbols were given their codes, later
/// symbols replacing earlier ones with the same code. A symbol of length 0
/// gets no code.
pub open spec fn canonical_map<T: TryFrom<HuffmanCodeWord>>(lengths: Seq<u8>, k: int) -> Map<
    u32,
    T,
>
    decreases k,
{
    if k <= 0 {
        Map::empty()
    } else if lengths[k - 1] == 0 {
        canonical_map::<T>(lengths, k - 1)
    } else {
        canonical_map::<T>(lengths, k - 1).insert(
            code_key(code_of(lengths, k - 1), lengths[k - 1] as int),
            symbol_of::<T>(k - 1),
        )
    }
}

/// The value of a code read most significant bit first.
pub open spec fn msb_value(s: Seq<bool>) -> nat
    decreases s.len(),
{
    if s.len() == 0 {
        0
    } else {
        2 * msb_value(s.drop_last()) + (if s.last() { 1nat } else { 0nat })
    }
}

/// The shortest prefix of `v`, of length at least `j` and at most 16, that
/// is a code of `m`.
pub open spec fn match_from<T>(m: Map<u32, T>, v: Seq<bool>, j: nat) -> Option<nat>
    decreases 17 - j,
{
    if j > 16 || j > v.len() {
        None
    } else if m.contains_key(code_key(msb_value(v.take(j as int)) as int, j as int)) {
        Some(j)
    } else {
        match_from(m, v, j + 1)
    }
}

/// A prefix code: the symbols by their codes, each code keyed by `code_key`.
pub struct HuffmanCoding<T> {
    map: HashMap<u32, T>,
}

impl<T> View for HuffmanCoding<T> {
    type V = Map<u32, T>;

    closed spec fn view(&self) -> Map<u32, T> {
        self.map@
    }
}

impl<T> HuffmanCoding<T> where T: Copy + TryFrom<HuffmanCodeWord, Error = HuffmanError> {
    /// A code with the given table, keyed by `code_key(bits, len)`.
    pub fn new(map: HashMap<u32, T>) -> (r: Self)
        ensures
            r@ == map@,
    {
        Self { map: map }
    }

    /// The symbol whose code is `seq`, if any.
    pub fn decode_symbol(&self, seq: BitSequence) -> (r: Option<T>)
        ensures
            r == (if self@.contains_key(code_key(seq.bits as int, seq.len as int)) {
                Some(self@[code_key(seq.bits as int, seq.len as int)])
            } else {
                None
            }),
    {
        let key: u32 = (seq.len as u32) * 65536 + (seq.bits as u32);
        match self.map.get(&key) {
            Some(v) => Some(*v),
            None => None,
        }
    }
}

impl<T> HuffmanCoding<T> where T: Copy + TryFrom<HuffmanCodeWord, Error = HuffmanError> {
    /// Builds the canonical code whose symbol `i` has code length
    /// `code_lengths[i]` (RFC 1951, section 3.2.2). Zero-length symbols get
    /// no code. Fails with `BadCodeLengths` when
    /// the lengths cannot be turned into codes, and with the alphabet's own
    /// error when a symbol index is not part of it.
    pub fn from_lengths(code_lengths: &[u8]) -> (r: Result<Self, HuffmanError>)
        ensures
            !lengths_ok(code_lengths@) ==> r == Err::<Self, HuffmanError>(
                HuffmanError::BadCodeLengths,
            ),
            lengths_ok(code_lengths@) && <T as TryFromSpec<HuffmanCodeWord>>::obeys_try_from_spec()
                ==> {
                &&& (r is Ok <==> symbols_ok::<T>(code_lengths@.len() as int))
                &&& r matches Ok(h) ==> h@ == canonical_map::<T>(
                    code_lengths@,
                    code_lengths@.len() as int,
                )
                &&& r matches Err(e) ==> exists|i: int|
                    0 <= i < code_lengths@.len() && symbols_ok::<T>(i) && (
                    #[trigger] <T as TryFromSpec<HuffmanCodeWord>>::try_from_spec(
                        HuffmanCodeWord(i as u16),
                    )) == Err::<T, HuffmanError>(e)
            },
    {
        let ghost ls = code_lengths@;
        let n = code_lengths.len();
        if n == usize::MAX {
            return Err(HuffmanError::BadCodeLengths);
        }
        // Every length must index the tables.
        let mut i: usize = 0;
        while i < n
            invariant
                n == ls.len(),
                ls == code_lengths@,
                i <= n,
                forall|j: int| 0 <= j < i ==> ls[j] <= n,
            decreases n - i,
        {
            if code_lengths[i] as usize > n {
                return Err(HuffmanError::BadCodeLengths);
            }
            i += 1;
        }
        // Step 1: count the codes of each length.
        let mut cnt: Vec<u64> = Vec::new();
        let mut l: usize = 0;
        while l <= n
            invariant
                n < usize::MAX,
                l <= n + 1,
                cnt@.len() == l,
                forall|j: int| 0 <= j < l ==> cnt@[j] == 0,
            decreases n + 1 - l,
        {
            cnt.push(0);
            l += 1;
        }
        let mut i: usize = 0;
        while i < n
            invariant
                n == ls.len(),
                ls == code_lengths@,
                n < usize::MAX,
                i <= n,
                cnt@.len() == n + 1,
                forall|j: int| 0 <= j < n ==> ls[j] <= n,
                forall|m: int| 0 <= m <= n ==> cnt@[m] == count_in(ls, m, i as int),
            decreases n - i,
        {
            let len = code_lengths[i] as usize;
            proof {
                assert(cnt@[len as int] == count_in(ls, len as int, i as int));
                assert(count_in(ls, len as int, i as int) <= i) by {
                    lemma_count_in_le(ls, len as int, i as int);
                }
            }
            cnt.set(len, cnt[len] + 1);
            i += 1;
            proof {
                assert forall|m: int| 0 <= m <= n implies cnt@[m] == count_in(ls, m, i as int) by {
                    assert(count_in(ls, m, i as int) == count_in(ls, m, i - 1) + (if ls[i - 1]
                        == m { 1nat } else { 0nat }));
                }
            }
        }
        // Step 2: the smallest code of each length.
        let mut next: Vec<u64> = Vec::new();
        next.push(0);
        let mut code: u64 = 0;
        let mut b: usize = 1;
        while b <= n
            invariant
                n == ls.len(),
                ls == code_lengths@,
                n < usize::MAX,
                1 <= b <= n + 1,
                cnt@.len() == n + 1,
                forall|m: int| 0 <= m <= n ==> cnt@[m] == count_len(ls, m),
                next@.len() == b,
                forall|m: int| 0 <= m < b ==> next@[m] == code_start(ls, m as nat),
                code == code_start(ls, (b - 1) as nat),
                0 <= code < 65536,
                forall|c: int|
                    1 <= c < b ==> #[trigger] code_start(ls, (c - 1) as nat) + bl_count(ls, c - 1)
                        <= 65535,
            decreases n + 1 - b,
        {
            let blc: u64 = if b - 1 == 0 {
                0
            } else {
                cnt[b - 1]
            };
            assert(blc == bl_count(ls, b - 1));
            if blc > 65535 || code + blc > 65535 {
                proof {
                    let bi = b as int;
                    assert(code_start(ls, (bi - 1) as nat) + bl_count(ls, bi - 1) > 65535);
                    assert(!lengths_ok(ls));
                }
                return Err(HuffmanError::BadCodeLengths);
            }
            code = ((code + blc) * 2) % 65536;
            next.push(code);
            b += 1;
        }
        assert forall|c: int|
            1 <= c <= ls.len() implies #[trigger] code_start(ls, (c - 1) as nat) + bl_count(ls, c - 1)
            <= 65535 by {}
        let mut l: usize = 0;
        while l <= n
            invariant
                n == ls.len(),
                ls == code_lengths@,
                n < usize::MAX,
                l <= n + 1,
                cnt@.len() == n + 1,
                next@.len() == n + 1,
                forall|m: int| 0 <= m <= n ==> cnt@[m] == count_len(ls, m),
                forall|m: int| 0 <= m <= n ==> next@[m] == code_start(ls, m as nat),
                forall|m: int|
                    0 <= m < l ==> #[trigger] code_start(ls, m as nat) + count_len(ls, m) <= 65535,
            decreases n + 1 - l,
        {
            if cnt[l] > 65535 || next[l] + cnt[l] > 65535 {
                proof {
                    let li = l as int;
                    assert(code_start(ls, li as nat) + count_len(ls, li) > 65535);
                    assert(!lengths_ok(ls));
                }
                return Err(HuffmanError::BadCodeLengths);
            }
            l += 1;
        }
        assert(lengths_ok(ls));
        // Step 3: give each symbol its code.
        let mut map: HashMap<u32, T> = HashMap::new();
        let mut e: usize = 0;
        while e < n
            invariant
                n == ls.len(),
                ls == code_lengths@,
                lengths_ok(ls),
                e <= n,
                next@.len() == n + 1,
                forall|m: int|
                    0 <= m <= n ==> next@[m] == code_start(ls, m as nat) + count_in(ls, m, e as int),
                <T as TryFromSpec<HuffmanCodeWord>>::obeys_try_from_spec() ==> map@
                    == canonical_map::<T>(ls, e as int),
                <T as TryFromSpec<HuffmanCodeWord>>::obeys_try_from_spec() ==> symbols_ok::<T>(
                    e as int,
                ),
            decreases n - e,
        {
            let len = code_lengths[e] as usize;
            proof {
                lemma_count_in_le_len(ls, len as int, e as int);
                assert(next@[len as int] == code_start(ls, len as nat) + count_in(ls, len as int, e as int));
                assert(count_in(ls, len as int, e as int) < count_len(ls, len as int)) by {
                    lemma_count_in_strict(ls, len as int, e as int);
                }
            }
            let c = next[len];
            next.set(len, c + 1);
            let sym = match T::try_from(HuffmanCodeWord(#[verifier::truncate] (e as u16))) {
                Ok(t) => t,
                Err(err) => {
                    proof {
                        if <T as TryFromSpec<HuffmanCodeWord>>::obeys_try_from_spec() {
                            let ei = e as int;
                            assert(symbols_ok::<T>(ei));
                            assert(<T as TryFromSpec<HuffmanCodeWord>>::try_from_spec(
                                HuffmanCodeWord(ei as u16),
                            ) == Err::<T, HuffmanError>(err));
                        }
                    }
                    return Err(err);
                },
            };
            let key: u32 = (len as u32) * 65536 + (c as u32);
            if len != 0 {
                map.insert(key, sym);
            }
            e += 1;
            proof {
                assert forall|m: int|
                    0 <= m <= n implies next@[m] == code_start(ls, m as nat) + count_in(
                    ls,
                    m,
                    e as int,
                ) by {
                    assert(count_in(ls, m, e as int) == count_in(ls, m, e - 1) + (if ls[e - 1] == m {
                        1nat
                    } else {
                        0nat
                    }));
                }
                if <T as TryFromSpec<HuffmanCodeWord>>::obeys_try_from_spec() {
                    assert forall|i: int| 0 <= i < e implies (#[trigger] <T as TryFromSpec<
                        HuffmanCodeWord,
                    >>::try_from_spec(HuffmanCodeWord(#[verifier::truncate] (i as u16)))) is Ok by {
                        if i < e - 1 {
                        }
                    }
                    assert(sym == symbol_of::<T>(e - 1));
                }
                assert(key == code_key(code_of(ls, e - 1), ls[e - 1] as int));
            }
        }
        Ok(Self { map: map })
    }
}

impl<T> HuffmanCoding<T> where T: Copy + TryFrom<HuffmanCodeWord, Error = HuffmanError> {
    /// Reads bits one at a time until they form a code of at most sixteen
    /// bits, and returns its symbol. Fails when the input ends first or when
    /// no code of sixteen bits or fewer matches.
    pub fn read_symbol(&self, bit_reader: &mut BitReader) -> (r: Result<T, HuffmanError>)
        requires
            old(bit_reader).wf(),
        ensures
            final(bit_reader).wf(),
            match match_from(self@, old(bit_reader).bits(), 1) {
                Some(j) => {
                    &&& r == Ok::<T, HuffmanError>(
                        self@[code_key(msb_value(old(bit_reader).bits().take(j as int)) as int, j as int)],
                    )
                    &&& final(bit_reader).bits() == old(bit_reader).bits().skip(j as int)
                    &&& final(bit_reader).pending().len() == (old(bit_reader).pending().len() - j) % 8
                },
                None => {
                    let v = old(bit_reader).bits();
                    let k = if v.len() < 16 { v.len() } else { 16 };
                    &&& final(bit_reader).bits() == v.skip(k as int)
                    &&& final(bit_reader).pending().len() == (old(bit_reader).pending().len() - k) % 8
                    &&& v.len() < 16 ==> r == Err::<T, HuffmanError>(
                        HuffmanError::Read(ReadError { kind: ErrorKind::UnexpectedEof }),
                    )
                    &&& v.len() >= 16 ==> r == Err::<T, HuffmanError>(HuffmanError::SymbolNotFound)
                },
            },
    {
        let ghost v = old(bit_reader).bits();
        let ghost p0 = old(bit_reader).pending().len();
        let ghost m = self@;
        let mut bits: BitSequence = BitSequence::new(0, 0);
        let mut t: u8 = 0;
        proof {
            old(bit_reader).lemma_wf();
            lemma2_to64();
            assert(v.take(0) =~= Seq::<bool>::empty());
            assert(v.skip(0) =~= v);
        }
        while t <= 15
            invariant
                m == self@,
                v == old(bit_reader).bits(),
                p0 == old(bit_reader).pending().len(),
                t <= 16,
                t <= v.len(),
                bit_reader.wf(),
                bit_reader.bits() == v.skip(t as int),
                bit_reader.pending().len() == (p0 - t) % 8,
                bits.len == t,
                bits.bits as nat == msb_value(v.take(t as int)),
                msb_value(v.take(t as int)) < pow2(t as nat),
                match_from(m, v, 1) == match_from(m, v, (t + 1) as nat),
            decreases 16 - t,
        {
            let iter_bits = match bit_reader.read_bits(1) {
                Ok(b) => b,
                Err(e) => {
                    proof {
                        assert(v.len() == t);
                        assert(match_from(m, v, (t + 1) as nat) == None::<nat>);
                        assert(e == ReadError { kind: ErrorKind::UnexpectedEof });
                    }
                    return Err(HuffmanError::Read(e));
                },
            };
            proof {
                let vt = v.skip(t as int);
                assert(vt.take(1) =~= seq![v[t as int]]);
                let one = vt.take(1);
                assert(one.drop_first() =~= Seq::<bool>::empty());
                assert(bits_value(one) == (if one[0] { 1nat } else { 0nat }) + 2 * bits_value(
                    one.drop_first(),
                ));
                assert(bits_value(Seq::<bool>::empty()) == 0);
                assert(bits_value(one) == (if v[t as int] { 1nat } else { 0nat }));
                let s1 = v.take(t + 1);
                assert(s1.drop_last() =~= v.take(t as int));
                assert(msb_value(s1) == 2 * msb_value(s1.drop_last()) + (if s1.last() { 1nat } else { 0nat }));
                let x = bits.bits;
                let y = iter_bits.bits;
                lemma2_to64();
                lemma_pow2_unfold((t + 1) as nat);
                assert(x < 0x8000);
                assert(((x << 1u8) | y) == 2 * x + y) by (bit_vector)
                    requires
                        x < 0x8000,
                        y <= 1,
                ;
                assert(v.skip(t as int).skip(1) =~= v.skip(t + 1));
                assert(((p0 - t) % 8 - 1) % 8 == (p0 - (t + 1)) % 8);
            }
            bits = bits.concat(iter_bits);
            t = t + 1;
            let key: u32 = (bits.len as u32) * 65536 + (bits.bits as u32);
            match self.map.get(&key) {
                Some(val) => {
                    proof {
                        assert(key == code_key(msb_value(v.take(t as int)) as int, t as int));
                        assert(match_from(m, v, t as nat) == Some(t as nat));
                    }
                    return Ok(*val);
                },
                None => {
                    proof {
                        assert(key == code_key(msb_value(v.take(t as int)) as int, t as int));
                    }
                },
            }
        }
        proof {
            assert(match_from(m, v, 17) == None::<nat>);
        }
        Err(HuffmanError::SymbolNotFound)
    }
}

// ---------------------------------------------------------------------------
// Dynamic block headers (RFC 1951, section 3.2.7)

/// The order in which the code length code lengths are stored.
pub open spec fn code_length_order() -> Seq<usize> {
    seq![16, 17, 18, 0, 8, 7, 9, 6, 10, 5, 11, 4, 12, 3, 13, 2, 14, 1, 15]
}

fn code_length_order_at(i: usize) -> (r: usize)
    requires
        i < 19,
    ensures
        r == code_length_order()[i as int],
        r < 19,
{
    match i {
        0 => 16,
        1 => 17,
        2 => 18,
        3 => 0,
        4 => 8,
        5 => 7,
        6 => 9,
        7 => 6,
        8 => 10,
        9 => 5,
        10 => 11,
        11 => 4,
        12 => 12,
        13 => 3,
        14 => 13,
        15 => 2,
        16 => 14,
        17 => 1,
        _ => 15,
    }
}

/// The code length code lengths after the first `k` of them were read from
/// `v` (three bits each, starting at bit 14).
pub open spec fn clen_fill(v: Seq<bool>, k: int) -> Seq<u8>
    decreases k,
{
    if k <= 0 {
        Seq::new(19, |j: int| 0u8)
    } else {
        clen_fill(v, k - 1).update(
            code_length_order()[k - 1] as int,
            bits_value(v.skip(14 + 3 * (k - 1)).take(3)) as u8,
        )
    }
}

/// `arr` with the `n` entries from index `i` set to `x`.
pub open spec fn fill_run(arr: Seq<u8>, i: int, n: int, x: u8) -> Seq<u8> {
    Seq::new(arr.len(), |k: int| if i <= k < i + n { x } else { arr[k] })
}

/// `n` zero code lengths.
pub open spec fn zero_lengths(n: nat) -> Seq<u8> {
    Seq::new(n, |k: int| 0u8)
}

pub open spec fn eof_error() -> HuffmanError {
    HuffmanError::Read(ReadError { kind: ErrorKind::UnexpectedEof })
}

/// The error of a symbol read that found no code in `v`.
pub open spec fn no_symbol_error(v: Seq<bool>) -> HuffmanError {
    if v.len() < 16 {
        eof_error()
    } else {
        HuffmanError::SymbolNotFound
    }
}

/// Decodes code lengths from `v` with the code length code `tree` until
/// `arr` is filled from index `i` on; gives the lengths and the unread bits.
pub open spec fn decode_lengths(tree: Map<u32, TreeCodeToken>, v: Seq<bool>, arr: Seq<u8>, i: int) -> Result<
    (Seq<u8>, Seq<bool>),
    HuffmanError,
>
    decreases v.len(),
{
    if i >= arr.len() {
        Ok((arr, v))
    } else {
        match match_from(tree, v, 1) {
            None => Err(no_symbol_error(v)),
            Some(j) => {
                if 1 <= j <= v.len() {
                    let w = v.skip(j as int);
                    match tree[code_key(msb_value(v.take(j as int)) as int, j as int)] {
                        TreeCodeToken::Length(x) => decode_lengths(tree, w, arr.update(i, x), i + 1),
                        TreeCodeToken::CopyPrev => {
                            if w.len() < 2 {
                                Err(eof_error())
                            } else {
                                let rep = bits_value(w.take(2)) + 3;
                                if i == 0 || i + rep > arr.len() {
                                    Err(HuffmanError::BadRepeat)
                                } else {
                                    decode_lengths(
                                        tree,
                                        w.skip(2),
                                        fill_run(arr, i, rep as int, arr[i - 1]),
                                        i + rep,
                                    )
                                }
                            }
                        },
                        TreeCodeToken::RepeatZero { base, extra_bits } => {
                            if w.len() < extra_bits {
                                Err(eof_error())
                            } else {
                                decode_lengths(
                                    tree,
                                    w.skip(extra_bits as int),
                                    arr,
                                    i + bits_value(w.take(extra_bits as int)) + base,
                                )
                            }
                        },
                    }
                } else {
                    Err(HuffmanError::SymbolNotFound)
                }
            },
        }
    }
}

/// The code length code built from the given code length code lengths.
pub open spec fn tree_build(lengths: Seq<u8>) -> Result<Map<u32, TreeCodeToken>, HuffmanError> {
    if !lengths_ok(lengths) {
        Err(HuffmanError::BadCodeLengths)
    } else {
        Ok(canonical_map::<TreeCodeToken>(lengths, lengths.len() as int))
    }
}

/// The literal/length code built from the given code lengths.
pub open spec fn litlen_build(lengths: Seq<u8>) -> Result<Map<u32, LitLenToken>, HuffmanError> {
    if !lengths_ok(lengths) {
        Err(HuffmanError::BadCodeLengths)
    } else if lengths.len() > 286 {
        Err(HuffmanError::BadCodeWord(286))
    } else {
        Ok(canonical_map::<LitLenToken>(lengths, lengths.len() as int))
    }
}

/// The distance code built from the given code lengths.
pub open spec fn distance_build(lengths: Seq<u8>) -> Result<Map<u32, DistanceToken>, HuffmanError> {
    if !lengths_ok(lengths) {
        Err(HuffmanError::BadCodeLengths)
    } else if lengths.len() > 30 {
        Err(HuffmanError::BadCodeWord(30))
    } else {
        Ok(canonical_map::<DistanceToken>(lengths, lengths.len() as int))
    }
}

/// The code lengths of a dynamic block header at the start of `v`: the
/// literal/length lengths, the distance lengths and the unread bits. The
/// two sets of lengths are decoded as one sequence, so a repeat may run from
/// one into the other (RFC 1951, section 3.2.7).
pub open spec fn decode_trees_spec(v: Seq<bool>) -> Result<(Seq<u8>, Seq<u8>, Seq<bool>), HuffmanError> {
    if v.len() < 14 {
        Err(eof_error())
    } else {
        let hlit = bits_value(v.take(5)) + 257;
        let hdist = bits_value(v.skip(5).take(5)) + 1;
        let hclen = bits_value(v.skip(10).take(4)) + 4;
        if v.len() < 14 + 3 * hclen {
            Err(eof_error())
        } else {
            match tree_build(clen_fill(v, hclen as int)) {
                Err(e) => Err(e),
                Ok(tree) => match decode_lengths(
                    tree,
                    v.skip((14 + 3 * hclen) as int),
                    zero_lengths(hlit + hdist),
                    0,
                ) {
                    Err(e) => Err(e),
                    Ok((all, rest)) => Ok((all.take(hlit as int), all.skip(hlit as int), rest)),
                },
            }
        }
    }
}

proof fn lemma_first_bad_litlen(i: int, e: HuffmanError)
    requires
        0 <= i < 65536,
        symbols_ok::<LitLenToken>(i),
        <LitLenToken as TryFromSpec<HuffmanCodeWord>>::try_from_spec(HuffmanCodeWord(i as u16))
            == Err::<LitLenToken, HuffmanError>(e),
    ensures
        i == 286,
        e == HuffmanError::BadCodeWord(286),
{
    if i > 286 {
        let k: int = 286;
        assert(<LitLenToken as TryFromSpec<HuffmanCodeWord>>::try_from_spec(
            HuffmanCodeWord(k as u16),
        ) is Ok);
    }
    assert((i as u16) == i);
}

proof fn lemma_first_bad_distance(i: int, e: HuffmanError)
    requires
        0 <= i < 65536,
        symbols_ok::<DistanceToken>(i),
        <DistanceToken as TryFromSpec<HuffmanCodeWord>>::try_from_spec(HuffmanCodeWord(i as u16))
            == Err::<DistanceToken, HuffmanError>(e),
    ensures
        i == 30,
        e == HuffmanError::BadCodeWord(30),
{
    if i > 30 {
        let k: int = 30;
        assert(<DistanceToken as TryFromSpec<HuffmanCodeWord>>::try_from_spec(
            HuffmanCodeWord(k as u16),
        ) is Ok);
    }
    assert((i as u16) == i);
}

proof fn lemma_clen_fill_len(v: Seq<bool>, k: int)
    requires
        k <= 19,
    ensures
        clen_fill(v, k).len() == 19,
    decreases k,
{
    if k > 0 {
        lemma_clen_fill_len(v, k - 1);
    }
}

pub proof fn lemma_match_from_range<T>(m: Map<u32, T>, v: Seq<bool>, k: nat)
    ensures
        match_from(m, v, k) matches Some(j) ==> k <= j <= 16 && j <= v.len() && m.contains_key(
            code_key(msb_value(v.take(j as int)) as int, j as int),
        ),
    decreases 17 - k,
{
    if k <= 16 && k <= v.len() && !m.contains_key(
        code_key(msb_value(v.take(k as int)) as int, k as int),
    ) {
        lemma_match_from_range(m, v, k + 1);
    }
}

pub proof fn lemma_canonical_values<T: TryFrom<HuffmanCodeWord>>(lengths: Seq<u8>, k: int, key: u32)
    requires
        canonical_map::<T>(lengths, k).contains_key(key),
    ensures
        exists|i: int| 0 <= i < k && canonical_map::<T>(lengths, k)[key] == symbol_of::<T>(i),
    decreases k,
{
    if k > 0 {
        let key0 = code_key(code_of(lengths, k - 1), lengths[k - 1] as int);
        if lengths[k - 1] == 0 || key != key0 {
            lemma_canonical_values::<T>(lengths, k - 1, key);
        } else {
            assert(canonical_map::<T>(lengths, k)[key] == symbol_of::<T>(k - 1));
        }
    }
}

/// Decoding code lengths never gives back more bits than it was handed.
pub proof fn lemma_decode_lengths_rest(
    tree: Map<u32, TreeCodeToken>,
    v: Seq<bool>,
    arr: Seq<u8>,
    i: int,
)
    ensures
        decode_lengths(tree, v, arr, i) matches Ok((a, rest)) ==> rest.len() <= v.len(),
    decreases v.len(),
{
    if i < arr.len() {
        if let Some(j) = match_from(tree, v, 1) {
            if 1 <= j <= v.len() {
                let w = v.skip(j as int);
                match tree[code_key(msb_value(v.take(j as int)) as int, j as int)] {
                    TreeCodeToken::Length(x) => {
                        lemma_decode_lengths_rest(tree, w, arr.update(i, x), i + 1);
                    },
                    TreeCodeToken::CopyPrev => {
                        if w.len() >= 2 {
                            let rep = bits_value(w.take(2)) + 3;
                            if !(i == 0 || i + rep > arr.len()) {
                                lemma_decode_lengths_rest(
                                    tree,
                                    w.skip(2),
                                    fill_run(arr, i, rep as int, arr[i - 1]),
                                    i + rep,
                                );
                            }
                        }
                    },
                    TreeCodeToken::RepeatZero { base, extra_bits } => {
                        if w.len() >= extra_bits {
                            lemma_decode_lengths_rest(
                                tree,
                                w.skip(extra_bits as int),
                                arr,
                                i + bits_value(w.take(extra_bits as int)) + base,
                            );
                        }
                    },
                }
            }
        }
    }
}

/// Decoding a dynamic block header never gives back more bits than it was handed.
pub proof fn lemma_decode_trees_rest(v: Seq<bool>)
    ensures
        decode_trees_spec(v) matches Ok((lit, dist, rest)) ==> rest.len() <= v.len(),
{
    if v.len() >= 14 {
        let hlit = bits_value(v.take(5)) + 257;
        let hdist = bits_value(v.skip(5).take(5)) + 1;
        let hclen = bits_value(v.skip(10).take(4)) + 4;
        if v.len() >= 14 + 3 * hclen {
            if let Ok(tree) = tree_build(clen_fill(v, hclen as int)) {
                let v1 = v.skip((14 + 3 * hclen) as int);
                lemma_decode_lengths_rest(tree, v1, zero_lengths(hlit + hdist), 0);
            }
        }
    }
}

/// Decodes code lengths with `tree` into `arr` from index 0 on.
fn read_code_lengths(
    tree: &HuffmanCoding<TreeCodeToken>,
    bit_reader: &mut BitReader,
    arr: &mut Vec<u8>,
) -> (r: Result<(), HuffmanError>)
    requires
        old(bit_reader).wf(),
        forall|key: u32|
            #![trigger tree@[key]]
            tree@.contains_key(key) ==> match tree@[key] {
                TreeCodeToken::RepeatZero { base, extra_bits } => extra_bits <= 16,
                _ => true,
            },
    ensures
        final(bit_reader).wf(),
        final(arr)@.len() == old(arr)@.len(),
        match decode_lengths(tree@, old(bit_reader).bits(), old(arr)@, 0) {
            Ok((lens, rest)) => r is Ok && final(arr)@ == lens && final(bit_reader).bits() == rest,
            Err(e) => r == Err::<(), HuffmanError>(e),
        },
{
    let ghost goal = decode_lengths(tree@, old(bit_reader).bits(), old(arr)@, 0);
    let n = arr.len();
    let mut i: usize = 0;
    while i < n
        invariant
            bit_reader.wf(),
            arr@.len() == n,
            n == old(arr)@.len(),
            goal == decode_lengths(tree@, old(bit_reader).bits(), old(arr)@, 0),
            goal == decode_lengths(tree@, bit_reader.bits(), arr@, i as int),
            forall|key: u32|
                #![trigger tree@[key]]
                tree@.contains_key(key) ==> match tree@[key] {
                    TreeCodeToken::RepeatZero { base, extra_bits } => extra_bits <= 16,
                    _ => true,
                },
        decreases bit_reader.bits().len(),
    {
        let ghost v = bit_reader.bits();
        let ghost a = arr@;
        proof {
            lemma_match_from_range(tree@, v, 1);
        }
        let tok = match tree.read_symbol(bit_reader) {
            Ok(t) => t,
            Err(e) => {
                return Err(e);
            },
        };
        let ghost j = match_from(tree@, v, 1)->Some_0;
        let ghost w = v.skip(j as int);
        assert(tok == tree@[code_key(msb_value(v.take(j as int)) as int, j as int)]);
        assert(bit_reader.bits() == w);
        match tok {
            TreeCodeToken::Length(x) => {
                arr.set(i, x);
                i += 1;
                assert(goal == decode_lengths(tree@, w, a.update(i - 1, x), i as int));
            },
            TreeCodeToken::CopyPrev => {
                let rb = match bit_reader.read_bits(2) {
                    Ok(b) => b,
                    Err(e) => {
                        return Err(HuffmanError::Read(e));
                    },
                };
                let repeat_len = rb.bits() as usize + 3;
                if i == 0 || repeat_len > n - i {
                    return Err(HuffmanError::BadRepeat);
                }
                let prev = arr[i - 1];
                let mut it = i;
                while it < i + repeat_len
                    invariant
                        1 <= i <= it <= i + repeat_len <= n,
                        arr@.len() == n,
                        prev == a[i - 1],
                        arr@ == Seq::new(
                            n as nat,
                            |k: int| if i <= k < it { prev } else { a[k] },
                        ),
                    decreases i + repeat_len - it,
                {
                    arr.set(it, prev);
                    it += 1;
                    proof {
                        assert(arr@ =~= Seq::new(
                            n as nat,
                            |k: int| if i <= k < it { prev } else { a[k] },
                        ));
                    }
                }
                proof {
                    assert(arr@ =~= fill_run(a, i as int, repeat_len as int, a[i - 1]));
                    assert(w.skip(2) =~= bit_reader.bits());
                }
                i += repeat_len;
            },
            TreeCodeToken::RepeatZero { base, extra_bits } => {
                let rb = match bit_reader.read_bits(extra_bits) {
                    Ok(b) => b,
                    Err(e) => {
                        return Err(HuffmanError::Read(e));
                    },
                };
                let repeat_len = rb.bits() as usize + base as usize;
                let ghost i0 = i;
                proof {
                    assert(goal == decode_lengths(
                        tree@,
                        w.skip(extra_bits as int),
                        a,
                        i0 + bits_value(w.take(extra_bits as int)) + base,
                    ));
                }
                if repeat_len >= n - i {
                    i = n;
                    proof {
                        assert(decode_lengths(tree@, bit_reader.bits(), a, i0 + repeat_len) == Ok::<
                            (Seq<u8>, Seq<bool>),
                            HuffmanError,
                        >((a, bit_reader.bits())));
                    }
                } else {
                    i += repeat_len;
                }
            },
        }
    }
    Ok(())
}

/// Reads the code lengths of a dynamic block (RFC 1951, section 3.2.7) and
/// builds the literal/length and the distance codes. The two sets of code
/// lengths are read as one sequence; a repeat code that starts it or runs
/// past its end fails with `BadRepeat`; code
/// lengths that give no code fail as `from_lengths` does.
pub fn decode_litlen_distance_trees(bit_reader: &mut BitReader) -> (r: Result<
    (HuffmanCoding<LitLenToken>, HuffmanCoding<DistanceToken>),
    HuffmanError,
>)
    requires
        old(bit_reader).wf(),
    ensures
        final(bit_reader).wf(),
        match decode_trees_spec(old(bit_reader).bits()) {
            Err(e) => r == Err::<(HuffmanCoding<LitLenToken>, HuffmanCoding<DistanceToken>), HuffmanError>(e),
            Ok((lit, dist, rest)) => match (litlen_build(lit), distance_build(dist)) {
                (Err(e), _) => r == Err::<(HuffmanCoding<LitLenToken>, HuffmanCoding<DistanceToken>), HuffmanError>(e),
                (Ok(_), Err(e)) => r == Err::<(HuffmanCoding<LitLenToken>, HuffmanCoding<DistanceToken>), HuffmanError>(e),
                (Ok(m1), Ok(m2)) => r matches Ok((h1, h2)) && h1@ == m1 && h2@ == m2
                    && final(bit_reader).bits() == rest,
            },
        },
{
    let ghost v = old(bit_reader).bits();
    proof {
        old(bit_reader).lemma_wf();
        lemma_bits_value_bound(v.take(5));
        lemma_bits_value_bound(v.skip(5).take(5));
        lemma_bits_value_bound(v.skip(10).take(4));
        lemma2_to64();
    }
    let hlit = match bit_reader.read_bits(5) {
        Ok(b) => b.bits() as usize + 257,
        Err(e) => {
            return Err(HuffmanError::Read(e));
        },
    };
    let hdist = match bit_reader.read_bits(5) {
        Ok(b) => b.bits() as usize + 1,
        Err(e) => {
            return Err(HuffmanError::Read(e));
        },
    };
    let hclen = match bit_reader.read_bits(4) {
        Ok(b) => b.bits() as usize + 4,
        Err(e) => {
            return Err(HuffmanError::Read(e));
        },
    };
    proof {
        assert(v.skip(5).skip(5) =~= v.skip(10));
        assert(v.skip(10).skip(4) =~= v.skip(14));
        assert(hlit == bits_value(v.take(5)) + 257);
        assert(hdist == bits_value(v.skip(5).take(5)) + 1);
        assert(hclen == bits_value(v.skip(10).take(4)) + 4);
        assert(hlit <= 288 && hdist <= 32 && hclen <= 19);
        assert(bit_reader.bits() == v.skip(14));
    }
    let mut hclen_arr: Vec<u8> = zeros(19);
    let mut i: usize = 0;
    while i < hclen
        invariant
            hclen <= 19,
            i <= hclen,
            bit_reader.wf(),
            bit_reader.bits() == v.skip(14 + 3 * i),
            hclen_arr@ == clen_fill(v, i as int),
            v.len() >= 14,
            v == old(bit_reader).bits(),
            14 + 3 * i <= v.len(),
            hclen == bits_value(v.skip(10).take(4)) + 4,
        decreases hclen - i,
    {
        let ghost cur = bit_reader.bits();
        let b = match bit_reader.read_bits(3) {
            Ok(b) => b,
            Err(e) => {
                return Err(HuffmanError::Read(e));
            },
        };
        proof {
            lemma_bits_value_bound(cur.take(3));
            lemma2_to64();
            assert(cur =~= v.skip(14 + 3 * i));
            assert(cur.len() >= 3);
            assert(cur.skip(3) =~= v.skip(14 + 3 * i + 3));
            lemma_clen_fill_len(v, i as int);
        }
        let pos = code_length_order_at(i);
        hclen_arr.set(pos, b.bits() as u8);
        i += 1;
    }
    let codes_4_tree = match HuffmanCoding::<TreeCodeToken>::from_lengths(hclen_arr.as_slice()) {
        Ok(c) => c,
        Err(e) => {
            proof {
                let ls = hclen_arr@;
                lemma_clen_fill_len(v, hclen as int);
                if lengths_ok(ls) {
                    let i = choose|i: int|
                        0 <= i < ls.len() && symbols_ok::<TreeCodeToken>(i) && (
                        #[trigger] <TreeCodeToken as TryFromSpec<HuffmanCodeWord>>::try_from_spec(
                            HuffmanCodeWord(i as u16),
                        )) == Err::<TreeCodeToken, HuffmanError>(e);
                    assert(false);
                }
            }
            return Err(e);
        },
    };
    proof {
        let ls = hclen_arr@;
        lemma_clen_fill_len(v, hclen as int);
        assert(symbols_ok::<TreeCodeToken>(19));
        assert forall|key: u32|
            #![trigger codes_4_tree@[key]]
            codes_4_tree@.contains_key(key) implies match codes_4_tree@[key] {
                TreeCodeToken::RepeatZero { base, extra_bits } => extra_bits <= 16,
                _ => true,
            } by {
            lemma_canonical_values::<TreeCodeToken>(ls, 19, key);
        }
    }
    let mut all_arr: Vec<u8> = zeros(hlit + hdist);
    match read_code_lengths(&codes_4_tree, bit_reader, &mut all_arr) {
        Ok(()) => {},
        Err(e) => {
            return Err(e);
        },
    }
    let lit_len_arr = vstd::slice::slice_subrange(all_arr.as_slice(), 0, hlit);
    let dist_arr = vstd::slice::slice_subrange(all_arr.as_slice(), hlit, hlit + hdist);
    proof {
        assert(lit_len_arr@ =~= all_arr@.take(hlit as int));
        assert(dist_arr@ =~= all_arr@.skip(hlit as int));
    }
    let h1 = match HuffmanCoding::<LitLenToken>::from_lengths(lit_len_arr) {
        Ok(c) => c,
        Err(e) => {
            proof {
                let ls = lit_len_arr@;
                if lengths_ok(ls) {
                    let i = choose|i: int|
                        0 <= i < ls.len() && symbols_ok::<LitLenToken>(i) && (
                        #[trigger] <LitLenToken as TryFromSpec<HuffmanCodeWord>>::try_from_spec(
                            HuffmanCodeWord(i as u16),
                        )) == Err::<LitLenToken, HuffmanError>(e);
                    lemma_first_bad_litlen(i, e);
                }
            }
            return Err(e);
        },
    };
    let h2 = match HuffmanCoding::<DistanceToken>::from_lengths(dist_arr) {
        Ok(c) => c,
        Err(e) => {
            proof {
                let ls = dist_arr@;
                if lengths_ok(ls) {
                    let i = choose|i: int|
                        0 <= i < ls.len() && symbols_ok::<DistanceToken>(i) && (
                        #[trigger] <DistanceToken as TryFromSpec<HuffmanCodeWord>>::try_from_spec(
                            HuffmanCodeWord(i as u16),
                        )) == Err::<DistanceToken, HuffmanError>(e);
                    lemma_first_bad_distance(i, e);
                }
            }
            return Err(e);
        },
    };
    proof {
        if lit_len_arr@.len() > 286 {
            assert(<LitLenToken as TryFromSpec<HuffmanCodeWord>>::try_from_spec(
                HuffmanCodeWord(286u16)) is Err);
        }
        if dist_arr@.len() > 30 {
            assert(<DistanceToken as TryFromSpec<HuffmanCodeWord>>::try_from_spec(
                HuffmanCodeWord(30u16)) is Err);
        }
    }
    Ok((h1, h2))
}

fn zeros(n: usize) -> (r: Vec<u8>)
    ensures
        r@ == zero_lengths(n as nat),
{
    let mut r: Vec<u8> = Vec::new();
    let mut i: usize = 0;
    while i < n
        invariant
            i <= n,
            r@ == Seq::new(i as nat, |k: int| 0u8),
        decreases n - i,
    {
        r.push(0);
        i += 1;
        proof {
            assert(r@ =~= Seq::new(i as nat, |k: int| 0u8));
        }
    }
    assert(r@ =~= zero_lengths(n as nat));
    r
}

proof fn lemma_count_in_le(ls: Seq<u8>, l: int, k: int)
    ensures
        count_in(ls, l, k) <= if k < 0 { 0 } else { k },
    decreases k,
{
    if k > 0 {
        lemma_count_in_le(ls, l, k - 1);
    }
}

proof fn lemma_count_in_mono(ls: Seq<u8>, l: int, k1: int, k2: int)
    requires
        k1 <= k2,
    ensures
        count_in(ls, l, k1) <= count_in(ls, l, k2),
    decreases k2 - k1,
{
    if k1 < k2 {
        lemma_count_in_mono(ls, l, k1, k2 - 1);
    }
}

proof fn lemma_count_in_le_len(ls: Seq<u8>, l: int, k: int)
    requires
        0 <= k <= ls.len(),
    ensures
        count_in(ls, l, k) <= count_len(ls, l),
{
    lemma_count_in_mono(ls, l, k, ls.len() as int);
}

proof fn lemma_count_in_strict(ls: Seq<u8>, l: int, k: int)
    requires
        0 <= k < ls.len(),
        ls[k] == l,
    ensures
        count_in(ls, l, k) < count_len(ls, l),
{
    lemma_count_in_mono(ls, l, k + 1, ls.len() as int);
}

// ---------------------------------------------------------------------------
// Decoding a canonical code

/// No length has more codes than its bits can hold (RFC 1951's codes are
/// never over-subscribed): at each length from 1 to 15, the first code plus
/// the number of codes of that length is at most two to that length.
pub open spec fn not_oversubscribed(lengths: Seq<u8>) -> bool {
    forall|l: int|
        1 <= l <= 15 ==> #[trigger] code_start(lengths, l as nat) + count_len(lengths, l) <= pow2(
            l as nat,
        )
}

proof fn lemma_code_start_step(ls: Seq<u8>, l: int)
    requires
        not_oversubscribed(ls),
        1 <= l <= 15,
    ensures
        code_start(ls, l as nat) == 2 * (code_start(ls, (l - 1) as nat) + bl_count(ls, l - 1)),
        code_start(ls, l as nat) >= 0,
    decreases l,
{
    lemma2_to64();
    if l - 1 >= 1 {
        assert(code_start(ls, (l - 1) as nat) + count_len(ls, l - 1) <= pow2((l - 1) as nat));
        if l - 1 < 14 {
            lemma_pow2_strictly_increases((l - 1) as nat, 14);
        }
        if l - 1 >= 2 {
            assert(code_start(ls, (l - 2) as nat) + bl_count(ls, l - 2) >= 0) by {
                if l - 2 >= 1 {
                    lemma_code_start_step(ls, l - 1);
                }
            }
        }
        assert(code_start(ls, (l - 1) as nat) >= 0);
    }
}

proof fn lemma_code_start_growth(ls: Seq<u8>, j: int, l: int)
    requires
        not_oversubscribed(ls),
        0 <= j < l <= 15,
    ensures
        code_start(ls, l as nat) >= (code_start(ls, j as nat) + bl_count(ls, j)) * pow2((l - j) as nat),
    decreases l,
{
    lemma_code_start_step(ls, l);
    lemma_pow2_unfold((l - j) as nat);
    let a = code_start(ls, j as nat) + bl_count(ls, j);
    if j == l - 1 {
        lemma_pow2_unfold(1);
        assert(pow2(0) == 1) by {
            lemma2_to64();
        }
    } else {
        lemma_code_start_growth(ls, j, l - 1);
        let p = pow2((l - 1 - j) as nat) as int;
        let c1 = code_start(ls, (l - 1) as nat);
        let b1 = bl_count(ls, l - 1);
        assert(2 * (c1 + b1) >= a * (2 * p)) by (nonlinear_arith)
            requires
                c1 >= a * p,
                b1 >= 0,
        ;
    }
}

proof fn lemma_code_fits(ls: Seq<u8>, s: int)
    requires
        not_oversubscribed(ls),
        0 <= s < ls.len(),
        1 <= ls[s] <= 15,
    ensures
        code_start(ls, ls[s] as nat) <= code_of(ls, s) < code_start(ls, ls[s] as nat) + count_len(
            ls,
            ls[s] as int,
        ),
        code_of(ls, s) < pow2(ls[s] as nat),
        0 <= code_start(ls, ls[s] as nat),
{
    let l = ls[s] as int;
    lemma_code_start_step(ls, l);
    lemma_count_in_strict(ls, l, s);
    assert(code_start(ls, l as nat) + count_len(ls, l) <= pow2(l as nat));
}

proof fn lemma_code_key_inj(b1: int, l1: int, b2: int, l2: int)
    requires
        0 <= b1 < 65536,
        0 <= b2 < 65536,
        0 <= l1 <= 15,
        0 <= l2 <= 15,
        code_key(b1, l1) == code_key(b2, l2),
    ensures
        b1 == b2,
        l1 == l2,
{
    assert(0 <= l1 * 65536 + b1 < 16 * 65536) by (nonlinear_arith)
        requires
            0 <= b1 < 65536,
            0 <= l1 <= 15,
    ;
    assert(0 <= l2 * 65536 + b2 < 16 * 65536) by (nonlinear_arith)
        requires
            0 <= b2 < 65536,
            0 <= l2 <= 15,
    ;
    assert(l1 * 65536 + b1 == l2 * 65536 + b2);
    assert(b1 == b2 && l1 == l2) by (nonlinear_arith)
        requires
            0 <= b1 < 65536,
            0 <= b2 < 65536,
            l1 * 65536 + b1 == l2 * 65536 + b2,
    ;
}

proof fn lemma_canonical_contains<T: TryFrom<HuffmanCodeWord>>(ls: Seq<u8>, k: int, key: u32)
    requires
        0 <= k <= ls.len(),
        canonical_map::<T>(ls, k).contains_key(key),
    ensures
        exists|s: int|
            0 <= s < k && ls[s] != 0 && #[trigger] code_key(code_of(ls, s), ls[s] as int) == key,
    decreases k,
{
    if k > 0 {
        let key0 = code_key(code_of(ls, k - 1), ls[k - 1] as int);
        if ls[k - 1] == 0 || key != key0 {
            lemma_canonical_contains::<T>(ls, k - 1, key);
        }
    }
}

proof fn lemma_canonical_at<T: TryFrom<HuffmanCodeWord>>(ls: Seq<u8>, k: int, i: int)
    requires
        0 <= i < k <= ls.len(),
        ls[i] != 0,
        forall|s: int|
            i < s < k && ls[s] != 0 ==> #[trigger] code_key(code_of(ls, s), ls[s] as int) != code_key(
                code_of(ls, i),
                ls[i] as int,
            ),
    ensures
        canonical_map::<T>(ls, k).contains_key(code_key(code_of(ls, i), ls[i] as int)),
        canonical_map::<T>(ls, k)[code_key(code_of(ls, i), ls[i] as int)] == symbol_of::<T>(i),
    decreases k,
{
    if k - 1 > i {
        lemma_canonical_at::<T>(ls, k - 1, i);
        if ls[k - 1] != 0 {
            assert(code_key(code_of(ls, k - 1), ls[k - 1] as int) != code_key(code_of(ls, i), ls[i] as int));
        }
    }
}

proof fn lemma_msb_prefix(s: Seq<bool>, j: int)
    requires
        0 <= j <= s.len(),
    ensures
        msb_value(s.take(j)) == msb_value(s) / pow2((s.len() - j) as nat),
    decreases s.len(),
{
    lemma2_to64();
    if j == s.len() {
        assert(s.take(j) =~= s);
        assert(pow2((s.len() - j) as nat) == 1);
    } else {
        let d = s.drop_last();
        lemma_msb_prefix(d, j);
        assert(s.take(j) =~= d.take(j));
        let m = msb_value(d) as int;
        let b: int = if s.last() { 1 } else { 0 };
        assert(msb_value(s) == 2 * m + b);
        let p = pow2((d.len() - j) as nat) as int;
        lemma_pow2_pos((d.len() - j) as nat);
        lemma_pow2_unfold((s.len() - j) as nat);
        assert(pow2((s.len() - j) as nat) == 2 * p);
        lemma_div_denominator(2 * m + b, 2, p);
        assert((2 * m + b) / 2 == m);
        assert(msb_value(s.take(j)) == m / p);
        assert((2 * m + b) / (2 * p) == m / p);
        assert(msb_value(s) as int / (pow2((s.len() - j) as nat) as int) == m / p);
        assert(msb_value(s.take(j)) == msb_value(s) / pow2((s.len() - j) as nat));
    }
}

proof fn lemma_match_walk<T>(m: Map<u32, T>, v: Seq<bool>, j: nat, l: nat)
    requires
        1 <= j <= l <= 16,
        l <= v.len(),
        forall|t: nat|
            j <= t < l ==> !m.contains_key(#[trigger] code_key(msb_value(v.take(t as int)) as int, t as int)),
        m.contains_key(code_key(msb_value(v.take(l as int)) as int, l as int)),
    ensures
        match_from(m, v, j) == Some(l),
    decreases l - j,
{
    if j < l {
        assert(!m.contains_key(code_key(msb_value(v.take(j as int)) as int, j as int)));
        lemma_match_walk(m, v, j + 1, l);
    }
}

/// Reading a symbol's canonical code gives back that symbol. Where no code
/// is longer than 15 bits and the code is not over-subscribed, the codes are
/// prefix-free: on bits that begin with the code of symbol `i`, the shortest
/// code found at their start is that whole code, and it stands for symbol
/// `i`.
pub proof fn law_canonical_decode<T: TryFrom<HuffmanCodeWord>>(lengths: Seq<u8>, i: int, v: Seq<bool>)
    requires
        forall|k: int| 0 <= k < lengths.len() ==> lengths[k] <= 15,
        not_oversubscribed(lengths),
        0 <= i < lengths.len(),
        lengths[i] > 0,
        v.len() >= lengths[i],
        msb_value(v.take(lengths[i] as int)) == code_of(lengths, i),
    ensures
        ({
            let m = canonical_map::<T>(lengths, lengths.len() as int);
            &&& match_from(m, v, 1) == Some(lengths[i] as nat)
            &&& m[code_key(code_of(lengths, i), lengths[i] as int)] == symbol_of::<T>(i)
        }),
{
    let ls = lengths;
    let n = ls.len() as int;
    let li = ls[i] as int;
    let m = canonical_map::<T>(ls, n);
    lemma2_to64();
    lemma_code_fits(ls, i);
    if li < 15 {
        lemma_pow2_strictly_increases(li as nat, 15);
    }
    let ci = code_of(ls, i);
    let key_i = code_key(ci, li);
    assert forall|s: int| i < s < n && ls[s] != 0 implies #[trigger] code_key(code_of(ls, s), ls[s] as int)
        != key_i by {
        lemma_code_fits(ls, s);
        if ls[s] < 15 {
            lemma_pow2_strictly_increases(ls[s] as nat, 15);
        }
        if code_key(code_of(ls, s), ls[s] as int) == key_i {
            lemma_code_key_inj(code_of(ls, s), ls[s] as int, ci, li);
            lemma_count_in_mono(ls, li, i + 1, s);
        }
    }
    lemma_canonical_at::<T>(ls, n, i);
    let w = v.take(li);
    assert forall|t: nat| 1 <= t < li implies !m.contains_key(
        #[trigger] code_key(msb_value(v.take(t as int)) as int, t as int),
    ) by {
        let key = code_key(msb_value(v.take(t as int)) as int, t as int);
        assert(w.take(t as int) =~= v.take(t as int));
        lemma_msb_prefix(w, t as int);
        let p = pow2((li - t) as nat) as int;
        lemma_pow2_pos((li - t) as nat);
        let x = msb_value(v.take(t as int)) as int;
        assert(x == ci / p);
        lemma_div_is_ordered(ci, 65535, p);
        assert(65535int / p <= 65535) by {
            lemma_div_is_ordered(65535, 65535, p);
            lemma_multiply_divide_le(65535, p, 65535);
        }
        if m.contains_key(key) {
            lemma_canonical_contains::<T>(ls, n, key);
            let s = choose|s: int| 0 <= s < n && ls[s] != 0 && #[trigger] code_key(code_of(ls, s), ls[s] as int) == key;
            lemma_code_fits(ls, s);
            if ls[s] < 15 {
                lemma_pow2_strictly_increases(ls[s] as nat, 15);
            }
            lemma_code_key_inj(code_of(ls, s), ls[s] as int, x, t as int);
            lemma_code_start_growth(ls, t as int, li);
            let a = code_start(ls, t as nat) + bl_count(ls, t as int);
            assert(code_of(ls, s) < a);
            assert(ci >= a * p);
            assert(ci / p >= a) by {
                assert((a * p) / p == a) by (nonlinear_arith)
                    requires
                        p > 0,
                ;
                lemma_div_is_ordered(a * p, ci, p);
            }
        }
    }
    lemma_match_walk(m, v, 1, li as nat);
}

} // verus!
