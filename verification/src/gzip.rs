//! gzip member headers and footers (RFC 1952, section 2.3).

use vstd::prelude::*;
use vstd::utf8::encode_utf8;
use vstd::std_specs::convert::FromSpecImpl;
use byteorder::{ByteOrder, LittleEndian};
use crc::{Crc, CRC_32_ISO_HDLC};
use crate::bit_reader::{BitReader, BitSequence, stream_bits, bits_value, lemma_stream_bits_len};
use crate::text::string_push;

verus! {

pub const ID1: u8 = 0x1f;

pub const ID2: u8 = 0x8b;

pub const CM_DEFLATE: u8 = 8;

pub const FTEXT_OFFSET: u8 = 0;

pub const FHCRC_OFFSET: u8 = 1;

pub const FEXTRA_OFFSET: u8 = 2;

pub const FNAME_OFFSET: u8 = 3;

pub const FCOMMENT_OFFSET: u8 = 4;

// ---------------------------------------------------------------------------
// Outside functions

/// `k` steps of the reflected CRC-32 shift register (polynomial 0x04C11DB7,
/// reflected: 0xEDB88320): shift right, folding in the polynomial when the
/// bit shifted out is set.
pub open spec fn crc32_shift(c: u32, k: nat) -> u32
    decreases k,
{
    if k == 0 {
        c
    } else {
        crc32_shift(if c & 1 == 1 { (c >> 1u32) ^ 0xEDB88320u32 } else { c >> 1u32 }, (k - 1) as nat)
    }
}

/// The CRC-32 register after `data`, from the initial value 0xFFFFFFFF,
/// each byte taken least significant bit first.
pub open spec fn crc32_register(data: Seq<u8>) -> u32
    decreases data.len(),
{
    if data.len() == 0 {
        0xFFFFFFFFu32
    } else {
        crc32_shift(crc32_register(data.drop_last()) ^ (data.last() as u32), 8)
    }
}

/// The CRC-32 of ISO HDLC (the gzip checksum) of a byte sequence: the
/// register after the bytes, XORed with 0xFFFFFFFF.
pub open spec fn crc32_iso_hdlc(data: Seq<u8>) -> u32 {
    crc32_register(data) ^ 0xFFFFFFFFu32
}

/// `crc::Crc::<u32>::new(&CRC_32_ISO_HDLC).checksum`: the CRC-32 with the
/// catalogue's parameters (polynomial 0x04C11DB7, input and output
/// reflected, initial value and final XOR 0xFFFFFFFF).
#[verifier::external_body]
pub(crate) fn crc32_checksum(data: &[u8]) -> (r: u32)
    ensures
        r == crc32_iso_hdlc(data@),
{
    Crc::<u32>::new(&CRC_32_ISO_HDLC).checksum(data)
}

/// The 16-bit little-endian number at position `i` of `s`.
pub open spec fn le16(s: Seq<u8>, i: int) -> int {
    s[i] + 256 * s[i + 1]
}

/// The 32-bit little-endian number at position `i` of `s`.
pub open spec fn le32(s: Seq<u8>, i: int) -> int {
    le16(s, i) + 65536 * le16(s, i + 2)
}

/// `byteorder::LittleEndian::read_u16`: the first two bytes of `buf`, least
/// significant first (it panics on shorter input, which `requires` excludes).
#[verifier::external_body]
pub(crate) fn read_u16_le(buf: &[u8]) -> (r: u16)
    requires
        buf@.len() >= 2,
    ensures
        r == le16(buf@, 0),
{
    <LittleEndian as ByteOrder>::read_u16(buf)
}

/// `byteorder::LittleEndian::read_u32`: the first four bytes of `buf`, least
/// significant first (it panics on shorter input, which `requires` excludes).
#[verifier::external_body]
pub(crate) fn read_u32_le(buf: &[u8]) -> (r: u32)
    requires
        buf@.len() >= 4,
    ensures
        r == le32(buf@, 0),
{
    <LittleEndian as ByteOrder>::read_u32(buf)
}

// ---------------------------------------------------------------------------
// Flags

/// Bit `n` of a flag byte.
pub open spec fn flag_bit(f: u8, n: int) -> bool {
    ((f >> (n as u8)) & 1u8) == 1u8
}

/// The flag byte of a member header.
#[derive(Debug)]
pub struct MemberFlags(u8);

impl View for MemberFlags {
    type V = u8;

    closed spec fn view(&self) -> u8 {
        self.0
    }
}

impl From<u8> for MemberFlags {
    fn from(value: u8) -> (r: Self)
        ensures
            r@ == value,
    {
        MemberFlags(value)
    }
}

impl FromSpecImpl<u8> for MemberFlags {
    open spec fn obeys_from_spec() -> bool {
        true
    }

    closed spec fn from_spec(v: u8) -> Self {
        MemberFlags(v)
    }
}

impl MemberFlags {
    fn bit(&self, n: u8) -> (r: bool)
        requires
            n < 8,
        ensures
            r == flag_bit(self@, n as int),
    {
        let x = self.0;
        proof {
            assert((((x >> n) & 1u8) != 0u8) == (((x >> n) & 1u8) == 1u8)) by (bit_vector);
        }
        (x >> n) & 1 != 0
    }

    fn set_bit(&mut self, n: u8, value: bool)
        requires
            n < 8,
        ensures
            final(self)@ == if value {
                old(self)@ | (1u8 << n)
            } else {
                old(self)@ & !(1u8 << n)
            },
            forall|k: int|
                #![trigger flag_bit(final(self)@, k)]
                0 <= k < 8 ==> flag_bit(final(self)@, k) == if k == n {
                    value
                } else {
                    flag_bit(old(self)@, k)
                },
    {
        let ghost f0 = self.0;
        if value {
            self.0 |= 1 << n;
        } else {
            self.0 &= !(1 << n);
        }
        proof {
            let f1 = self.0;
            assert forall|k: int| 0 <= k < 8 implies flag_bit(f1, k) == if k == n {
                value
            } else {
                flag_bit(f0, k)
            } by {
                let ku = k as u8;
                if value {
                    assert(((f1 >> ku) & 1u8) == (if ku == n { 1u8 } else { (f0 >> ku) & 1u8 }))
                        by (bit_vector)
                        requires
                            f1 == f0 | (1u8 << n),
                            n < 8,
                            ku < 8,
                    ;
                } else {
                    assert(((f1 >> ku) & 1u8) == (if ku == n { 0u8 } else { (f0 >> ku) & 1u8 }))
                        by (bit_vector)
                        requires
                            f1 == f0 & !(1u8 << n),
                            n < 8,
                            ku < 8,
                    ;
                }
            }
        }
    }

    /// FTEXT.
    pub fn is_text(&self) -> (r: bool)
        ensures
            r == flag_bit(self@, 0),
    {
        self.bit(FTEXT_OFFSET)
    }

    pub fn set_is_text(&mut self, value: bool)
        ensures
            final(self)@ == if value {
                old(self)@ | (1u8 << 0u8)
            } else {
                old(self)@ & !(1u8 << 0u8)
            },
            forall|k: int|
                #![trigger flag_bit(final(self)@, k)]
                0 <= k < 8 ==> flag_bit(final(self)@, k) == if k == 0 {
                    value
                } else {
                    flag_bit(old(self)@, k)
                },
    {
        self.set_bit(FTEXT_OFFSET, value)
    }

    /// FHCRC.
    pub fn has_crc(&self) -> (r: bool)
        ensures
            r == flag_bit(self@, 1),
    {
        self.bit(FHCRC_OFFSET)
    }

    pub fn set_has_crc(&mut self, value: bool)
        ensures
            final(self)@ == if value {
                old(self)@ | (1u8 << 1u8)
            } else {
                old(self)@ & !(1u8 << 1u8)
            },
            forall|k: int|
                #![trigger flag_bit(final(self)@, k)]
                0 <= k < 8 ==> flag_bit(final(self)@, k) == if k == 1 {
                    value
                } else {
                    flag_bit(old(self)@, k)
                },
    {
        self.set_bit(FHCRC_OFFSET, value)
    }

    /// FEXTRA.
    pub fn has_extra(&self) -> (r: bool)
        ensures
            r == flag_bit(self@, 2),
    {
        self.bit(FEXTRA_OFFSET)
    }

    pub fn set_has_extra(&mut self, value: bool)
        ensures
            final(self)@ == if value {
                old(self)@ | (1u8 << 2u8)
            } else {
                old(self)@ & !(1u8 << 2u8)
            },
            forall|k: int|
                #![trigger flag_bit(final(self)@, k)]
                0 <= k < 8 ==> flag_bit(final(self)@, k) == if k == 2 {
                    value
                } else {
                    flag_bit(old(self)@, k)
                },
    {
        self.set_bit(FEXTRA_OFFSET, value)
    }

    /// FNAME.
    pub fn has_name(&self) -> (r: bool)
        ensures
            r == flag_bit(self@, 3),
    {
        self.bit(FNAME_OFFSET)
    }

    pub fn set_has_name(&mut self, value: bool)
        ensures
            final(self)@ == if value {
                old(self)@ | (1u8 << 3u8)
            } else {
                old(self)@ & !(1u8 << 3u8)
            },
            forall|k: int|
                #![trigger flag_bit(final(self)@, k)]
                0 <= k < 8 ==> flag_bit(final(self)@, k) == if k == 3 {
                    value
                } else {
                    flag_bit(old(self)@, k)
                },
    {
        self.set_bit(FNAME_OFFSET, value)
    }

    /// FCOMMENT.
    pub fn has_comment(&self) -> (r: bool)
        ensures
            r == flag_bit(self@, 4),
    {
        self.bit(FCOMMENT_OFFSET)
    }

    pub fn set_has_comment(&mut self, value: bool)
        ensures
            final(self)@ == if value {
                old(self)@ | (1u8 << 4u8)
            } else {
                old(self)@ & !(1u8 << 4u8)
            },
            forall|k: int|
                #![trigger flag_bit(final(self)@, k)]
                0 <= k < 8 ==> flag_bit(final(self)@, k) == if k == 4 {
                    value
                } else {
                    flag_bit(old(self)@, k)
                },
    {
        self.set_bit(FCOMMENT_OFFSET, value)
    }
}

// ---------------------------------------------------------------------------
// Compression method

#[derive(Clone, Copy, Debug, PartialEq, Eq, Structural)]
pub enum CompressionMethod {
    Deflate,
    Unknown(u8),
}

/// The compression method with code `v`.
pub open spec fn compression_method_spec(v: u8) -> CompressionMethod {
    if v == CM_DEFLATE {
        CompressionMethod::Deflate
    } else {
        CompressionMethod::Unknown(v)
    }
}

/// The code of a compression method.
pub open spec fn compression_method_byte(m: CompressionMethod) -> u8 {
    match m {
        CompressionMethod::Deflate => CM_DEFLATE,
        CompressionMethod::Unknown(x) => x,
    }
}

impl From<u8> for CompressionMethod {
    fn from(value: u8) -> (r: Self)
        ensures
            r == compression_method_spec(value),
    {
        match value {
            CM_DEFLATE => Self::Deflate,
            x => Self::Unknown(x),
        }
    }
}

impl FromSpecImpl<u8> for CompressionMethod {
    open spec fn obeys_from_spec() -> bool {
        true
    }

    open spec fn from_spec(v: u8) -> Self {
        compression_method_spec(v)
    }
}

impl From<CompressionMethod> for u8 {
    fn from(method: CompressionMethod) -> (r: u8)
        ensures
            r == compression_method_byte(method),
    {
        match method {
            CompressionMethod::Deflate => CM_DEFLATE,
            CompressionMethod::Unknown(x) => x,
        }
    }
}

impl FromSpecImpl<CompressionMethod> for u8 {
    open spec fn obeys_from_spec() -> bool {
        true
    }

    open spec fn from_spec(v: CompressionMethod) -> Self {
        compression_method_byte(v)
    }
}

// ---------------------------------------------------------------------------
// Member header

#[derive(Debug)]
pub struct MemberHeader {
    pub compression_method: CompressionMethod,
    pub modification_time: u32,
    pub extra: Option<Vec<u8>>,
    pub name: Option<String>,
    pub comment: Option<String>,
    pub extra_flags: u8,
    pub os: u8,
    pub has_crc: bool,
    pub is_text: bool,
}

/// The flag byte that describes a header.
pub open spec fn header_flags_byte(h: MemberHeader) -> u8 {
    (if h.is_text { 1u8 } else { 0u8 }) | (if h.has_crc { 2u8 } else { 0u8 }) | (if h.extra is Some {
        4u8
    } else {
        0u8
    }) | (if h.name is Some { 8u8 } else { 0u8 }) | (if h.comment is Some { 16u8 } else { 0u8 })
}

/// The little-endian bytes of a 16-bit number.
pub open spec fn le16_bytes(x: u16) -> Seq<u8> {
    seq![(x & 0xff) as u8, (x >> 8u16) as u8]
}

/// The little-endian bytes of a 32-bit number.
pub open spec fn le32_bytes(x: u32) -> Seq<u8> {
    seq![
        (x & 0xff) as u8,
        ((x >> 8u32) & 0xff) as u8,
        ((x >> 16u32) & 0xff) as u8,
        (x >> 24u32) as u8,
    ]
}

/// The bytes of the optional extra field: its length, then its bytes.
pub open spec fn extra_field_bytes(extra: Option<Vec<u8>>) -> Seq<u8> {
    match extra {
        Some(e) => le16_bytes(e@.len() as u16) + e@,
        None => Seq::empty(),
    }
}

/// The bytes of an optional zero-terminated text field.
pub open spec fn text_field_bytes(text: Option<String>) -> Seq<u8> {
    match text {
        Some(t) => encode_utf8(t@).push(0u8),
        None => Seq::empty(),
    }
}

/// The bytes of a header that its CRC covers, as the header is written.
pub open spec fn header_crc_bytes(h: MemberHeader) -> Seq<u8> {
    seq![ID1, ID2, compression_method_byte(h.compression_method), header_flags_byte(h)]
        + le32_bytes(h.modification_time) + seq![h.extra_flags, h.os] + extra_field_bytes(h.extra)
        + text_field_bytes(h.name) + text_field_bytes(h.comment)
}

fn append_bytes(v: &mut Vec<u8>, s: &[u8])
    ensures
        final(v)@ == old(v)@ + s@,
{
    let mut i: usize = 0;
    while i < s.len()
        invariant
            i <= s@.len(),
            v@ == old(v)@ + s@.take(i as int),
        decreases s@.len() - i,
    {
        v.push(s[i]);
        i += 1;
        proof {
            assert(s@.take(i as int) =~= s@.take(i - 1).push(s@[i - 1]));
        }
    }
    assert(s@.take(s@.len() as int) =~= s@);
}

impl MemberHeader {
    /// The low sixteen bits of the CRC-32 of the header bytes.
    pub fn crc16(&self) -> (r: u16)
        ensures
            r == (crc32_iso_hdlc(header_crc_bytes(*self)) & 0xffff) as u16,
    {
        let mut data: Vec<u8> = Vec::new();
        data.push(ID1);
        data.push(ID2);
        data.push(u8::from(self.compression_method));
        let f = self.flags();
        data.push(f.0);
        let t = self.modification_time;
        data.push((t & 0xff) as u8);
        data.push(((t >> 8) & 0xff) as u8);
        data.push(((t >> 16) & 0xff) as u8);
        data.push((t >> 24) as u8);
        data.push(self.extra_flags);
        data.push(self.os);
        let ghost fixed = data@;
        if let Some(extra) = &self.extra {
            let n = #[verifier::truncate] (extra.len() as u16);
            data.push((n & 0xff) as u8);
            data.push((n >> 8) as u8);
            append_bytes(&mut data, extra.as_slice());
        }
        let ghost after_extra = data@;
        if let Some(name) = &self.name {
            append_bytes(&mut data, name.as_str().as_bytes());
            data.push(0);
        }
        let ghost after_name = data@;
        if let Some(comment) = &self.comment {
            append_bytes(&mut data, comment.as_str().as_bytes());
            data.push(0);
        }
        proof {
            assert(fixed =~= seq![
                ID1,
                ID2,
                compression_method_byte(self.compression_method),
                header_flags_byte(*self),
            ] + le32_bytes(t) + seq![self.extra_flags, self.os]);
            let ex = extra_field_bytes(self.extra);
            assert(after_extra =~= fixed + ex);
            let nm = text_field_bytes(self.name);
            assert(after_name =~= fixed + ex + nm);
            assert(data@ =~= header_crc_bytes(*self));
        }
        let c = crc32_checksum(data.as_slice());
        (c & 0xffff) as u16
    }

    /// The flag byte of the header: FTEXT, FHCRC, and FEXTRA, FNAME,
    /// FCOMMENT for the fields that are present.
    pub fn flags(&self) -> (r: MemberFlags)
        ensures
            r@ == header_flags_byte(*self),
    {
        let mut flags = MemberFlags(0);
        flags.set_is_text(self.is_text);
        flags.set_has_crc(self.has_crc);
        flags.set_has_extra(self.extra.is_some());
        flags.set_has_name(self.name.is_some());
        flags.set_has_comment(self.comment.is_some());
        proof {
            let a = self.is_text;
            let b = self.has_crc;
            let c = self.extra is Some;
            let d = self.name is Some;
            let e = self.comment is Some;
            let f1: u8 = if a { 0u8 | (1u8 << 0u8) } else { 0u8 & !(1u8 << 0u8) };
            let f2: u8 = if b { f1 | (1u8 << 1u8) } else { f1 & !(1u8 << 1u8) };
            let f3: u8 = if c { f2 | (1u8 << 2u8) } else { f2 & !(1u8 << 2u8) };
            let f4: u8 = if d { f3 | (1u8 << 3u8) } else { f3 & !(1u8 << 3u8) };
            let f5: u8 = if e { f4 | (1u8 << 4u8) } else { f4 & !(1u8 << 4u8) };
            assert(f5 == ((if a { 1u8 } else { 0u8 }) | (if b { 2u8 } else { 0u8 }) | (if c {
                4u8
            } else {
                0u8
            }) | (if d { 8u8 } else { 0u8 }) | (if e { 16u8 } else { 0u8 }))) by (bit_vector)
                requires
                    f1 == (if a { 0u8 | (1u8 << 0u8) } else { 0u8 & !(1u8 << 0u8) }),
                    f2 == (if b { f1 | (1u8 << 1u8) } else { f1 & !(1u8 << 1u8) }),
                    f3 == (if c { f2 | (1u8 << 2u8) } else { f2 & !(1u8 << 2u8) }),
                    f4 == (if d { f3 | (1u8 << 3u8) } else { f3 & !(1u8 << 3u8) }),
                    f5 == (if e { f4 | (1u8 << 4u8) } else { f4 & !(1u8 << 4u8) }),
            ;
        }
        flags
    }
}

// ---------------------------------------------------------------------------
// Parsing

/// Failures while reading a gzip member.
#[derive(Clone, Copy, Debug, PartialEq, Eq, Structural)]
pub enum GzipError {
    /// The input ended inside a field.
    UnexpectedEof,
    /// The first byte is not `ID1`.
    WrongId1,
    /// The second byte is not `ID2`.
    WrongId2,
    /// The header CRC does not match the header.
    WrongHeaderCrc,
}

/// The index of the first zero byte of `s`, or its length when there is none.
pub open spec fn zero_pos(s: Seq<u8>) -> nat
    decreases s.len(),
{
    if s.len() == 0 {
        0
    } else if s[0] == 0 {
        0
    } else {
        1 + zero_pos(s.drop_first())
    }
}

/// Bytes read as characters, one character per byte.
pub open spec fn latin1(s: Seq<u8>) -> Seq<char> {
    Seq::new(s.len(), |i: int| s[i] as char)
}

/// The length of the extra field.
pub open spec fn extra_len(b: Seq<u8>) -> int {
    le16(b, 10)
}

/// Where the file name starts: after the fixed part and, when present, the
/// extra field (its two-byte length, then its bytes).
pub open spec fn name_pos(b: Seq<u8>) -> int {
    if flag_bit(b[3], 2) {
        12 + extra_len(b)
    } else {
        10
    }
}

/// The number of bytes of a zero-terminated field at `pos`, terminator aside.
pub open spec fn field_len(b: Seq<u8>, pos: int) -> nat {
    zero_pos(b.skip(pos))
}

/// The field at `pos` has its terminating zero within `b`.
pub open spec fn field_ends(b: Seq<u8>, pos: int) -> bool {
    pos + field_len(b, pos) < b.len()
}

/// Where the comment starts: after the file name and its zero, when present.
pub open spec fn comment_pos(b: Seq<u8>) -> int {
    if flag_bit(b[3], 3) {
        name_pos(b) + field_len(b, name_pos(b)) + 1
    } else {
        name_pos(b)
    }
}

/// Where the header CRC is: after the comment and its zero, when present.
pub open spec fn crc_pos(b: Seq<u8>) -> int {
    if flag_bit(b[3], 4) {
        comment_pos(b) + field_len(b, comment_pos(b)) + 1
    } else {
        comment_pos(b)
    }
}

/// The header error that the bytes `b` give, if any (RFC 1952, section 2.3).
pub open spec fn header_error(b: Seq<u8>) -> Option<GzipError> {
    if b.len() < 1 {
        Some(GzipError::UnexpectedEof)
    } else if b[0] != ID1 {
        Some(GzipError::WrongId1)
    } else if b.len() < 2 {
        Some(GzipError::UnexpectedEof)
    } else if b[1] != ID2 {
        Some(GzipError::WrongId2)
    } else if b.len() < 10 {
        Some(GzipError::UnexpectedEof)
    } else if flag_bit(b[3], 2) && (b.len() < 12 || extra_len(b) > b.len() - 12) {
        Some(GzipError::UnexpectedEof)
    } else if flag_bit(b[3], 3) && !field_ends(b, name_pos(b)) {
        Some(GzipError::UnexpectedEof)
    } else if flag_bit(b[3], 4) && !field_ends(b, comment_pos(b)) {
        Some(GzipError::UnexpectedEof)
    } else if flag_bit(b[3], 1) && crc_pos(b) + 2 > b.len() {
        Some(GzipError::UnexpectedEof)
    } else if flag_bit(b[3], 1) && le16(b, crc_pos(b)) != (crc32_iso_hdlc(
        parsed_crc_bytes(b),
    ) & 0xffff) as u16 {
        Some(GzipError::WrongHeaderCrc)
    } else {
        None
    }
}

/// The zero-terminated field at `pos` as parsed: its bytes, one character each.
pub open spec fn parsed_field(b: Seq<u8>, pos: int) -> Seq<char> {
    latin1(b.subrange(pos, pos + field_len(b, pos)))
}

/// The bytes that the CRC of the parsed header covers.
pub open spec fn parsed_crc_bytes(b: Seq<u8>) -> Seq<u8> {
    seq![b[0], b[1], b[2], b[3] & 0x1f] + b.subrange(4, 10) + (if flag_bit(b[3], 2) {
        b.subrange(10, 12 + extra_len(b))
    } else {
        Seq::empty()
    }) + (if flag_bit(b[3], 3) {
        encode_utf8(parsed_field(b, name_pos(b))).push(0u8)
    } else {
        Seq::empty()
    }) + (if flag_bit(b[3], 4) {
        encode_utf8(parsed_field(b, comment_pos(b))).push(0u8)
    } else {
        Seq::empty()
    })
}

/// The number of header bytes: the fixed part, the extra field (length and
/// bytes), the file name and the comment with their zeros, and the header
/// CRC.
pub open spec fn header_read_bytes(b: Seq<u8>) -> nat {
    (crc_pos(b) + if flag_bit(b[3], 1) { 2int } else { 0int }) as nat
}

/// The header parsed from `b`, field by field.
pub open spec fn header_matches(h: MemberHeader, b: Seq<u8>) -> bool {
    &&& h.compression_method == compression_method_spec(b[2])
    &&& h.modification_time == le32(b, 4)
    &&& h.extra_flags == b[8]
    &&& h.os == b[9]
    &&& h.is_text == flag_bit(b[3], 0)
    &&& h.has_crc == flag_bit(b[3], 1)
    &&& (h.extra is Some <==> flag_bit(b[3], 2))
    &&& (h.extra matches Some(e) ==> e@ == b.subrange(12, 12 + extra_len(b)))
    &&& (h.name is Some <==> flag_bit(b[3], 3))
    &&& (h.name matches Some(n) ==> n@ == parsed_field(b, name_pos(b)))
    &&& (h.comment is Some <==> flag_bit(b[3], 4))
    &&& (h.comment matches Some(c) ==> c@ == parsed_field(b, comment_pos(b)))
}

proof fn lemma_zero_pos(s: Seq<u8>, i: int)
    requires
        0 <= i <= s.len(),
        forall|k: int| 0 <= k < i ==> s[k] != 0,
        i == s.len() || s[i] == 0,
    ensures
        zero_pos(s) == i,
    decreases i,
{
    if i > 0 {
        lemma_zero_pos(s.drop_first(), i - 1);
    }
}

/// Reads a text field: the bytes from `start` up to the first zero.
fn read_text(b: &[u8], start: usize) -> (r: (String, usize))
    requires
        start <= b@.len(),
    ensures
        r.1 == zero_pos(b@.skip(start as int)),
        r.1 <= b@.len() - start,
        r.0@ == latin1(b@.subrange(start as int, start + r.1)),
{
    let mut len: usize = 0;
    while len < b.len() - start && b[start + len] != 0
        invariant
            start + len <= b@.len(),
            b@.len() == b.len(),
            forall|k: int| start <= k < start + len ==> b@[k] != 0,
        decreases b@.len() - start - len,
    {
        len += 1;
    }
    proof {
        let s = b@.skip(start as int);
        assert forall|k: int| 0 <= k < len implies s[k] != 0 by {
            assert(s[k] == b@[start + k]);
        }
        lemma_zero_pos(s, len as int);
    }
    let mut res = String::new();
    let mut i: usize = 0;
    while i < len
        invariant
            i <= len,
            start + len <= b@.len(),
            b@.len() == b.len(),
            res@ == latin1(b@.subrange(start as int, start + i)),
        decreases len - i,
    {
        let c = b[start + i];
        string_push(&mut res, c as char);
        i += 1;
        proof {
            assert(res@ =~= latin1(b@.subrange(start as int, start + i)));
        }
    }
    (res, len)
}

pub struct GzipReader<'a> {
    reader: &'a [u8],
}

impl<'a> GzipReader<'a> {
    pub closed spec fn input(&self) -> &'a [u8] {
        self.reader
    }

    pub fn new(reader: &'a [u8]) -> (r: Self)
        ensures
            r.input() == reader,
    {
        Self { reader }
    }

    /// The unread input.
    pub fn reader_mut(&mut self) -> (r: &mut &'a [u8])
        ensures
            *r == old(self).input(),
            final(self).input() == *final(r),
    {
        &mut self.reader
    }

    /// Parses a member header at the start of the input and consumes the
    /// bytes that `parse_header` accounts for.
    pub fn read_header(&mut self) -> (r: Result<(MemberHeader, MemberFlags), GzipError>)
        requires
            old(self).input()@.len() <= isize::MAX,
        ensures
            match header_error(old(self).input()@) {
                Some(e) => r == Err::<(MemberHeader, MemberFlags), GzipError>(e) && final(self).input() == old(self).input(),
                None => {
                    let b = old(self).input()@;
                    if header_read_bytes(b) > b.len() {
                        r == Err::<(MemberHeader, MemberFlags), GzipError>(
                            GzipError::UnexpectedEof,
                        ) && final(self).input() == old(self).input()
                    } else {
                        r matches Ok((h, f)) && header_matches(h, b) && f@ == b[3] && final(self).input()@ == b.skip(header_read_bytes(b) as int)
                    }
                },
            },
    {
        let buf = self.reader;
        let (header, m_flags, bytes_read) = match GzipReader::parse_header(buf) {
            Ok(x) => x,
            Err(e) => {
                return Err(e);
            },
        };
        if bytes_read > buf.len() {
            return Err(GzipError::UnexpectedEof);
        }
        self.reader = vstd::slice::slice_subrange(buf, bytes_read, buf.len());
        proof {
            assert(self.reader@ =~= buf@.skip(bytes_read as int));
        }
        Ok((header, m_flags))
    }

    /// Hands the unread input to a member reader.
    pub fn ret_mem_reader(self) -> (r: Result<MemberReader<'a>, GzipError>)
        ensures
            r matches Ok(m) && m.inner == self.input(),
    {
        return Ok(MemberReader { inner: self.reader });
    }

    /// Parses a member header (RFC 1952, section 2.3) at the start of
    /// `header`: the fixed part, then the extra field, the file name, the
    /// comment and the header CRC, each when its flag is set. Gives the
    /// header, its flag byte and the number of header bytes. A name or
    /// comment without its terminating zero fails with `UnexpectedEof`.
    pub fn parse_header(header: &[u8]) -> (r: Result<(MemberHeader, MemberFlags, usize), GzipError>)
        requires
            header@.len() <= isize::MAX,
        ensures
            match header_error(header@) {
                Some(e) => r == Err::<(MemberHeader, MemberFlags, usize), GzipError>(e),
                None => r matches Ok((h, f, n)) && header_matches(h, header@) && f@ == header@[3]
                    && n == header_read_bytes(header@),
            },
    {
        let b = header;
        let len = b.len();
        if len < 1 {
            return Err(GzipError::UnexpectedEof);
        }
        if ID1 != b[0] {
            return Err(GzipError::WrongId1);
        }
        if len < 2 {
            return Err(GzipError::UnexpectedEof);
        }
        if ID2 != b[1] {
            return Err(GzipError::WrongId2);
        }
        if len < 10 {
            return Err(GzipError::UnexpectedEof);
        }
        let compression_method = CompressionMethod::from(b[2]);
        let member_flags: MemberFlags = MemberFlags::from(b[3]);
        let modification_time = read_u32_le(vstd::slice::slice_subrange(b, 4, len));
        let extra_flags = b[8];
        let os = b[9];
        let mut pos: usize = 10;
        proof {
            assert(b@.subrange(4, len as int)[0] == b@[4]);
            assert(le32(b@.subrange(4, len as int), 0) == le32(b@, 4));
        }
        let extra: Option<Vec<u8>> = if member_flags.has_extra() {
            if len < 12 {
                return Err(GzipError::UnexpectedEof);
            }
            let xlen = read_u16_le(vstd::slice::slice_subrange(b, 10, len)) as usize;
            proof {
                assert(le16(b@.subrange(10, len as int), 0) == le16(b@, 10));
            }
            if xlen > len - 12 {
                return Err(GzipError::UnexpectedEof);
            }
            pos = 12 + xlen;
            Some(vstd::slice::slice_to_vec(vstd::slice::slice_subrange(b, 12, 12 + xlen)))
        } else {
            None
        };
        assert(pos == name_pos(b@));
        let name: Option<String> = if member_flags.has_name() {
            let (text, text_len) = read_text(b, pos);
            if text_len >= len - pos {
                return Err(GzipError::UnexpectedEof);
            }
            pos = pos + text_len + 1;
            Some(text)
        } else {
            None
        };
        assert(pos == comment_pos(b@));
        let comment: Option<String> = if member_flags.has_comment() {
            let (text, text_len) = read_text(b, pos);
            if text_len >= len - pos {
                return Err(GzipError::UnexpectedEof);
            }
            pos = pos + text_len + 1;
            Some(text)
        } else {
            None
        };
        assert(pos == crc_pos(b@));
        let crc16: Option<u16> = if member_flags.has_crc() {
            if len - pos < 2 {
                return Err(GzipError::UnexpectedEof);
            }
            let c = read_u16_le(vstd::slice::slice_subrange(b, pos, len));
            proof {
                assert(le16(b@.subrange(pos as int, len as int), 0) == le16(b@, pos as int));
            }
            pos = pos + 2;
            Some(c)
        } else {
            None
        };
        let read_bytes = pos;
        let member_header = MemberHeader {
            compression_method: compression_method,
            modification_time: modification_time,
            extra_flags: extra_flags,
            os: os,
            extra: extra,
            name: name,
            comment: comment,
            has_crc: member_flags.has_crc(),
            is_text: member_flags.is_text(),
        };
        match crc16 {
            Some(crc) => {
                let expected = member_header.crc16();
                proof {
                    lemma_parsed_crc_bytes(member_header, b@);
                }
                if crc != expected {
                    return Err(GzipError::WrongHeaderCrc);
                }
            },
            None => (),
        };
        Ok((member_header, member_flags, read_bytes))
    }
}

proof fn lemma_parsed_crc_bytes(h: MemberHeader, b: Seq<u8>)
    requires
        b.len() >= 10,
        b[0] == ID1,
        b[1] == ID2,
        header_matches(h, b),
        flag_bit(b[3], 2) ==> b.len() >= 12 && extra_len(b) <= b.len() - 12,
        b[2] == compression_method_byte(h.compression_method),
    ensures
        header_crc_bytes(h) == parsed_crc_bytes(b),
{
    let f = b[3];
    let a = flag_bit(f, 0);
    let c1 = flag_bit(f, 1);
    let c2 = flag_bit(f, 2);
    let c3 = flag_bit(f, 3);
    let c4 = flag_bit(f, 4);
    assert(((if a { 1u8 } else { 0u8 }) | (if c1 { 2u8 } else { 0u8 }) | (if c2 { 4u8 } else {
        0u8
    }) | (if c3 { 8u8 } else { 0u8 }) | (if c4 { 16u8 } else { 0u8 })) == f & 0x1f) by (bit_vector)
        requires
            a == (((f >> 0u8) & 1u8) == 1u8),
            c1 == (((f >> 1u8) & 1u8) == 1u8),
            c2 == (((f >> 2u8) & 1u8) == 1u8),
            c3 == (((f >> 3u8) & 1u8) == 1u8),
            c4 == (((f >> 4u8) & 1u8) == 1u8),
    ;
    assert(header_flags_byte(h) == f & 0x1f);
    let t = h.modification_time;
    let (b4, b5, b6, b7) = (b[4], b[5], b[6], b[7]);
    assert(le32_bytes(t) =~= b.subrange(4, 8)) by {
        assert(t == b4 + 256 * b5 + 65536 * (b6 + 256 * b7));
        assert((t & 0xff) as u8 == b4 && ((t >> 8u32) & 0xff) as u8 == b5 && ((t >> 16u32) & 0xff)
            as u8 == b6 && (t >> 24u32) as u8 == b7) by (bit_vector)
            requires
                t == b4 + 256 * b5 + 65536 * (b6 + 256 * b7),
        ;
    }
    if c2 {
        let e = h.extra.unwrap();
        let x = extra_len(b);
        let (b10, b11) = (b[10], b[11]);
        assert(e@.len() == x);
        let xl = e@.len() as u16;
        assert(xl == b10 + 256 * b11);
        assert((xl & 0xff) as u8 == b10 && (xl >> 8u16) as u8 == b11) by (bit_vector)
            requires
                xl == b10 + 256 * b11,
        ;
        assert(extra_field_bytes(h.extra) =~= b.subrange(10, 12 + x));
    } else {
        assert(extra_field_bytes(h.extra) =~= Seq::<u8>::empty());
    }
    assert(seq![ID1, ID2, compression_method_byte(h.compression_method), header_flags_byte(h)]
        + le32_bytes(t) + seq![h.extra_flags, h.os] =~= seq![b[0], b[1], b[2], b[3] & 0x1f]
        + b.subrange(4, 10));
    assert(header_crc_bytes(h) =~= parsed_crc_bytes(b));
}

// ---------------------------------------------------------------------------
// Member body and footer

#[derive(Debug)]
pub struct MemberFooter {
    pub data_crc32: u32,
    pub data_size: u32,
}

#[derive(Clone, Copy, Debug, PartialEq, Eq, Structural)]
pub enum DeflateCompressionMethod {
    NoCompression,
    FixedHuffmanCodes,
    DynamicHuffmanCodes,
    ErrorReserved,
}

/// The block type of a two-bit sequence (RFC 1951, section 3.2.3).
pub open spec fn deflate_method_spec(s: BitSequence) -> DeflateCompressionMethod {
    if s.bits == 0 && s.len == 2 {
        DeflateCompressionMethod::NoCompression
    } else if s.bits == 1 && s.len == 2 {
        DeflateCompressionMethod::FixedHuffmanCodes
    } else if s.bits == 2 && s.len == 2 {
        DeflateCompressionMethod::DynamicHuffmanCodes
    } else {
        DeflateCompressionMethod::ErrorReserved
    }
}

impl From<BitSequence> for DeflateCompressionMethod {
    fn from(value: BitSequence) -> (r: Self)
        ensures
            r == deflate_method_spec(value),
    {
        match (value.bits(), value.len()) {
            (0, 2) => Self::NoCompression,
            (1, 2) => Self::FixedHuffmanCodes,
            (2, 2) => Self::DynamicHuffmanCodes,
            _ => Self::ErrorReserved,
        }
    }
}

impl FromSpecImpl<BitSequence> for DeflateCompressionMethod {
    open spec fn obeys_from_spec() -> bool {
        true
    }

    open spec fn from_spec(v: BitSequence) -> Self {
        deflate_method_spec(v)
    }
}

/// Reads the body and the footer of a member.
pub struct MemberReader<'a> {
    pub inner: &'a [u8],
}

impl<'a> MemberReader<'a> {
    /// The unread input.
    pub fn inner_mut(&mut self) -> (r: &mut &'a [u8])
        ensures
            *r == old(self).inner,
            final(self).inner == *final(r),
    {
        &mut self.inner
    }

    /// Reads a block header's BFINAL and BTYPE from the next byte, and drops
    /// the rest of that byte.
    pub fn read_header(&mut self) -> (r: Result<(bool, DeflateCompressionMethod), GzipError>)
        ensures
            old(self).inner@.len() == 0 ==> r == Err::<(bool, DeflateCompressionMethod), GzipError>(
                GzipError::UnexpectedEof,
            ) && final(self).inner == old(self).inner,
            old(self).inner@.len() > 0 ==> {
                let v = stream_bits(old(self).inner@);
                &&& r matches Ok((is_final, method))
                &&& is_final == (bits_value(v.take(1)) == 1)
                &&& method == deflate_method_spec(
                    BitSequence { bits: bits_value(v.skip(1).take(2)) as u16, len: 2 },
                )
                &&& final(self).inner@ == old(self).inner@.skip(1)
            },
    {
        let mut bit_reader = BitReader::new(self.inner);
        proof {
            bit_reader.lemma_wf();
            lemma_stream_bits_len(self.inner@);
            assert(bit_reader.pending() =~= Seq::<bool>::empty());
            assert(bit_reader.bits() =~= stream_bits(self.inner@));
        }
        let b1 = match bit_reader.read_bits(1) {
            Ok(b) => b,
            Err(_) => {
                return Err(GzipError::UnexpectedEof);
            },
        };
        proof {
            vstd::arithmetic::power2::lemma2_to64();
        }
        let b_final = b1 == BitSequence::new(0b1, 1);
        let b2 = match bit_reader.read_bits(2) {
            Ok(b) => b,
            Err(_) => {
                return Err(GzipError::UnexpectedEof);
            },
        };
        let compression = DeflateCompressionMethod::from(b2);
        proof {
            let v = stream_bits(self.inner@);
            assert(v.skip(1).skip(2) =~= v.skip(3));
            assert(v.skip(1).len() >= 2);
        }
        self.inner = *bit_reader.borrow_reader_from_boundary();
        Ok((b_final, compression))
    }

    /// The unread input.
    pub fn fill_buf(&mut self) -> (r: Result<&'a [u8], GzipError>)
        ensures
            r == Ok::<&'a [u8], GzipError>(old(self).inner),
            *final(self) == *old(self),
    {
        Ok(self.inner)
    }

    /// Reads the footer: the CRC-32 and the size of the data, each four
    /// bytes little-endian; the rest of the input goes back to a gzip reader.
    pub fn read_footer(self) -> (r: Result<(MemberFooter, GzipReader<'a>), GzipError>)
        ensures
            self.inner@.len() < 8 ==> r == Err::<(MemberFooter, GzipReader<'a>), GzipError>(
                GzipError::UnexpectedEof,
            ),
            self.inner@.len() >= 8 ==> (r matches Ok((f, g)) && f.data_crc32 == le32(self.inner@, 0)
                && f.data_size == le32(self.inner@, 4) && g.input()@ == self.inner@.skip(8)),
    {
        let b = self.inner;
        if b.len() < 8 {
            return Err(GzipError::UnexpectedEof);
        }
        let data_crc32 = read_u32_le(b);
        let rest = vstd::slice::slice_subrange(b, 4, b.len());
        let data_size = read_u32_le(rest);
        proof {
            assert(le32(rest@, 0) == le32(b@, 4));
        }
        let remaining = vstd::slice::slice_subrange(b, 8, b.len());
        proof {
            assert(remaining@ =~= b@.skip(8));
        }
        Ok((MemberFooter { data_crc32: data_crc32, data_size: data_size }, GzipReader::new(remaining)))
    }

    /// The same reader.
    pub fn get_member(self) -> (r: Result<MemberReader<'a>, GzipError>)
        ensures
            r matches Ok(m) && m.inner == self.inner,
    {
        Ok(MemberReader { inner: self.inner })
    }
}

} // verus!
