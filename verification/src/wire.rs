//! The byte-level vocabulary of the format: tag bytes, header layout and
//! little-endian integers.

use vstd::prelude::*;

verus! {

pub const MAGIC_0: u8 = 0x42;

pub const MAGIC_1: u8 = 0x46;

pub const FORMAT_VERSION: u8 = 1;

/// Bit 0 of the flags byte: the stream was compressed.
pub const FLAG_COMPRESSED: u8 = 0x01;

pub const HEADER_LEN: usize = 6;

pub const TAG_NULL: u8 = 0x10;

pub const TAG_FALSE: u8 = 0x20;

pub const TAG_TRUE: u8 = 0x21;

/// Tags `0x30..=0x3F` other than `TAG_INT` carry the integer in their low
/// four bits.
pub const TAG_INT_INLINE: u8 = 0x30;

pub const TAG_INT: u8 = 0x38;

pub const TAG_FLOAT: u8 = 0x40;

pub const TAG_TEXT: u8 = 0x50;

pub const TAG_SEQUENCE: u8 = 0x60;

pub const TAG_RECORD: u8 = 0x70;

pub const TAG_RECORD_END: u8 = 0x7F;

pub const TAG_BYTES: u8 = 0x80;

pub const TAG_NUMERIC_ARRAY: u8 = 0x90;

pub const TAG_DATETIME: u8 = 0xD1;

pub const TAG_DATE: u8 = 0xD2;

pub const TAG_TIME: u8 = 0xD3;

pub const TAG_UUID: u8 = 0xD4;

pub const TAG_DECIMAL: u8 = 0xD5;

/// Sequences and records may be nested this deep and no deeper.
pub const MAX_RECURSION_DEPTH: usize = 128;

/// A string-table entry is prefixed by one length byte.
pub const MAX_KEY_BYTES: usize = 255;

/// The header counts the string-table entries in sixteen bits.
pub const MAX_KEYS: usize = 65535;

/// The two little-endian bytes of `n`, for `n < 2^16`.
pub open spec fn le16(n: nat) -> Seq<u8> {
    seq![(n % 256) as u8, (n / 256 % 256) as u8]
}

/// The four little-endian bytes of `n`, for `n < 2^32`.
pub open spec fn le32(n: nat) -> Seq<u8> {
    seq![
        (n % 256) as u8,
        (n / 256 % 256) as u8,
        (n / 256 / 256 % 256) as u8,
        (n / 256 / 256 / 256 % 256) as u8,
    ]
}

/// The eight little-endian bytes of `n`, for `n < 2^64`.
pub open spec fn le64(n: nat) -> Seq<u8> {
    le32(n % 0x1_0000_0000) + le32(n / 0x1_0000_0000)
}

/// The number whose little-endian bytes are `b[at]` and `b[at + 1]`.
pub open spec fn read16(b: Seq<u8>, at: int) -> nat {
    (b[at] + 256 * b[at + 1]) as nat
}

/// The number whose little-endian bytes are `b[at..at + 4]`.
pub open spec fn read32(b: Seq<u8>, at: int) -> nat {
    (b[at] + 256 * (b[at + 1] + 256 * (b[at + 2] + 256 * b[at + 3]))) as nat
}

/// The number whose little-endian bytes are `b[at..at + 8]`.
pub open spec fn read64(b: Seq<u8>, at: int) -> nat {
    read32(b, at) + 0x1_0000_0000 * read32(b, at + 4)
}

/// The unsigned number with the same 64 bits as `n` in two's complement.
pub open spec fn twos(n: i64) -> nat {
    if n >= 0 {
        n as nat
    } else {
        (n + 0x1_0000_0000_0000_0000) as nat
    }
}

/// The signed number with the same 64 bits as `u`, for `u < 2^64`.
pub open spec fn untwos(u: nat) -> i64 {
    if u < 0x8000_0000_0000_0000 {
        u as i64
    } else {
        (u - 0x1_0000_0000_0000_0000) as i64
    }
}

/// Where `whole` stands in `b` at `at`, each part of `whole` stands in `b`
/// at its place.
pub proof fn lemma_part(b: Seq<u8>, at: int, whole: Seq<u8>, from: int, to: int)
    requires
        0 <= at,
        at + whole.len() <= b.len(),
        b.subrange(at, at + whole.len()) == whole,
        0 <= from <= to <= whole.len(),
    ensures
        b.subrange(at + from, at + to) == whole.subrange(from, to),
{
    let inner = b.subrange(at, at + whole.len());
    assert forall|k: int| 0 <= k < to - from implies b.subrange(at + from, at + to)[k]
        == whole.subrange(from, to)[k] by {
        assert(inner[from + k] == b[at + from + k]);
    }
    assert(b.subrange(at + from, at + to) =~= whole.subrange(from, to));
}

/// Reading back what `le16` wrote gives the number.
pub proof fn lemma_read16_le16(b: Seq<u8>, at: int, n: nat)
    requires
        n < 0x1_0000,
        0 <= at,
        at + 2 <= b.len(),
        b.subrange(at, at + 2) == le16(n),
    ensures
        read16(b, at) == n,
{
    let w = b.subrange(at, at + 2);
    assert(b[at] == w[0]);
    assert(b[at + 1] == w[1]);
}

/// Reading back what `le32` wrote gives the number.
pub proof fn lemma_read32_le32(b: Seq<u8>, at: int, n: nat)
    requires
        n < 0x1_0000_0000,
        0 <= at,
        at + 4 <= b.len(),
        b.subrange(at, at + 4) == le32(n),
    ensures
        read32(b, at) == n,
{
    let w = b.subrange(at, at + 4);
    assert(b[at] == w[0]);
    assert(b[at + 1] == w[1]);
    assert(b[at + 2] == w[2]);
    assert(b[at + 3] == w[3]);
}

/// Reading back what `le64` wrote gives the number.
pub proof fn lemma_read64_le64(b: Seq<u8>, at: int, n: nat)
    requires
        n < 0x1_0000_0000_0000_0000,
        0 <= at,
        at + 8 <= b.len(),
        b.subrange(at, at + 8) == le64(n),
    ensures
        read64(b, at) == n,
{
    let w = b.subrange(at, at + 8);
    let low = le32(n % 0x1_0000_0000);
    let high = le32(n / 0x1_0000_0000);
    assert(b.subrange(at, at + 4) =~= low) by {
        assert(b[at] == w[0] && b[at + 1] == w[1] && b[at + 2] == w[2] && b[at + 3] == w[3]);
    }
    assert(b.subrange(at + 4, at + 8) =~= high) by {
        assert(b[at + 4] == w[4] && b[at + 5] == w[5] && b[at + 6] == w[6] && b[at + 7] == w[7]);
    }
    lemma_read32_le32(b, at, n % 0x1_0000_0000);
    lemma_read32_le32(b, at + 4, n / 0x1_0000_0000);
}

/// Two's complement loses nothing.
pub proof fn lemma_untwos_twos(n: i64)
    ensures
        twos(n) < 0x1_0000_0000_0000_0000,
        untwos(twos(n)) == n,
{
}

/// Appends `src` to `buf`.
pub fn put_bytes(buf: &mut Vec<u8>, src: &[u8])
    ensures
        final(buf)@ == old(buf)@ + src@,
{
    buf.extend_from_slice(src);
    assert(buf@ =~= old(buf)@ + src@);
}

/// Appends the two little-endian bytes of `x`.
pub fn put_u16(buf: &mut Vec<u8>, x: u16)
    ensures
        final(buf)@ == old(buf)@ + le16(x as nat),
{
    buf.push((x % 256) as u8);
    buf.push((x / 256 % 256) as u8);
    assert(buf@ =~= old(buf)@ + le16(x as nat));
}

/// Appends the four little-endian bytes of `x`.
pub fn put_u32(buf: &mut Vec<u8>, x: u32)
    ensures
        final(buf)@ == old(buf)@ + le32(x as nat),
{
    buf.push((x % 256) as u8);
    buf.push((x / 256 % 256) as u8);
    buf.push((x / 256 / 256 % 256) as u8);
    buf.push((x / 256 / 256 / 256 % 256) as u8);
    assert(buf@ =~= old(buf)@ + le32(x as nat));
}

/// Appends the eight little-endian bytes of `x`.
pub fn put_u64(buf: &mut Vec<u8>, x: u64)
    ensures
        final(buf)@ == old(buf)@ + le64(x as nat),
{
    let low: u32 = (x % 0x1_0000_0000) as u32;
    let high: u32 = (x / 0x1_0000_0000) as u32;
    put_u32(buf, low);
    put_u32(buf, high);
    assert(buf@ =~= old(buf)@ + le64(x as nat));
}

/// Appends the eight little-endian bytes of `n` in two's complement.
pub fn put_i64(buf: &mut Vec<u8>, n: i64)
    ensures
        final(buf)@ == old(buf)@ + le64(twos(n)),
{
    let bits: u64 = if n >= 0 {
        n as u64
    } else {
        (n - i64::MIN) as u64 + 0x8000_0000_0000_0000u64
    };
    put_u64(buf, bits);
}

/// Reads the little-endian `u16` at `at`.
pub fn get_u16(b: &[u8], at: usize) -> (x: u16)
    requires
        at + 2 <= b@.len(),
    ensures
        x == read16(b@, at as int),
{
    let b0: u16 = b[at] as u16;
    let b1: u16 = b[at + 1] as u16;
    b0 + 256 * b1
}

/// Reads the little-endian `u32` at `at`.
pub fn get_u32(b: &[u8], at: usize) -> (x: u32)
    requires
        at + 4 <= b@.len(),
    ensures
        x == read32(b@, at as int),
{
    let b0: u32 = b[at] as u32;
    let b1: u32 = b[at + 1] as u32;
    let b2: u32 = b[at + 2] as u32;
    let b3: u32 = b[at + 3] as u32;
    b0 + 256 * (b1 + 256 * (b2 + 256 * b3))
}

/// Reads the little-endian `u64` at `at`.
pub fn get_u64(b: &[u8], at: usize) -> (x: u64)
    requires
        at + 8 <= b@.len(),
    ensures
        x == read64(b@, at as int),
{
    let len: usize = b.len();
    assert(at + 8 <= len);
    let low: u64 = get_u32(b, at) as u64;
    let high: u64 = get_u32(b, at + 4) as u64;
    low + 0x1_0000_0000 * high
}

/// Reads the little-endian two's-complement `i64` at `at`.
pub fn get_i64(b: &[u8], at: usize) -> (n: i64)
    requires
        at + 8 <= b@.len(),
    ensures
        n == untwos(read64(b@, at as int)),
{
    let bits: u64 = get_u64(b, at);
    if bits < 0x8000_0000_0000_0000u64 {
        bits as i64
    } else {
        (bits - 0x8000_0000_0000_0000u64) as i64 + i64::MIN
    }
}

} // verus!
