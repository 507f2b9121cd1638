//! Little-endian fixed-width integers inside byte streams.
use vstd::prelude::*;

verus! {

/// The 4 little-endian bytes of `x`.
pub open spec fn le32_bytes(x: u32) -> Seq<u8> {
    seq![(x % 256) as u8, ((x / 256) % 256) as u8, ((x / 65536) % 256) as u8, (x / 16777216) as u8]
}

/// The number that 4 little-endian bytes starting at `off` denote.
pub open spec fn le32_at(s: Seq<u8>, off: int) -> u32 {
    (s[off] + 256 * s[off + 1] + 65536 * s[off + 2] + 16777216 * s[off + 3]) as u32
}

/// Reading 4 bytes at `off` is reading 4 bytes at the start of the suffix from `off`.
pub proof fn lemma_le32_at_suffix(s: Seq<u8>, off: int)
    requires
        0 <= off,
        off + 4 <= s.len(),
    ensures
        le32_at(s.subrange(off, s.len() as int), 0) == le32_at(s, off),
{
    let r = s.subrange(off, s.len() as int);
    assert(r[0] == s[off] && r[1] == s[off + 1] && r[2] == s[off + 2] && r[3] == s[off + 3]);
}

/// The 8 little-endian bytes of `x`.
pub open spec fn le64_bytes(x: u64) -> Seq<u8> {
    le32_bytes((x % 0x1_0000_0000) as u32) + le32_bytes((x / 0x1_0000_0000) as u32)
}

/// The number that 8 little-endian bytes starting at `off` denote.
pub open spec fn le64_at(s: Seq<u8>, off: int) -> u64 {
    (le32_at(s, off) + 0x1_0000_0000 * le32_at(s, off + 4)) as u64
}

/// The 2 little-endian bytes of `x`.
pub open spec fn le16_bytes(x: u16) -> Seq<u8> {
    seq![(x % 256) as u8, (x / 256) as u8]
}

/// The number that 2 little-endian bytes starting at `off` denote.
pub open spec fn le16_at(s: Seq<u8>, off: int) -> u16 {
    (s[off] + 256 * s[off + 1]) as u16
}

pub proof fn lemma_le32_roundtrip(x: u32, pre: Seq<u8>, post: Seq<u8>)
    ensures
        le32_at(pre + le32_bytes(x) + post, pre.len() as int) == x,
        le32_bytes(x).len() == 4,
{
    let s = pre + le32_bytes(x) + post;
    let p = pre.len() as int;
    assert(s[p] == (x % 256) as u8);
    assert(s[p + 1] == ((x / 256) % 256) as u8);
    assert(s[p + 2] == ((x / 65536) % 256) as u8);
    assert(s[p + 3] == (x / 16777216) as u8);
}

pub proof fn lemma_le64_roundtrip(x: u64, pre: Seq<u8>, post: Seq<u8>)
    ensures
        le64_at(pre + le64_bytes(x) + post, pre.len() as int) == x,
        le64_bytes(x).len() == 8,
{
    let lo = (x % 0x1_0000_0000) as u32;
    let hi = (x / 0x1_0000_0000) as u32;
    assert(pre + le64_bytes(x) + post =~= pre + le32_bytes(lo) + (le32_bytes(hi) + post));
    lemma_le32_roundtrip(lo, pre, le32_bytes(hi) + post);
    assert(pre + le64_bytes(x) + post =~= (pre + le32_bytes(lo)) + le32_bytes(hi) + post);
    lemma_le32_roundtrip(hi, pre + le32_bytes(lo), post);
}

pub proof fn lemma_le16_roundtrip(x: u16, pre: Seq<u8>, post: Seq<u8>)
    ensures
        le16_at(pre + le16_bytes(x) + post, pre.len() as int) == x,
        le16_bytes(x).len() == 2,
{
    let s = pre + le16_bytes(x) + post;
    let p = pre.len() as int;
    assert(s[p] == (x % 256) as u8);
    assert(s[p + 1] == (x / 256) as u8);
}

/// Append the 4 little-endian bytes of `x`.
pub fn push_u32_le(out: &mut Vec<u8>, x: u32)
    ensures
        final(out)@ == old(out)@ + le32_bytes(x),
{
    let b0 = (x & 0xff) as u8;
    let b1 = ((x >> 8u32) & 0xff) as u8;
    let b2 = ((x >> 16u32) & 0xff) as u8;
    let b3 = (x >> 24u32) as u8;
    assert(b0 == x % 256 && b1 == (x / 256) % 256 && b2 == (x / 65536) % 256 && b3 == x / 16777216)
        by (bit_vector)
        requires
            b0 == (x & 0xff) as u8,
            b1 == ((x >> 8u32) & 0xff) as u8,
            b2 == ((x >> 16u32) & 0xff) as u8,
            b3 == (x >> 24u32) as u8,
    ;
    out.push(b0);
    out.push(b1);
    out.push(b2);
    out.push(b3);
    assert(final(out)@ =~= old(out)@ + le32_bytes(x));
}

/// Append the 8 little-endian bytes of `x`.
pub fn push_u64_le(out: &mut Vec<u8>, x: u64)
    ensures
        final(out)@ == old(out)@ + le64_bytes(x),
{
    let lo = (x & 0xffff_ffff) as u32;
    let hi = (x >> 32u64) as u32;
    assert(lo == x % 0x1_0000_0000 && hi == x / 0x1_0000_0000) by (bit_vector)
        requires
            lo == (x & 0xffff_ffff) as u32,
            hi == (x >> 32u64) as u32,
    ;
    push_u32_le(out, lo);
    push_u32_le(out, hi);
    assert(final(out)@ =~= old(out)@ + le64_bytes(x));
}

/// Append the 2 little-endian bytes of `x`.
pub fn push_u16_le(out: &mut Vec<u8>, x: u16)
    ensures
        final(out)@ == old(out)@ + le16_bytes(x),
{
    let b0 = (x & 0xff) as u8;
    let b1 = (x >> 8u16) as u8;
    assert(b0 == x % 256 && b1 == x / 256) by (bit_vector)
        requires
            b0 == (x & 0xff) as u8,
            b1 == (x >> 8u16) as u8,
    ;
    out.push(b0);
    out.push(b1);
    assert(final(out)@ =~= old(out)@ + le16_bytes(x));
}

/// Read 4 little-endian bytes at `off`.
pub fn read_u32_le(d: &[u8], off: usize) -> (x: u32)
    requires
        off + 4 <= d@.len(),
    ensures
        x == le32_at(d@, off as int),
{
    let b0 = d[off] as u32;
    let b1 = d[off + 1] as u32;
    let b2 = d[off + 2] as u32;
    let b3 = d[off + 3] as u32;
    b0 + 256 * b1 + 65536 * b2 + 16777216 * b3
}

/// Read 8 little-endian bytes at `off`.
pub fn read_u64_le(d: &[u8], off: usize) -> (x: u64)
    requires
        off + 8 <= d@.len(),
    ensures
        x == le64_at(d@, off as int),
{
    let _n = d.len();
    let lo = read_u32_le(d, off) as u64;
    let hi = read_u32_le(d, off + 4) as u64;
    lo + 0x1_0000_0000 * hi
}

/// Read 2 little-endian bytes at `off`.
pub fn read_u16_le(d: &[u8], off: usize) -> (x: u16)
    requires
        off + 2 <= d@.len(),
    ensures
        x == le16_at(d@, off as int),
{
    let b0 = d[off] as u16;
    let b1 = d[off + 1] as u16;
    b0 + 256 * b1
}

} // verus!
