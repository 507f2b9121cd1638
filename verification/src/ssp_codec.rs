//! SSP codec: bytes are cut into big-endian blocks, and each block value is
//! written as a super-symbol of a special sequence `S` (SYM), as raw bits
//! (RAW) or as ZERO; runs of zeros, runs of one raw value and the most
//! frequent super-symbol get short tags. The tag stream is then bit-packed,
//! range-coded or Huffman-coded, whichever is smallest.
//!
//! Archive: `"SSP5"`, version, flags (bit 0 delta, bit 1 RLE, bit 2 MFS,
//! bit 3 odd-bit separation, bit 6 Huffman, bit 7 range coding), block bits,
//! ULEB `m`, `r`, data length and block count, the MFS value when used, then
//! the body.
use crate::bit_io::{bits_of, bytes_bits, pad_bits, uleb_fits_at, uleb_bytes, uleb_complete, uleb_encode, uleb_safe, uleb_span, uleb_value, read_uleb_at, BitReader, BitWriter, reader_len_ok};
use crate::le::{le32_at, push_u16_le, push_u32_le, read_u16_le, read_u32_le};
use crate::lz77::take_bits;
use crate::mtf::slice_range;
use crate::range_coder::{RangeDecoder, RangeEncoder, MAX_PENDING, MAX_POS, MAX_TOTAL};
use crate::sort::{key_order, sort_by_keys};
use crate::symbols::{build_lut, find_symbol, found_ok, lut_entry_ok, lut_ok, sums_fit, symbol_value, unrank_symbol};
use std::collections::HashMap;
use vstd::prelude::*;

verus! {

broadcast use vstd::std_specs::hash::group_hash_axioms;

/// Magic bytes of an SSP archive.
pub const SSP5_MAGIC: [u8; 4] = [0x53, 0x53, 0x50, 0x35];

/// Archive format version.
pub const SSP5_VERSION: u8 = 3;

/// The archive magic as a sequence.
pub open spec fn magic_seq() -> Seq<u8> {
    seq![0x53u8, 0x53u8, 0x50u8, 0x35u8]
}

/// Header of an archive: magic, version, flags, block bits, then the ULEB
/// fields `m = 1`, `r = 1`, data length and block count.
pub open spec fn header_bytes(flags: u8, block_bits: u8, len: nat, blocks: nat) -> Seq<u8> {
    magic_seq() + seq![SSP5_VERSION, flags, block_bits] + uleb_bytes(1) + uleb_bytes(1) + uleb_bytes(len)
        + uleb_bytes(blocks)
}

/// Number of `bytes`-byte blocks covering `len` bytes.
pub open spec fn blocks_for(len: nat, bytes: nat) -> nat {
    if bytes == 0 {
        0
    } else {
        ((len + bytes - 1) as nat / bytes) as nat
    }
}

fn push_uleb(out: &mut Vec<u8>, x: u64)
    ensures
        final(out)@ == old(out)@ + uleb_bytes(x as nat),
{
    let v = uleb_encode(x);
    out.extend_from_slice(v.as_slice());
}

/// Number of bytes of the ULEB128 form of `x`.
fn uleb_size(x: u64) -> (n: u64)
    ensures
        n == uleb_bytes(x as nat).len(),
        1 <= n <= 10,
{
    let mut len: u64 = 1;
    let mut v = x;
    proof {
        crate::bit_io::lemma_uleb_len(x as nat);
        vstd::arithmetic::power2::lemma2_to64_rest();
    }
    while v >= 0x80
        invariant
            len + uleb_bytes(v as nat).len() - 1 == uleb_bytes(x as nat).len(),
            1 <= len <= 10,
            uleb_bytes(x as nat).len() <= 10,
        decreases v,
    {
        let ghost old_v = v;
        v = v >> 7;
        assert(v == old_v / 128) by (bit_vector)
            requires
                v == old_v >> 7,
        ;
        assert(uleb_bytes(old_v as nat) == seq![(old_v % 128 + 128) as u8] + uleb_bytes(v as nat));
        len = len + 1;
    }
    len
}

/// Read a ULEB128 number at the start of `data`: (value, bytes read).
fn uleb_decode_all(data: &[u8]) -> (r: Result<(u64, usize), &'static str>)
    requires
        uleb_safe(data@),
    ensures
        r is Ok <==> uleb_complete(data@),
        r is Ok ==> r->Ok_0.0 as nat == uleb_value(data@) && r->Ok_0.1 == uleb_span(data@),
        r is Ok ==> r->Ok_0.1 <= data@.len(),
{
    assert(data@.subrange(0, data@.len() as int) =~= data@);
    let (v, pos, done) = read_uleb_at(data, 0);
    proof {
        crate::bit_io::lemma_uleb_span_bound(data@);
    }
    if done {
        Ok((v, pos))
    } else {
        Err("ULEB: incomplete")
    }
}

/// Archive of empty data.
fn encode_empty(block_bits: usize) -> (out: Vec<u8>)
    ensures
        out@ == header_bytes(0, block_bits as u8, 0, 0),
{
    let mut out: Vec<u8> = Vec::new();
    out.push(SSP5_MAGIC[0]);
    out.push(SSP5_MAGIC[1]);
    out.push(SSP5_MAGIC[2]);
    out.push(SSP5_MAGIC[3]);
    out.push(SSP5_VERSION);
    out.push(0);
    out.push(block_bits as u8);
    push_uleb(&mut out, 1);
    push_uleb(&mut out, 1);
    push_uleb(&mut out, 0);
    push_uleb(&mut out, 0);
    assert(out@ =~= header_bytes(0, block_bits as u8, 0, 0));
    out
}

// ───────────────────────────── blocks ─────────────────────────────

/// Big-endian value of bytes.
pub open spec fn be_value(b: Seq<u8>) -> nat
    decreases b.len(),
{
    if b.len() == 0 {
        0
    } else {
        be_value(b.drop_last()) * 256 + b.last() as nat
    }
}

/// Byte `i` of `d`, 0 past its end.
pub open spec fn byte_or0(d: Seq<u8>, i: int) -> u8 {
    if 0 <= i < d.len() {
        d[i]
    } else {
        0
    }
}

/// Block `i` of `d` (zero-padded), `bytes` bytes, big-endian.
pub open spec fn block_value(d: Seq<u8>, bytes: nat, i: int) -> nat {
    be_value(Seq::new(bytes, |t: int| byte_or0(d, i * bytes + t)))
}

/// Value of block `i` as coded: with subtraction-delta (modulo `2^bits`)
/// against the previous block when `delta` is set.
pub open spec fn block_val_at(d: Seq<u8>, bytes: nat, bits: nat, delta: bool, i: int) -> u64 {
    let n = block_value(d, bytes, i);
    if delta {
        let p = if i == 0 { 0 } else { block_value(d, bytes, i - 1) };
        ((n - p) % vstd::arithmetic::power2::pow2(bits) as int) as u64
    } else {
        n as u64
    }
}

/// The first `k` coded block values.
pub open spec fn block_vals(d: Seq<u8>, bytes: nat, bits: nat, delta: bool, k: nat) -> Seq<u64> {
    Seq::new(k, |i: int| block_val_at(d, bytes, bits, delta, i))
}

/// Subtraction modulo `2^b` by wrapping subtraction and masking.
proof fn lemma_delta_mask(n: u64, p: u64, w: u64, b: nat)
    requires
        b < 64,
        w == (if n - p < 0 { n - p + 0x1_0000_0000_0000_0000 } else { n - p }),
    ensures
        w & (vstd::bits::low_bits_mask(b) as u64) == ((n - p) % vstd::arithmetic::power2::pow2(b) as int) as u64,
        ((n - p) % vstd::arithmetic::power2::pow2(b) as int) < vstd::arithmetic::power2::pow2(b),
{
    vstd::bits::lemma_u64_low_bits_mask_is_mod(w, b);
    vstd::arithmetic::power2::lemma_pow2_pos(b);
    vstd::arithmetic::power2::lemma_pow2_adds(b, (64 - b) as nat);
    vstd::arithmetic::power2::lemma2_to64_rest();
    vstd::arithmetic::power2::lemma_pow2_pos((64 - b) as nat);
    let m = vstd::arithmetic::power2::pow2(b) as int;
    let q = vstd::arithmetic::power2::pow2((64 - b) as nat) as int;
    assert(b + (64 - b) as nat == 64);
    assert(m * q == 0x1_0000_0000_0000_0000);
    vstd::arithmetic::power2::lemma_pow2_strictly_increases(b, 64);
    assert(w % (m as u64) == w as int % m);
    if n - p < 0 {
        assert(w == m * q + (n - p));
        vstd::arithmetic::div_mod::lemma_mod_multiples_vanish(q, n - p, m);
    }
    assert(w as int % m == (n - p) % m);
    vstd::arithmetic::div_mod::lemma_mod_bound(n - p, m);
}

proof fn lemma_be_bound(b: Seq<u8>)
    ensures
        be_value(b) < vstd::arithmetic::power2::pow2(8 * b.len()),
    decreases b.len(),
{
    vstd::arithmetic::power2::lemma2_to64();
    if b.len() > 0 {
        lemma_be_bound(b.drop_last());
        vstd::arithmetic::power2::lemma_pow2_adds(8 * (b.len() - 1) as nat, 8);
    }
}

/// Value of block `bi`.
fn read_block(data: &[u8], bytes: usize, bi: usize) -> (n: u64)
    requires
        1 <= bytes <= 7,
        bi * bytes + bytes <= usize::MAX,
    ensures
        n == block_value(data@, bytes as nat, bi as int),
        n < vstd::arithmetic::power2::pow2(8 * bytes as nat),
{
    let ghost blk = Seq::new(bytes as nat, |t: int| byte_or0(data@, bi * bytes + t));
    let start = bi * bytes;
    let mut n: u64 = 0;
    let mut t: usize = 0;
    proof {
        vstd::arithmetic::power2::lemma2_to64();
        assert(blk.subrange(0, 0) =~= Seq::<u8>::empty());
    }
    while t < bytes
        invariant
            1 <= bytes <= 7,
            start == bi * bytes,
            start + bytes <= usize::MAX,
            t <= bytes,
            blk == Seq::new(bytes as nat, |t: int| byte_or0(data@, bi * bytes + t)),
            n == be_value(blk.subrange(0, t as int)),
            n < vstd::arithmetic::power2::pow2(8 * t as nat),
        decreases bytes - t,
    {
        let b: u8 = if start + t < data.len() {
            data[start + t]
        } else {
            0
        };
        proof {
            assert(blk.subrange(0, t + 1).drop_last() =~= blk.subrange(0, t as int));
            vstd::arithmetic::power2::lemma_pow2_adds(8 * t as nat, 8);
            vstd::arithmetic::power2::lemma2_to64();
            vstd::arithmetic::power2::lemma_pow2_strictly_increases(8 * (t + 1) as nat, 64);
        }
        n = n * 256 + b as u64;
        t = t + 1;
    }
    assert(blk.subrange(0, bytes as int) =~= blk);
    n
}

// ───────────────────────────── phase A: block symbols ─────────────────────────────

/// Tags of the symbol stream.
pub const TAG_SYM: u8 = 0;

pub const TAG_RAW: u8 = 1;

pub const TAG_ZERO: u8 = 2;

pub const TAG_ZERO_RLE: u8 = 3;

pub const TAG_MFS: u8 = 4;

pub const TAG_RAW_RLE: u8 = 5;

/// A block symbol fits the block value `v`: ZERO exactly for 0, RAW carries
/// `v`, and SYM only stands for nonzero values.
pub open spec fn sym_fits(sym: (u8, u64), v: u64) -> bool {
    &&& (v == 0) == (sym.0 == TAG_ZERO)
    &&& sym.0 == TAG_ZERO ==> sym.1 == 0
    &&& sym.0 == TAG_RAW ==> sym.1 == v
    &&& sym.0 <= TAG_ZERO
}

/// Largest sequence length the SSP codec takes (super-symbol indices then
/// stay below 2^62).
pub const MAX_S_LEN: usize = 0x8000_0000;

proof fn lemma_rank_bound(sum: bool, i: int, j: int)
    requires
        1 <= j <= i < 0x8000_0000,
    ensures
        0 <= crate::symbols::rank_of(sum, i, j) < 0x4000_0001_0000_0000,
{
    assert((i - 1) * (i - 1) < 0x4000_0000_0000_0000) by (nonlinear_arith)
        requires
            1 <= i < 0x8000_0000,
    ;
    assert((i - 1) * (i - 1) >= 0) by (nonlinear_arith);
}

/// Whether a SYM payload (tag bits plus its ULEB bytes) costs no more bits
/// than a raw block of `raw_bits` bits.
fn cost_ok(payload: u64, odd_sep: bool, raw_bits: u64) -> (b: bool)
    ensures
        b == ((if odd_sep { 3int } else { 2int }) + uleb_bytes(payload as nat).len() * 8 <= raw_bits),
{
    let ub = uleb_size(payload);
    let cost = if odd_sep {
        3 + ub * 8
    } else {
        2 + ub * 8
    };
    cost <= raw_bits
}

/// No value of `s` is zero.
pub open spec fn zero_free(s: Seq<u64>) -> bool {
    forall|t: int| 0 <= t < s.len() ==> #[trigger] s[t] != 0
}

/// A SYM symbol's packed payload names the block value `v` over `s` (other
/// symbols carry it directly or are zero).
pub open spec fn sym_decodes(sym: (u8, u64), v: u64, s: Seq<u64>) -> bool {
    sym.0 == TAG_SYM ==> sym_payload_value(sym.1, s, false) == v
}

/// Blocks whose SYM payloads are read back as packed indices: below 32 bits,
/// and either through the lookup table (up to 16 bits) or a sequence without
/// zeros.
pub open spec fn packed_syms_exact(block_bits: nat, s: Seq<u64>) -> bool {
    block_bits < 32 && (block_bits <= 16 || zero_free(s))
}

/// Every SYM symbol of `syms` names its block's coded value over `s`.
pub open spec fn syms_decode(syms: Seq<(u8, u64)>, d: Seq<u8>, bb: nat, delta: bool, s: Seq<u64>) -> bool {
    forall|i: int|
        0 <= i < syms.len() ==> sym_decodes(#[trigger] syms[i], block_vals(d, bb / 8, bb, delta, syms.len())[i], s)
}

/// A packed index `k * 2 + odd` decodes to `v` when `k` is 0 and `v` is the
/// odd bit, or super-symbol `k` stands for `v - odd`.
proof fn lemma_packed_decodes(pk: u64, k: u64, odd: u64, v: u64, s: Seq<u64>)
    requires
        odd <= 1,
        pk == k * 2 + odd,
        (k == 0 && v == odd) || (k >= 1 && odd <= v && symbol_value(k as int, s) == Some((v - odd) as int)),
    ensures
        sym_payload_value(pk, s, false) == v,
{
    assert(pk >> 1u64 == k && pk & 1u64 == odd) by (bit_vector)
        requires
            odd <= 1,
            pk == k * 2 + odd,
    ;
}

/// A super-symbol found for `n` in a sequence without zeros stands for `n`.
proof fn lemma_found_decodes(n: u64, s: Seq<u64>, k: u64, op: &str, i: u64, j: u64)
    requires
        zero_free(s),
        found_ok(n, s, (k, op, i, j)),
    ensures
        k >= 1,
        symbol_value(k as int, s) == Some(n as int),
{
    let sum = crate::symbols::is_sum_op(op);
    crate::symbols::law_rank_unrank(sum, i as int, j as int);
    assert(s[j - 1] != 0);
    let u = crate::symbols::unrank_spec(k as int);
    if i == 1 {
        assert(sum);
        assert((i as int - 1) * (i as int - 1) == 0) by (nonlinear_arith)
            requires
                i == 1,
        ;
        assert(j == 1);
        assert(k == 1);
    }
    assert(u == (sum, i as int, j as int));
    if sum {
        assert(symbol_value(k as int, s) == Some(s[i - 1] + s[j - 1]));
    } else {
        assert(crate::symbols::is_diff_op(op));
        assert(s[i - 1] >= n);
        assert(symbol_value(k as int, s) == Some(s[i - 1] - s[j - 1]));
    }
}

/// Phase A: one symbol per block.
fn block_symbols(data: &[u8], s: &[u64], block_bits: usize, delta: bool, num_blocks: usize) -> (syms: Vec<(u8, u64)>)
    requires
        8 <= block_bits <= 63,
        num_blocks == blocks_for(data@.len(), (block_bits / 8) as nat),
        data@.len() <= u32::MAX,
        data@.len() + 8 <= usize::MAX,
        s@.len() < MAX_S_LEN,
        sums_fit(s@),
    ensures
        syms@.len() == num_blocks,
        forall|i: int|
            0 <= i < num_blocks ==> sym_fits(
                #[trigger] syms@[i],
                block_vals(data@, (block_bits / 8) as nat, block_bits as nat, delta, num_blocks as nat)[i],
            ),
        packed_syms_exact(block_bits as nat, s@) ==> forall|i: int|
            0 <= i < num_blocks ==> sym_decodes(
                #[trigger] syms@[i],
                block_vals(data@, (block_bits / 8) as nat, block_bits as nat, delta, num_blocks as nat)[i],
                s@,
            ),
{
    let bytes = block_bits / 8;
    let bb = block_bits as u64;
    proof {
        vstd::arithmetic::power2::lemma_pow2_pos(bb as nat);
        vstd::arithmetic::power2::lemma2_to64_rest();
        vstd::arithmetic::power2::lemma_pow2_strictly_increases(bb as nat, 64);
        vstd::bits::lemma_u64_shl_is_mul(1, bb);
    }
    let max_block_val = (1u64 << bb) - 1;
    assert(max_block_val == vstd::bits::low_bits_mask(bb as nat) as u64);
    let use_odd_sep = block_bits >= 32;
    let raw_bits = 2 + bb;
    let lut = build_lut(s, block_bits);
    let ghost vals = block_vals(data@, bytes as nat, block_bits as nat, delta, num_blocks as nat);
    let mut syms: Vec<(u8, u64)> = Vec::new();
    let mut prev_n: u64 = 0;
    let mut bi: usize = 0;
    while bi < num_blocks
        invariant
            8 <= block_bits <= 63,
            bytes == block_bits / 8,
            1 <= bytes <= 7,
            num_blocks == blocks_for(data@.len(), bytes as nat),
            data@.len() <= u32::MAX,
            data@.len() + 8 <= usize::MAX,
            bi <= num_blocks,
            syms@.len() == bi,
            forall|i: int| 0 <= i < bi ==> sym_fits(#[trigger] syms@[i], vals[i]),
            packed_syms_exact(block_bits as nat, s@) ==> forall|i: int|
                0 <= i < bi ==> sym_decodes(#[trigger] syms@[i], vals[i], s@),
            lut_ok(lut@, s@, block_bits as nat),
            s@.len() < MAX_S_LEN,
            sums_fit(s@),
            bb == block_bits,
            max_block_val == vstd::bits::low_bits_mask(bb as nat) as u64,
            vals == block_vals(data@, bytes as nat, block_bits as nat, delta, num_blocks as nat),
            delta ==> prev_n == (if bi == 0 { 0 } else { block_value(data@, bytes as nat, bi - 1) }),
            use_odd_sep == (block_bits >= 32),
            raw_bits == 2 + bb,
        decreases num_blocks - bi,
    {
        proof {
            assert(bi * bytes + bytes <= (num_blocks as int) * bytes) by (nonlinear_arith)
                requires
                    bi < num_blocks,
                    bytes >= 1,
            ;
            assert(num_blocks * bytes <= data@.len() + bytes) by (nonlinear_arith)
                requires
                    num_blocks == (data@.len() + bytes - 1) / (bytes as int),
                    bytes >= 1,
            ;
        }
        let n = read_block(data, bytes, bi);
        let val = if delta {
            let w = n.wrapping_sub(prev_n);
            proof {
                lemma_delta_mask(n, prev_n, w, bb as nat);
            }
            let d = w & max_block_val;
            prev_n = n;
            d
        } else {
            n
        };
        assert(val == vals[bi as int]);
        let sym: (u8, u64) = if val == 0 {
            (TAG_ZERO, 0)
        } else if block_bits <= 16 {
            match lut.get(&val) {
                Some(pk) => {
                    proof {
                        assert(lut_entry_ok(val, *pk, s@, block_bits as nat));
                        let k = (*pk / 2) as u64;
                        let o = (*pk % 2) as u64;
                        lemma_packed_decodes(*pk, k, o, val, s@);
                    }
                    (TAG_SYM, *pk)
                },
                None => (TAG_RAW, val),
            }
        } else {
            let odd = val & 1;
            assert(val & 1 <= val && val & 1 <= 1) by (bit_vector);
            let search_val = val - odd;
            if search_val == 0 && odd == 1 && use_odd_sep && 11 <= raw_bits {
                (TAG_SYM, odd << 32u64)
            } else if search_val == 0 && odd == 1 && !use_odd_sep {
                proof {
                    lemma_packed_decodes(1, 0, 1, val, s@);
                }
                (TAG_SYM, 1)
            } else {
                let mut r: (u8, u64) = (TAG_RAW, val);
                if search_val > 0 {
                    match find_symbol(search_val, s, None) {
                        Some((k, op, i, j)) => {
                            proof {
                                lemma_rank_bound(crate::symbols::is_sum_op(op), i as int, j as int);
                            }
                            let payload = if use_odd_sep {
                                k
                            } else {
                                k * 2 + odd
                            };
                            proof {
                                if packed_syms_exact(block_bits as nat, s@) {
                                    lemma_found_decodes(search_val, s@, k, op, i, j);
                                    lemma_packed_decodes(payload, k, odd, val, s@);
                                }
                            }
                            if cost_ok(payload, use_odd_sep, raw_bits) {
                                r = if use_odd_sep {
                                    (TAG_SYM, (odd << 32u64) | k)
                                } else {
                                    (TAG_SYM, k * 2 + odd)
                                };
                            }
                        },
                        None => {},
                    }
                }
                r
            }
        };
        syms.push(sym);
        bi = bi + 1;
    }
    syms
}


// ───────────────────────────── phase B: short forms ─────────────────────────────

/// Number of SYM entries with value `v` among the first `k` symbols.
pub open spec fn sym_count(syms: Seq<(u8, u64)>, v: u64, k: int) -> nat
    decreases k,
{
    if k <= 0 {
        0
    } else {
        sym_count(syms, v, k - 1) + if syms[k - 1] == (TAG_SYM, v) { 1nat } else { 0nat }
    }
}

proof fn lemma_sym_count_bound(syms: Seq<(u8, u64)>, v: u64, k: int)
    ensures
        sym_count(syms, v, k) <= if k < 0 { 0 } else { k },
    decreases k,
{
    if k > 0 {
        lemma_sym_count_bound(syms, v, k - 1);
    }
}

/// The most frequent SYM value, when it occurs at least 8 times: `m` is
/// `Some(v)` for a value of largest count (at least 8), `None` when every
/// SYM value occurs fewer than 8 times.
pub open spec fn mfs_ok(syms: Seq<(u8, u64)>, m: Option<u64>) -> bool {
    let n = syms.len() as int;
    match m {
        Some(v) => {
            &&& sym_count(syms, v, n) >= 8
            &&& forall|i: int|
                0 <= i < n && (#[trigger] syms[i]).0 == TAG_SYM ==> sym_count(syms, syms[i].1, n) <= sym_count(
                    syms,
                    v,
                    n,
                )
        },
        None => forall|i: int| 0 <= i < n && (#[trigger] syms[i]).0 == TAG_SYM ==> sym_count(syms, syms[i].1, n) < 8,
    }
}

/// SYM value counts.
fn count_syms(syms: &Vec<(u8, u64)>) -> (m: HashMap<u64, u64>)
    ensures
        forall|v: u64| #[trigger] m@.contains_key(v) <==> sym_count(syms@, v, syms@.len() as int) > 0,
        forall|v: u64| #[trigger] m@.contains_key(v) ==> m@[v] == sym_count(syms@, v, syms@.len() as int),
{
    let mut m: HashMap<u64, u64> = HashMap::new();
    let mut i: usize = 0;
    while i < syms.len()
        invariant
            i <= syms@.len(),
            forall|v: u64| #[trigger] m@.contains_key(v) <==> sym_count(syms@, v, i as int) > 0,
            forall|v: u64| #[trigger] m@.contains_key(v) ==> m@[v] == sym_count(syms@, v, i as int),
        decreases syms@.len() - i,
    {
        let (tag, val) = syms[i];
        proof {
            lemma_sym_count_bound(syms@, val, i as int);
        }
        if tag == TAG_SYM {
            let c: u64 = match m.get(&val) {
                Some(c) => *c,
                None => 0,
            };
            m.insert(val, c + 1);
        }
        proof {
            assert forall|v: u64| #[trigger] m@.contains_key(v) <==> sym_count(syms@, v, i + 1) > 0 by {
                assert(sym_count(syms@, v, i + 1) == sym_count(syms@, v, i as int) + if syms@[i as int] == (
                TAG_SYM, v) { 1nat } else { 0nat });
            }
            assert forall|v: u64| #[trigger] m@.contains_key(v) implies m@[v] == sym_count(syms@, v, i + 1) by {
                assert(sym_count(syms@, v, i + 1) == sym_count(syms@, v, i as int) + if syms@[i as int] == (
                TAG_SYM, v) { 1nat } else { 0nat });
            }
        }
        i = i + 1;
    }
    m
}

/// Most frequent SYM value (the first one in stream order among equals),
/// when it occurs at least 8 times.
fn most_frequent_sym(syms: &Vec<(u8, u64)>) -> (m: Option<u64>)
    ensures
        mfs_ok(syms@, m),
{
    let counts = count_syms(syms);
    let n = syms.len();
    let ghost len = n as int;
    let mut best: u64 = 0;
    let mut best_c: u64 = 0;
    let mut i: usize = 0;
    while i < n
        invariant
            n == syms@.len(),
            len == n,
            i <= n,
            forall|v: u64| #[trigger] counts@.contains_key(v) <==> sym_count(syms@, v, len) > 0,
            forall|v: u64| #[trigger] counts@.contains_key(v) ==> counts@[v] == sym_count(syms@, v, len),
            best_c > 0 ==> best_c == sym_count(syms@, best, len),
            forall|j: int| 0 <= j < i && (#[trigger] syms@[j]).0 == TAG_SYM ==> sym_count(syms@, syms@[j].1, len) <= best_c,
        decreases n - i,
    {
        let (tag, val) = syms[i];
        if tag == TAG_SYM {
            proof {
                assert(sym_count(syms@, val, i + 1) > 0) by {
                    assert(syms@[i as int] == (TAG_SYM, val));
                }
                lemma_sym_count_mono(syms@, val, i + 1, len);
            }
            let c: u64 = match counts.get(&val) {
                Some(c) => *c,
                None => 0,
            };
            if c > best_c {
                best_c = c;
                best = val;
            }
        }
        i = i + 1;
    }
    if best_c >= 8 {
        Some(best)
    } else {
        None
    }
}

proof fn lemma_sym_count_mono(syms: Seq<(u8, u64)>, v: u64, a: int, b: int)
    requires
        a <= b,
    ensures
        sym_count(syms, v, a) <= sym_count(syms, v, b),
    decreases b - a,
{
    if a < b {
        lemma_sym_count_mono(syms, v, a, b - 1);
    }
}

/// Phase B entry `(tag, value, run)`: the block symbols it stands for.  ZERO-RLE
/// keeps its run length in `value`, RAW-RLE in `run`.
pub open spec fn entry_expand(e: (u8, u64, u64), mfs: u64) -> Seq<(u8, u64)> {
    if e.0 == TAG_ZERO_RLE {
        Seq::new(e.1 as nat, |t: int| (TAG_ZERO, 0u64))
    } else if e.0 == TAG_MFS {
        seq![(TAG_SYM, mfs)]
    } else if e.0 == TAG_RAW_RLE {
        Seq::new(e.2 as nat, |t: int| (TAG_RAW, e.1))
    } else {
        seq![(e.0, e.1)]
    }
}

/// Block symbols of a Phase B stream.
pub open spec fn expand(es: Seq<(u8, u64, u64)>, mfs: u64) -> Seq<(u8, u64)>
    decreases es.len(),
{
    if es.len() == 0 {
        Seq::empty()
    } else {
        expand(es.drop_last(), mfs) + entry_expand(es.last(), mfs)
    }
}

/// Shape of a Phase B entry.
pub open spec fn entry_ok(e: (u8, u64, u64), m: Option<u64>) -> bool {
    &&& e.0 <= TAG_RAW_RLE
    &&& e.0 == TAG_ZERO_RLE ==> e.1 >= 4 && e.2 == 0
    &&& e.0 == TAG_RAW_RLE ==> e.2 >= 4
    &&& e.0 == TAG_MFS ==> m is Some && e.1 == 0 && e.2 == 0
    &&& e.0 == TAG_SYM ==> m is None || e.1 != m->Some_0
    &&& e.0 == TAG_ZERO ==> e.1 == 0
    &&& e.0 <= TAG_ZERO ==> e.2 == 0
}

/// Phase A symbols: SYM, RAW or ZERO, ZERO carrying 0.
pub open spec fn phase_a_ok(syms: Seq<(u8, u64)>) -> bool {
    forall|i: int|
        0 <= i < syms.len() ==> (#[trigger] syms[i]).0 <= TAG_ZERO && (syms[i].0 == TAG_ZERO ==> syms[i].1 == 0)
}

proof fn lemma_expand_push(es: Seq<(u8, u64, u64)>, e: (u8, u64, u64), mfs: u64)
    ensures
        expand(es.push(e), mfs) == expand(es, mfs) + entry_expand(e, mfs),
{
    assert(es.push(e).drop_last() =~= es);
}

/// Phase B: the most frequent SYM value (at least 8 times) becomes MFS,
/// runs of 4 or more ZERO become ZERO-RLE and runs of 4 or more equal RAW
/// values become RAW-RLE.
fn phase_b(syms: &Vec<(u8, u64)>) -> (r: (Vec<(u8, u64, u64)>, Option<u64>))
    requires
        phase_a_ok(syms@),
        syms@.len() <= u64::MAX,
    ensures
        mfs_ok(syms@, r.1),
        expand(r.0@, if r.1 is Some { r.1->Some_0 } else { 0 }) == syms@,
        forall|i: int| 0 <= i < r.0@.len() ==> entry_ok(#[trigger] r.0@[i], r.1),
{
    let mfs = most_frequent_sym(syms);
    let mv: u64 = match mfs {
        Some(v) => v,
        None => 0,
    };
    let n = syms.len();
    let mut out: Vec<(u8, u64, u64)> = Vec::new();
    let mut i: usize = 0;
    assert(syms@.subrange(0, 0) =~= Seq::<(u8, u64)>::empty());
    while i < n
        invariant
            n == syms@.len(),
            n <= u64::MAX,
            i <= n,
            phase_a_ok(syms@),
            mv == (if mfs is Some { mfs->Some_0 } else { 0 }),
            expand(out@, mv) == syms@.subrange(0, i as int),
            forall|j: int| 0 <= j < out@.len() ==> entry_ok(#[trigger] out@[j], mfs),
        decreases n - i,
    {
        let (tag, val) = syms[i];
        let ghost before = out@;
        if tag == TAG_SYM {
            let e: (u8, u64, u64) = match mfs {
                Some(m) => if val == m {
                    (TAG_MFS, 0, 0)
                } else {
                    (TAG_SYM, val, 0)
                },
                None => (TAG_SYM, val, 0),
            };
            out.push(e);
            proof {
                lemma_expand_push(before, e, mv);
                assert(syms@.subrange(0, i + 1) =~= syms@.subrange(0, i as int) + entry_expand(e, mv));
            }
            i = i + 1;
        } else if tag == TAG_ZERO {
            let mut run: usize = 1;
            while i + run < n && syms[i + run].0 == TAG_ZERO
                invariant
                    n == syms@.len(),
                    1 <= run,
                    i + run <= n,
                    i < n,
                    phase_a_ok(syms@),
                    forall|t: int| i <= t < i + run ==> #[trigger] syms@[t] == (TAG_ZERO, 0u64),
                decreases n - i - run,
            {
                run = run + 1;
            }
            if run >= 4 {
                let e: (u8, u64, u64) = (TAG_ZERO_RLE, run as u64, 0);
                out.push(e);
                proof {
                    lemma_expand_push(before, e, mv);
                    assert(syms@.subrange(0, i + run) =~= syms@.subrange(0, i as int) + entry_expand(e, mv));
                }
            } else {
                let mut t: usize = 0;
                while t < run
                    invariant
                        t <= run,
                        i + run <= n,
                        n == syms@.len(),
                        forall|q: int| i <= q < i + run ==> #[trigger] syms@[q] == (TAG_ZERO, 0u64),
                        expand(out@, mv) == syms@.subrange(0, i + t),
                        forall|j: int| 0 <= j < out@.len() ==> entry_ok(#[trigger] out@[j], mfs),
                    decreases run - t,
                {
                    let ghost b2 = out@;
                    let e: (u8, u64, u64) = (TAG_ZERO, 0, 0);
                    out.push(e);
                    proof {
                        lemma_expand_push(b2, e, mv);
                        assert(syms@.subrange(0, i + t + 1) =~= syms@.subrange(0, i + t) + entry_expand(e, mv));
                    }
                    t = t + 1;
                }
            }
            i = i + run;
        } else {
            assert(syms@[i as int].0 <= TAG_ZERO);
            let mut run: usize = 1;
            while i + run < n && syms[i + run].0 == TAG_RAW && syms[i + run].1 == val
                invariant
                    n == syms@.len(),
                    1 <= run,
                    i + run <= n,
                    i < n,
                    syms@[i as int] == (tag, val),
                    tag == TAG_RAW,
                    forall|t: int| i <= t < i + run ==> #[trigger] syms@[t] == (TAG_RAW, val),
                decreases n - i - run,
            {
                run = run + 1;
            }
            if run >= 4 {
                let e: (u8, u64, u64) = (TAG_RAW_RLE, val, run as u64);
                out.push(e);
                proof {
                    lemma_expand_push(before, e, mv);
                    assert(syms@.subrange(0, i + run) =~= syms@.subrange(0, i as int) + entry_expand(e, mv));
                }
                i = i + run;
            } else {
                let e: (u8, u64, u64) = (TAG_RAW, val, 0);
                out.push(e);
                proof {
                    lemma_expand_push(before, e, mv);
                    assert(syms@.subrange(0, i + 1) =~= syms@.subrange(0, i as int) + entry_expand(e, mv));
                }
                i = i + 1;
            }
        }
    }
    assert(syms@.subrange(0, n as int) =~= syms@);
    (out, mfs)
}


// ───────────────────────────── bit-packed body ─────────────────────────────

/// Bits after writing one Phase B entry: SYM `00` then (odd-bit separation)
/// the odd bit, byte-aligned ULEB payload; RAW `01` and the value; ZERO
/// `10`; ZERO-RLE `1100` and aligned ULEB run; MFS `1101`; RAW-RLE `1110`,
/// the value and an aligned ULEB run.
pub open spec fn write_entry(bits: Seq<bool>, e: (u8, u64, u64), bb: nat, odd_sep: bool) -> Seq<bool> {
    if e.0 == TAG_SYM {
        if odd_sep {
            pad_bits(bits + bits_of(0, 2) + bits_of(((e.1 >> 32u64) & 1u64) as nat, 1)) + bytes_bits(
                uleb_bytes((e.1 & 0xFFFF_FFFFu64) as nat),
            )
        } else {
            pad_bits(bits + bits_of(0, 2)) + bytes_bits(uleb_bytes(e.1 as nat))
        }
    } else if e.0 == TAG_RAW {
        bits + bits_of(1, 2) + bits_of(e.1 as nat, bb)
    } else if e.0 == TAG_ZERO {
        bits + bits_of(2, 2)
    } else if e.0 == TAG_ZERO_RLE {
        pad_bits(bits + bits_of(12, 4)) + bytes_bits(uleb_bytes(e.1 as nat))
    } else if e.0 == TAG_MFS {
        bits + bits_of(13, 4)
    } else if e.0 == TAG_RAW_RLE {
        pad_bits(bits + bits_of(14, 4) + bits_of(e.1 as nat, bb)) + bytes_bits(uleb_bytes(e.2 as nat))
    } else {
        bits
    }
}

/// Bits of a whole Phase B stream.
pub open spec fn write_entries(es: Seq<(u8, u64, u64)>, bb: nat, odd_sep: bool) -> Seq<bool>
    decreases es.len(),
{
    if es.len() == 0 {
        Seq::empty()
    } else {
        write_entry(write_entries(es.drop_last(), bb, odd_sep), es.last(), bb, odd_sep)
    }
}

/// Bit-pack a Phase B stream.
fn bitpack_body(es: &Vec<(u8, u64, u64)>, bb: usize, odd_sep: bool) -> (out: Vec<u8>)
    requires
        bb <= 64,
    ensures
        bytes_bits(out@) == pad_bits(write_entries(es@, bb as nat, odd_sep)),
{
    let mut bw = BitWriter::new();
    let mut i: usize = 0;
    assert(es@.subrange(0, 0) =~= Seq::<(u8, u64, u64)>::empty());
    while i < es.len()
        invariant
            bb <= 64,
            i <= es@.len(),
            bw.wf(),
            bw.bits() == write_entries(es@.subrange(0, i as int), bb as nat, odd_sep),
        decreases es@.len() - i,
    {
        let (tag, value, run) = es[i];
        proof {
            assert(es@.subrange(0, i + 1).drop_last() =~= es@.subrange(0, i as int));
        }
        if tag == TAG_SYM {
            bw.write_bits(0, 2);
            if odd_sep {
                let odd = (value >> 32u64) & 1;
                let k = value & 0xFFFF_FFFF;
                bw.write_bits(odd, 1);
                bw.write_uleb(k);
            } else {
                bw.write_uleb(value);
            }
        } else if tag == TAG_RAW {
            bw.write_bits(1, 2);
            bw.write_bits(value, bb);
        } else if tag == TAG_ZERO {
            bw.write_bits(2, 2);
        } else if tag == TAG_ZERO_RLE {
            bw.write_bits(0b1100, 4);
            bw.write_uleb(value);
        } else if tag == TAG_MFS {
            bw.write_bits(0b1101, 4);
        } else if tag == TAG_RAW_RLE {
            bw.write_bits(0b1110, 4);
            bw.write_bits(value, bb);
            bw.write_uleb(run);
        }
        i = i + 1;
    }
    assert(es@.subrange(0, es@.len() as int) =~= es@);
    bw.flush()
}


// ───────────────────────────── range-coded body ─────────────────────────────

/// The Phase B stream with each RAW-RLE entry spelled out as RAW symbols.
pub open spec fn clean_entries(es: Seq<(u8, u64, u64)>) -> Seq<(u8, u64)>
    decreases es.len(),
{
    if es.len() == 0 {
        Seq::empty()
    } else {
        let e = es.last();
        clean_entries(es.drop_last()) + if e.0 == TAG_RAW_RLE {
            Seq::new(e.2 as nat, |t: int| (TAG_RAW, e.1))
        } else {
            seq![(e.0, e.1)]
        }
    }
}

proof fn lemma_clean_prefix_len(es: Seq<(u8, u64, u64)>, i: int)
    requires
        0 <= i <= es.len(),
    ensures
        clean_entries(es.subrange(0, i)).len() <= clean_entries(es).len(),
    decreases es.len(),
{
    if i == es.len() {
        assert(es.subrange(0, i) =~= es);
    } else {
        assert(es.subrange(0, i) =~= es.drop_last().subrange(0, i));
        lemma_clean_prefix_len(es.drop_last(), i);
    }
}

fn clean_stream(es: &Vec<(u8, u64, u64)>) -> (c: Vec<(u8, u64)>)
    ensures
        c@ == clean_entries(es@),
{
    let mut c: Vec<(u8, u64)> = Vec::new();
    let mut i: usize = 0;
    assert(es@.subrange(0, 0) =~= Seq::<(u8, u64, u64)>::empty());
    while i < es.len()
        invariant
            i <= es@.len(),
            c@ == clean_entries(es@.subrange(0, i as int)),
        decreases es@.len() - i,
    {
        let (tag, val, run) = es[i];
        proof {
            assert(es@.subrange(0, i + 1).drop_last() =~= es@.subrange(0, i as int));
        }
        if tag == TAG_RAW_RLE {
            let ghost start = c@;
            let mut t: u64 = 0;
            while t < run
                invariant
                    t <= run,
                    c@ == start + Seq::new(t as nat, |q: int| (TAG_RAW, val)),
                decreases run - t,
            {
                c.push((TAG_RAW, val));
                t = t + 1;
                assert(c@ =~= start + Seq::new(t as nat, |q: int| (TAG_RAW, val)));
            }
        } else {
            c.push((tag, val));
        }
        i = i + 1;
    }
    assert(es@.subrange(0, es@.len() as int) =~= es@);
    c
}

/// Frequencies `f` scaled to `scale` (each at least 1); the difference to
/// `scale` is added to the last largest entry (`at_max`) or the first one,
/// which is kept at least 1.
fn scale_freqs(f: &Vec<u64>, total: u64, scale: u64, at_max: bool) -> (r: Vec<u64>)
    requires
        total > 0,
        scale <= 0x4000_0000,
        forall|i: int| 0 <= i < f@.len() ==> f@[i] <= total,
        total <= 0x1_0000_0000,
        1 <= f@.len() <= 0x1_0000_0000,
    ensures
        r@.len() == f@.len(),
        forall|i: int| 0 <= i < r@.len() ==> 1 <= #[trigger] r@[i] <= 0x2_0000_0000_0000,
        at_max && cum_sum(f@, f@.len() as int) <= total && f@.len() * f@.len() <= scale ==> cum_sum(
            r@,
            r@.len() as int,
        ) == scale,
{
    let mut r: Vec<u64> = Vec::new();
    let mut sum: u64 = 0;
    let mut i: usize = 0;
    let ghost mut sumq: int = 0;
    while i < f.len()
        invariant
            i <= f@.len(),
            r@.len() == i,
            total > 0,
            scale <= 0x4000_0000,
            total <= 0x1_0000_0000,
            f@.len() <= 0x1_0000_0000,
            forall|k: int| 0 <= k < f@.len() ==> f@[k] <= total,
            forall|k: int| 0 <= k < r@.len() ==> 1 <= #[trigger] r@[k] <= scale + 1,
            sum <= i * (scale + 1),
            sum == cum_sum(r@, i as int),
            0 <= sumq,
            sumq * total <= scale * cum_sum(f@, i as int),
            sum <= sumq + i,
        decreases f@.len() - i,
    {
        let fi = f[i];
        assert(fi * scale <= total * scale) by (nonlinear_arith)
            requires
                fi <= total,
        ;
        assert(total * scale <= 0x1_0000_0000 * 0x4000_0000) by (nonlinear_arith)
            requires
                total <= 0x1_0000_0000,
                scale <= 0x4000_0000,
        ;
        let prod = fi * scale;
        let q = prod / total;
        assert(q <= scale) by (nonlinear_arith)
            requires
                q == prod / total,
                prod == fi * scale,
                fi <= total,
                total > 0,
        ;
        let v = if q < 1 {
            1
        } else {
            q
        };
        assert(q * total <= prod) by (nonlinear_arith)
            requires
                q == prod / total,
                total > 0,
        ;
        assert((sumq + q) * total <= scale * (cum_sum(f@, i as int) + fi)) by (nonlinear_arith)
            requires
                sumq * total <= scale * cum_sum(f@, i as int),
                q * total <= prod,
                prod == fi * scale,
        ;
        let ghost r0 = r@;
        r.push(v);
        proof {
            lemma_cum_sum_prefix(r0, r@, i as int);
            sumq = sumq + q;
        }
        assert(sum + v <= (i + 1) * (scale + 1)) by (nonlinear_arith)
            requires
                sum <= i * (scale + 1),
                v <= scale + 1,
        ;
        assert((i + 1) * (scale + 1) <= 0x1_0000_0000 * 0x4000_0001) by (nonlinear_arith)
            requires
                i + 1 <= 0x1_0000_0000,
                scale <= 0x4000_0000,
        ;
        sum = sum + v;
        i = i + 1;
    }
    assert(sum <= 0x1_0000_0000 * 0x4000_0001) by (nonlinear_arith)
        requires
            sum <= i * (scale + 1),
            i <= 0x1_0000_0000,
            scale <= 0x4000_0000,
    ;
    let ghost cond = at_max && cum_sum(f@, f@.len() as int) <= total && f@.len() * f@.len() <= scale;
    proof {
        if cond {
            assert(sumq <= scale) by (nonlinear_arith)
                requires
                    sumq * total <= scale * cum_sum(f@, f@.len() as int),
                    cum_sum(f@, f@.len() as int) <= total,
                    total > 0,
                    scale >= 0,
            ;
        }
    }
    let mut fix: usize = 0;
    if at_max {
        let mut k: usize = 1;
        while k < r.len()
            invariant
                fix < r@.len(),
                1 <= k <= r@.len(),
                forall|j: int| 0 <= j < k ==> r@[j] <= r@[fix as int],
            decreases r@.len() - k,
        {
            if r[k] >= r[fix] {
                fix = k;
            }
            k = k + 1;
        }
    }
    proof {
        if cond {
            lemma_cum_sum_le_max(r@, r@.len() as int, r@[fix as int] as int);
            let len = r@.len() as int;
            let cur = r@[fix as int] as int;
            if sum > scale {
                assert(cur > sum - scale) by (nonlinear_arith)
                    requires
                        sum <= len * cur,
                        sum > scale,
                        len * len <= scale,
                        sum <= scale + len,
                        len >= 1,
                ;
            }
        }
    }
    let ghost r1 = r@;
    if sum != scale {
        let cur = r[fix];
        let nv: u64 = if sum > scale {
            let over = sum - scale;
            if cur > over {
                cur - over
            } else {
                1
            }
        } else {
            cur + (scale - sum)
        };
        r.set(fix, nv);
        proof {
            lemma_cum_sum_update(r1, fix as int, nv, r1.len() as int);
        }
    }
    r
}

/// Sum and positivity check of a scaled table against its total.
fn table_ok(t: &Vec<u64>, scale: u64) -> (ok: bool)
    ensures
        ok <==> (forall|i: int| 0 <= i < t@.len() ==> #[trigger] t@[i] >= 1) && cum_sum(t@, t@.len() as int)
            == scale,
{
    let mut sum: u64 = 0;
    let mut i: usize = 0;
    while i < t.len()
        invariant
            i <= t@.len(),
            sum == cum_sum(t@, i as int),
            forall|k: int| 0 <= k < i ==> #[trigger] t@[k] >= 1,
        decreases t@.len() - i,
    {
        if t[i] == 0 || t[i] > scale || sum > scale - t[i] {
            proof {
                if t[i as int] != 0 {
                    lemma_cum_sum_mono(t@, i + 1, t@.len() as int);
                }
            }
            return false;
        }
        sum = sum + t[i];
        i = i + 1;
    }
    sum == scale
}

/// Sum of the first `k` entries.
pub open spec fn cum_sum(t: Seq<u64>, k: int) -> int
    decreases k,
{
    if k <= 0 {
        0
    } else {
        cum_sum(t, k - 1) + t[k - 1]
    }
}

proof fn lemma_cum_sum_mono(t: Seq<u64>, a: int, b: int)
    requires
        0 <= a <= b <= t.len(),
    ensures
        cum_sum(t, a) <= cum_sum(t, b),
    decreases b - a,
{
    if a < b {
        lemma_cum_sum_mono(t, a, b - 1);
    }
}

proof fn lemma_cum_sum_update(t: Seq<u64>, j: int, v: u64, k: int)
    requires
        0 <= j < t.len(),
        k <= t.len(),
    ensures
        cum_sum(t.update(j, v), k) == cum_sum(t, k) + if j < k { v - t[j] } else { 0 },
    decreases k,
{
    if k > 0 {
        lemma_cum_sum_update(t, j, v, k - 1);
    }
}

proof fn lemma_cum_sum_prefix(t: Seq<u64>, u: Seq<u64>, k: int)
    requires
        0 <= k <= t.len(),
        k <= u.len(),
        forall|i: int| 0 <= i < k ==> t[i] == u[i],
    ensures
        cum_sum(t, k) == cum_sum(u, k),
    decreases k,
{
    if k > 0 {
        lemma_cum_sum_prefix(t, u, k - 1);
    }
}

proof fn lemma_cum_sum_le_max(t: Seq<u64>, k: int, m: int)
    requires
        0 <= k <= t.len(),
        forall|i: int| 0 <= i < k ==> t[i] <= m,
    ensures
        cum_sum(t, k) <= k * m,
    decreases k,
{
    if k > 0 {
        lemma_cum_sum_le_max(t, k - 1, m);
        assert(cum_sum(t, k) == cum_sum(t, k - 1) + t[k - 1]);
        assert(t[k - 1] <= m);
        assert((k - 1) * m + m == k * m) by (nonlinear_arith);
    } else {
        assert(k * m == 0) by (nonlinear_arith)
            requires
                k == 0,
        ;
    }
}

/// Cumulative table `[0, t0, t0 + t1, ...]`.
fn cumulative(t: &Vec<u64>, scale: u64) -> (c: Vec<u64>)
    requires
        cum_sum(t@, t@.len() as int) == scale,
        forall|i: int| 0 <= i < t@.len() ==> #[trigger] t@[i] >= 1,
    ensures
        c@.len() == t@.len() + 1,
        forall|i: int| 0 <= i <= t@.len() ==> #[trigger] c@[i] == cum_sum(t@, i),
{
    let mut c: Vec<u64> = Vec::new();
    c.push(0);
    let mut i: usize = 0;
    while i < t.len()
        invariant
            i <= t@.len(),
            c@.len() == i + 1,
            cum_sum(t@, t@.len() as int) == scale,
            forall|k: int| 0 <= k <= i ==> #[trigger] c@[k] == cum_sum(t@, k),
        decreases t@.len() - i,
    {
        proof {
            lemma_cum_sum_mono(t@, i + 1, t@.len() as int);
        }
        let v = c[i] + t[i];
        c.push(v);
        i = i + 1;
    }
    c
}

/// Entries among the first `k` of `clean` with tag `t`.
pub open spec fn rc_tag_count(clean: Seq<(u8, u64)>, t: u8, k: nat) -> nat
    decreases k,
{
    if k == 0 {
        0
    } else {
        rc_tag_count(clean, t, (k - 1) as nat) + if k - 1 < clean.len() && clean[k - 1].0 == t { 1nat } else { 0nat }
    }
}

/// The tags below `t` that occur in `clean`, ascending.
pub open spec fn rc_tags_upto(clean: Seq<(u8, u64)>, t: nat) -> Seq<u8>
    decreases t,
{
    if t == 0 {
        Seq::empty()
    } else {
        let p = rc_tags_upto(clean, (t - 1) as nat);
        if rc_tag_count(clean, (t - 1) as u8, clean.len()) > 0 { p.push((t - 1) as u8) } else { p }
    }
}

/// Position of the first `t` in `tags` from `q` on (0 when there is none).
pub open spec fn first_tag_index(tags: Seq<u8>, t: u8, q: nat) -> nat
    decreases tags.len() - q,
{
    if q >= tags.len() {
        0
    } else if tags[q as int] == t {
        q
    } else {
        first_tag_index(tags, t, q + 1)
    }
}

/// The range-coder symbol of tag `t`: its interval in the scaled tag table.
pub open spec fn rc_tag_sym(tags: Seq<u8>, scaled: Seq<u64>, t: u8) -> (int, int, int) {
    let i = first_tag_index(tags, t, 0) as int;
    (cum_sum(scaled, i), cum_sum(scaled, i + 1) - cum_sum(scaled, i), 4096)
}

/// The range-coder symbols of the tags of `clean`.
pub open spec fn rc_tag_syms(clean: Seq<(u8, u64)>, tags: Seq<u8>, scaled: Seq<u64>) -> Seq<(int, int, int)> {
    Seq::new(clean.len(), |i: int| rc_tag_sym(tags, scaled, clean[i].0))
}

/// Position of the first `v` in `vals` from `q` on (0 when there is none).
pub open spec fn first_val_index(vals: Seq<u64>, v: u64, q: nat) -> nat
    decreases vals.len() - q,
{
    if q >= vals.len() {
        0
    } else if vals[q as int] == v {
        q
    } else {
        first_val_index(vals, v, q + 1)
    }
}

/// The range-coder symbol of RAW value `v`: its interval in the scaled value
/// table `rsc` of the values `vals`.
pub open spec fn rc_raw_sym(vals: Seq<u64>, rsc: Seq<u64>, v: u64) -> (int, int, int) {
    let i = first_val_index(vals, v, 0) as int;
    (cum_sum(rsc, i), cum_sum(rsc, i + 1) - cum_sum(rsc, i), cum_sum(rsc, rsc.len() as int))
}

/// The range-coder symbols of the RAW entries among the first `k` entries
/// of `clean`.
pub open spec fn rc_raw_syms(clean: Seq<(u8, u64)>, vals: Seq<u64>, rsc: Seq<u64>, k: nat) -> Seq<(int, int, int)>
    decreases k,
{
    if k == 0 || k > clean.len() {
        Seq::empty()
    } else {
        let prev = rc_raw_syms(clean, vals, rsc, (k - 1) as nat);
        if clean[k - 1].0 == TAG_RAW {
            prev.push(rc_raw_sym(vals, rsc, clean[k - 1].1))
        } else {
            prev
        }
    }
}

proof fn lemma_enc_run_prefix(a: Seq<(int, int, int)>, b: Seq<(int, int, int)>, k: nat)
    requires
        k <= a.len(),
        k <= b.len(),
        forall|i: int| 0 <= i < k ==> a[i] == b[i],
    ensures
        crate::range_coder::enc_run(a, k) == crate::range_coder::enc_run(b, k),
    decreases k,
{
    if k > 0 {
        lemma_enc_run_prefix(a, b, (k - 1) as nat);
    }
}

proof fn lemma_enc_run_push(r: Seq<(int, int, int)>, x: (int, int, int))
    ensures
        crate::range_coder::enc_run(r.push(x), r.len() + 1) == crate::range_coder::enc_step(
            crate::range_coder::enc_run(r, r.len()),
            x.0,
            x.1,
            x.2,
        ),
{
    lemma_enc_run_prefix(r.push(x), r, r.len());
}

/// Payload bits after the first `k` entries: SYM payloads (with the odd
/// bit first under odd-bit separation) and ZERO-RLE runs as byte-aligned
/// ULEB128, RAW values as `bb` bits when there is no value model.
pub open spec fn rc_payload_bits(clean: Seq<(u8, u64)>, n_raw: nat, bb: nat, odd: bool, k: nat) -> Seq<bool>
    decreases k,
{
    if k == 0 || k > clean.len() {
        Seq::empty()
    } else {
        let prev = rc_payload_bits(clean, n_raw, bb, odd, (k - 1) as nat);
        let e = clean[k - 1];
        if e.0 == TAG_SYM {
            if odd {
                pad_bits(prev.push(((e.1 >> 32u64) & 1u64) as u8 % 2 == 1)) + bytes_bits(uleb_bytes((e.1 & 0xFFFF_FFFFu64) as nat))
            } else {
                pad_bits(prev) + bytes_bits(uleb_bytes(e.1 as nat))
            }
        } else if e.0 == TAG_RAW {
            if n_raw > 0 { prev } else { prev + bits_of(e.1 as nat, bb) }
        } else if e.0 == TAG_ZERO_RLE {
            pad_bits(prev) + bytes_bits(uleb_bytes(e.1 as nat))
        } else {
            prev
        }
    }
}

/// Every entry carries one of the eight tags of the tag model.
pub open spec fn rc_tags_known(clean: Seq<(u8, u64)>) -> bool {
    forall|j: int| 0 <= j < clean.len() ==> #[trigger] clean[j].0 < 8
}

/// Number of RAW entries of value `v` among the first `k` entries of `clean`.
pub open spec fn rc_raw_count(clean: Seq<(u8, u64)>, v: u64, k: nat) -> nat
    decreases k,
{
    if k == 0 || k > clean.len() {
        0
    } else {
        rc_raw_count(clean, v, (k - 1) as nat) + if clean[k - 1] == (TAG_RAW, v) { 1nat } else { 0nat }
    }
}

/// RAW value `x` comes no later than `y` in the value model: it is more
/// frequent in `clean`, or as frequent and not larger.
pub open spec fn rc_raw_before(clean: Seq<(u8, u64)>, x: u64, y: u64) -> bool {
    let cx = rc_raw_count(clean, x, clean.len());
    let cy = rc_raw_count(clean, y, clean.len());
    cx > cy || (cx == cy && x <= y)
}

/// `v` is the value of some RAW entry of `clean`.
pub open spec fn rc_raw_occurs(clean: Seq<(u8, u64)>, v: u64) -> bool {
    exists|i: int| 0 <= i < clean.len() && #[trigger] clean[i] == (TAG_RAW, v)
}

/// Little-endian 16-bit forms of the numbers of `v` (each cut to 16 bits).
pub open spec fn u16s_bytes(v: Seq<u64>) -> Seq<u8>
    decreases v.len(),
{
    if v.len() == 0 {
        Seq::empty()
    } else {
        u16s_bytes(v.drop_last()) + crate::le::le16_bytes(v.last() as u16)
    }
}

/// Layout of a range-coded body: tag count and tags, scaled tag table, RAW
/// value count, values and scaled value table, the two stream lengths, the
/// tag stream, the value stream and the payload.
pub open spec fn rc_body(
    tags: Seq<u8>,
    scaled: Seq<u64>,
    vals: Seq<u64>,
    rsc: Seq<u64>,
    tb: Seq<u8>,
    rb: Seq<u8>,
    pb: Seq<u8>,
) -> Seq<u8> {
    seq![tags.len() as u8] + tags + u16s_bytes(scaled) + crate::le::le16_bytes(vals.len() as u16) + u16s_bytes(vals)
        + u16s_bytes(rsc) + crate::le::le32_bytes(tb.len() as u32) + crate::le::le32_bytes(rb.len() as u32) + tb
        + rb + pb
}

/// `body` is a range-coded layout of `clean`: its tags are those that
/// occur, the scaled tag table is positive and sums to 4096, the tag stream
/// range-codes the tags by that table, the listed RAW values are those of
/// `clean`, the value stream range-codes the RAW values by the value table,
/// and the payload carries the SYM payloads, ZERO-RLE runs and (without a
/// value model) RAW values.
pub open spec fn rc_layout_of(body: Seq<u8>, clean: Seq<(u8, u64)>, bb: nat, odd: bool) -> bool {
    let tags = rc_tags_upto(clean, 8);
    exists|scaled: Seq<u64>, vals: Seq<u64>, rsc: Seq<u64>, tb: Seq<u8>, rb: Seq<u8>, pb: Seq<u8>|
        #[trigger] rc_body(tags, scaled, vals, rsc, tb, rb, pb) == body && scaled.len() == tags.len() && (forall|k: int|
            0 <= k < scaled.len() ==> #[trigger] scaled[k] >= 1) && cum_sum(scaled, scaled.len() as int) == 4096
            && bytes_bits(tb) == crate::range_coder::enc_flush_bytes(
            crate::range_coder::enc_run(rc_tag_syms(clean, tags, scaled), clean.len()),
        ) && bytes_bits(pb) == pad_bits(rc_payload_bits(clean, vals.len(), bb, odd, clean.len())) && (forall|k: int|
            0 <= k < vals.len() ==> rc_raw_occurs(clean, #[trigger] vals[k]))
            && (vals.len() == 0 ==> rb.len() == 0 && rsc.len() == 0) && (vals.len() > 0 ==> rsc.len() == vals.len()
            && bytes_bits(rb) == crate::range_coder::enc_flush_bytes(
            crate::range_coder::enc_run(
                rc_raw_syms(clean, vals, rsc, clean.len()),
                rc_raw_syms(clean, vals, rsc, clean.len()).len(),
            ),
        ) && (forall|j: int|
            0 <= j < clean.len() && (#[trigger] clean[j]).0 == TAG_RAW ==> vals.contains(clean[j].1)) && (forall|
            a: int,
            b: int,
        | 0 <= a < b < vals.len() ==> rc_raw_before(clean, #[trigger] vals[a], #[trigger] vals[b])))
            && vals.len() < 0x1_0000 && (forall|k: int|
            0 <= k < vals.len() ==> #[trigger] vals[k] < 0x1_0000) && (forall|k: int|
            0 <= k < rsc.len() ==> #[trigger] rsc[k] < 0x1_0000)
}

/// Whether every number of `v` is below `lim`.
fn all_below(v: &Vec<u64>, lim: u64) -> (b: bool)
    ensures
        b == (forall|k: int| 0 <= k < v@.len() ==> #[trigger] v@[k] < lim),
{
    let mut i: usize = 0;
    while i < v.len()
        invariant
            i <= v@.len(),
            forall|k: int| 0 <= k < i ==> #[trigger] v@[k] < lim,
        decreases v@.len() - i,
    {
        if v[i] >= lim {
            return false;
        }
        i = i + 1;
    }
    true
}

/// Range-code a Phase B stream: RAW-RLE entries spelled out, tags coded with
/// a static model over the tags present, RAW values with a static model over
/// the values present (most frequent first, smaller value first among
/// equals), SYM payloads and ZERO-RLE runs bit-packed.  Layout: tag count,
/// tags, tag frequencies (u16 LE), value count (u16 LE), values (u16 LE),
/// value frequencies (u16 LE), u32 LE lengths of the two coded streams, the
/// streams, the payload.  Where the value model's table does not sum to its
/// total, or its values or frequencies do not fit 16 bits, there is no value
/// model and RAW values go to the payload as block-sized numbers.  Returns
/// the body and the symbol count; the body is empty when the stream is, or
/// when the tag table does not sum to its total.
fn range_code_symbols(es: &Vec<(u8, u64, u64)>, block_bits: usize, use_odd_sep: bool) -> (r: (Vec<u8>, u64))
    requires
        block_bits <= 64,
        clean_entries(es@).len() <= u32::MAX,
    ensures
        r.1 == clean_entries(es@).len(),
        r.1 == 0 ==> r.0@.len() == 0,
        r.0@.len() > 0 ==> rc_layout_of(r.0@, clean_entries(es@), block_bits as nat, use_odd_sep),
        r.1 > 0 && rc_tags_known(clean_entries(es@)) ==> r.0@.len() > 0,
{
    let clean = clean_stream(es);
    let n = clean.len();
    if n == 0 {
        return (Vec::new(), 0);
    }
    // tag model
    let mut tag_counts: Vec<u64> = vec![0u64; 8];
    assert(cum_sum(tag_counts@, 8) == 0) by {
        reveal_with_fuel(cum_sum, 9);
    }
    let mut i: usize = 0;
    while i < n
        invariant
            n == clean@.len(),
            n <= u32::MAX,
            i <= n,
            tag_counts@.len() == 8,
            forall|t: int| 0 <= t < 8 ==> #[trigger] tag_counts@[t] <= i,
            forall|t: int| 0 <= t < 8 ==> #[trigger] tag_counts@[t] == rc_tag_count(clean@, t as u8, i as nat),
            cum_sum(tag_counts@, 8) <= i,
            (forall|j: int| 0 <= j < i ==> #[trigger] clean@[j].0 < 8) ==> cum_sum(tag_counts@, 8) == i,
        decreases n - i,
    {
        let t = clean[i].0;
        if t < 8 {
            let c = tag_counts[t as usize];
            let ghost t0 = tag_counts@;
            tag_counts.set(t as usize, c + 1);
            proof {
                lemma_cum_sum_update(t0, t as int, (c + 1) as u64, 8);
            }
        }
        proof {
            if forall|j: int| 0 <= j < i + 1 ==> #[trigger] clean@[j].0 < 8 {
                assert(clean@[i as int].0 < 8);
            }
        }
        i = i + 1;
    }
    let mut active_tags: Vec<u8> = Vec::new();
    let mut active_counts: Vec<u64> = Vec::new();
    let mut t: usize = 0;
    while t < 8
        invariant
            t <= 8,
            tag_counts@.len() == 8,
            n <= u32::MAX,
            forall|q: int| 0 <= q < 8 ==> #[trigger] tag_counts@[q] <= n,
            active_tags@.len() == active_counts@.len(),
            active_tags@.len() <= t,
            forall|q: int| 0 <= q < active_counts@.len() ==> #[trigger] active_counts@[q] <= n,
            n == clean@.len(),
            forall|q: int| 0 <= q < 8 ==> #[trigger] tag_counts@[q] == rc_tag_count(clean@, q as u8, n as nat),
            active_tags@ == rc_tags_upto(clean@, t as nat),
            cum_sum(active_counts@, active_counts@.len() as int) == cum_sum(tag_counts@, t as int),
        decreases 8 - t,
    {
        if tag_counts[t] > 0 {
            let ghost a0 = active_counts@;
            active_tags.push(t as u8);
            active_counts.push(tag_counts[t]);
            proof {
                lemma_cum_sum_prefix(a0, active_counts@, a0.len() as int);
            }
        }
        t = t + 1;
    }
    proof {
        if rc_tags_known(clean@) {
            assert forall|j: int| 0 <= j < n implies #[trigger] clean@[j].0 < 8 by {
                assert(clean@[j].0 < 8);
            }
        }
        assert(active_counts@.len() <= 8);
        assert(active_counts@.len() * active_counts@.len() <= 4096) by (nonlinear_arith)
            requires
                active_counts@.len() <= 8,
        ;
    }
    let n_tags = active_tags.len();
    if n_tags == 0 {
        return (Vec::new(), n as u64);
    }
    let scaled = scale_freqs(&active_counts, n as u64, 4096, true);
    if !table_ok(&scaled, 4096) {
        return (Vec::new(), n as u64);
    }
    let cum = cumulative(&scaled, 4096);
    // RAW value model
    let mut raw_counts: HashMap<u64, u64> = HashMap::new();
    let mut raw_vals: Vec<u64> = Vec::new();
    let mut total_rv: u64 = 0;
    i = 0;
    while i < n
        invariant
            n == clean@.len(),
            n <= u32::MAX,
            i <= n,
            total_rv <= i,
            raw_vals@.len() <= i,
            forall|v: u64| #[trigger] raw_counts@.contains_key(v) ==> raw_counts@[v] <= total_rv,
            forall|k: int| 0 <= k < raw_vals@.len() ==> raw_counts@.contains_key(#[trigger] raw_vals@[k]),
            forall|v: u64| #[trigger] raw_counts@.contains_key(v) ==> raw_vals@.contains(v),
            raw_vals@.no_duplicates(),
            forall|k: int| 0 <= k < raw_vals@.len() ==> rc_raw_occurs(clean@, #[trigger] raw_vals@[k]),
            forall|j: int| 0 <= j < i && (#[trigger] clean@[j]).0 == TAG_RAW ==> raw_vals@.contains(clean@[j].1),
            forall|v: u64| #[trigger] raw_counts@.contains_key(v) ==> raw_counts@[v] == rc_raw_count(clean@, v, i as nat),
            forall|v: u64| !raw_counts@.contains_key(v) ==> #[trigger] rc_raw_count(clean@, v, i as nat) == 0,
        decreases n - i,
    {
        let (tag, val) = clean[i];
        let ghost rv_before = raw_vals@;
        let ghost mpre = raw_counts@;
        if tag == TAG_RAW {
            let ghost m0 = raw_counts@;
            let ghost v0 = raw_vals@;
            match raw_counts.get(&val) {
                Some(c) => {
                    let c2 = *c + 1;
                    raw_counts.insert(val, c2);
                    proof {
                        assert(v0.contains(val));
                    }
                },
                None => {
                    raw_counts.insert(val, 1);
                    raw_vals.push(val);
                    assert(clean@[i as int] == (TAG_RAW, val));
                    proof {
                        assert(raw_vals@[raw_vals@.len() - 1] == val);
                        assert forall|v: u64| #[trigger] m0.contains_key(v) implies raw_vals@.contains(v) by {
                            let k = choose|k: int| 0 <= k < v0.len() && v0[k] == v;
                            assert(raw_vals@[k] == v);
                        }
                        assert forall|a: int, b: int|
                            0 <= a < b < raw_vals@.len() implies raw_vals@[a] != raw_vals@[b] by {
                            if b == raw_vals@.len() - 1 {
                                assert(m0.contains_key(v0[a]));
                            }
                        }
                    }
                },
            }
            proof {
                assert forall|v: u64| #[trigger] raw_counts@.contains_key(v) implies raw_vals@.contains(v) by {
                    if v != val {
                        assert(m0.contains_key(v));
                        let k = choose|k: int| 0 <= k < v0.len() && v0[k] == v;
                        assert(raw_vals@[k] == v);
                    } else {
                        assert(raw_vals@[raw_vals@.len() - 1] == val || v0.contains(val));
                        if v0.contains(val) {
                            let k = choose|k: int| 0 <= k < v0.len() && v0[k] == val;
                            assert(raw_vals@[k] == val);
                        }
                    }
                }
            }
            total_rv = total_rv + 1;
            proof {
                assert(raw_vals@.contains(val));
            }
        }
        proof {
            assert forall|j: int| 0 <= j < i + 1 && (#[trigger] clean@[j]).0 == TAG_RAW implies raw_vals@.contains(clean@[j].1) by {
                if j < i {
                    assert(rv_before.contains(clean@[j].1));
                    let k = choose|k: int| 0 <= k < rv_before.len() && rv_before[k] == clean@[j].1;
                    assert(raw_vals@[k] == rv_before[k]);
                }
            }
            assert forall|v: u64| #[trigger] raw_counts@.contains_key(v) implies raw_counts@[v] == rc_raw_count(
                clean@,
                v,
                (i + 1) as nat,
            ) by {
                if tag == TAG_RAW && v == val {
                    if mpre.contains_key(v) {
                        assert(mpre[v] == rc_raw_count(clean@, v, i as nat));
                    } else {
                        assert(rc_raw_count(clean@, v, i as nat) == 0);
                    }
                } else {
                    assert(mpre.contains_key(v));
                    assert(mpre[v] == rc_raw_count(clean@, v, i as nat));
                }
            }
            assert forall|v: u64| !raw_counts@.contains_key(v) implies #[trigger] rc_raw_count(
                clean@,
                v,
                (i + 1) as nat,
            ) == 0 by {
                assert(!mpre.contains_key(v));
                assert(rc_raw_count(clean@, v, i as nat) == 0);
            }
        }
        i = i + 1;
    }
    let n_raw = raw_vals.len();
    let mut keys: Vec<(u64, u64)> = Vec::new();
    let mut idx: Vec<usize> = Vec::new();
    let mut counts_in_order: Vec<u64> = Vec::new();
    i = 0;
    while i < n_raw
        invariant
            n_raw == raw_vals@.len(),
            i <= n_raw,
            keys@.len() == i,
            idx@.len() == i,
            forall|k: int| 0 <= k < i ==> #[trigger] idx@[k] == k,
            forall|k: int| 0 <= k < raw_vals@.len() ==> raw_counts@.contains_key(#[trigger] raw_vals@[k]),
            n == clean@.len(),
            forall|v: u64| #[trigger] raw_counts@.contains_key(v) ==> raw_counts@[v] == rc_raw_count(clean@, v, n as nat),
            forall|k: int| 0 <= k < i ==> #[trigger] keys@[k] == (
                (u64::MAX - rc_raw_count(clean@, raw_vals@[k], n as nat)) as u64,
                raw_vals@[k],
            ),
        decreases n_raw - i,
    {
        let v = raw_vals[i];
        let c: u64 = match raw_counts.get(&v) {
            Some(c) => *c,
            None => 0,
        };
        keys.push((u64::MAX - c, v));
        idx.push(i);
        i = i + 1;
    }
    let order = sort_by_keys(idx.as_slice(), keys.as_slice());
    proof {
        broadcast use vstd::seq_lib::group_to_multiset_ensures;

        assert(order@.len() == order@.to_multiset().len());
        assert(idx@.len() == idx@.to_multiset().len());
    }
    let mut sorted_vals: Vec<u64> = Vec::new();
    i = 0;
    while i < order.len()
        invariant
            i <= order@.len(),
            sorted_vals@.len() == i,
            n_raw == raw_vals@.len(),
            keys@.len() == n_raw,
            total_rv <= n,
            n <= u32::MAX,
            forall|k: int| 0 <= k < order@.len() ==> order@[k] < keys@.len(),
            forall|k: int| 0 <= k < raw_vals@.len() ==> raw_counts@.contains_key(#[trigger] raw_vals@[k]),
            forall|v: u64| #[trigger] raw_counts@.contains_key(v) ==> raw_counts@[v] <= total_rv,
            counts_in_order@.len() == i,
            forall|k: int| 0 <= k < i ==> #[trigger] counts_in_order@[k] <= total_rv,
            forall|k: int| 0 <= k < i ==> raw_counts@.contains_key(#[trigger] sorted_vals@[k]),
            forall|k: int| 0 <= k < raw_vals@.len() ==> rc_raw_occurs(clean@, #[trigger] raw_vals@[k]),
            forall|k: int| 0 <= k < i ==> rc_raw_occurs(clean@, #[trigger] sorted_vals@[k]),
            forall|k: int| 0 <= k < i ==> #[trigger] sorted_vals@[k] == raw_vals@[order@[k] as int],
            forall|k: int| 0 <= k < n_raw ==> #[trigger] keys@[k] == (
                (u64::MAX - rc_raw_count(clean@, raw_vals@[k], n as nat)) as u64,
                raw_vals@[k],
            ),
        decreases order@.len() - i,
    {
        let v = raw_vals[order[i]];
        sorted_vals.push(v);
        let c: u64 = match raw_counts.get(&v) {
            Some(c) => *c,
            None => 0,
        };
        counts_in_order.push(c);
        i = i + 1;
    }
    proof {
        broadcast use vstd::seq_lib::group_to_multiset_ensures;

        assert forall|j: int| 0 <= j < n && (#[trigger] clean@[j]).0 == TAG_RAW implies sorted_vals@.contains(
            clean@[j].1,
        ) by {
            let v = clean@[j].1;
            assert(raw_vals@.contains(v));
            let k = choose|k: int| 0 <= k < raw_vals@.len() && raw_vals@[k] == v;
            assert(idx@[k] == k as usize);
            assert(idx@.contains(k as usize));
            assert(idx@.to_multiset().count(k as usize) > 0);
            assert(order@.contains(k as usize));
            let q = choose|q: int| 0 <= q < order@.len() && order@[q] == k as usize;
            assert(sorted_vals@[q] == v);
        }
        assert forall|a: int, b: int| 0 <= a < b < sorted_vals@.len() implies rc_raw_before(
            clean@,
            #[trigger] sorted_vals@[a],
            #[trigger] sorted_vals@[b],
        ) by {
            assert(key_order(keys@)(order@[a], order@[b]));
            assert(crate::sort::key_leq(keys@, order@[a], order@[b]));
        }
    }
    let raw_scale: u64 = if n_raw as u64 * 16 > 4096 {
        n_raw as u64 * 16
    } else {
        4096
    };
    let mut raw_scaled: Vec<u64> = Vec::new();
    let mut raw_cum: Vec<u64> = vec![0u64];
    // the value model is kept only where its table sums to its total and
    // its count, values and frequencies fit the 16-bit fields of the layout
    let mut model_ok: bool = n_raw > 0 && n_raw < 0x1_0000 && raw_scale <= MAX_TOTAL && total_rv > 0;
    if model_ok {
        raw_scaled = scale_freqs(&counts_in_order, total_rv, raw_scale, false);
        if table_ok(&raw_scaled, raw_scale) && all_below(&sorted_vals, 0x1_0000) && all_below(&raw_scaled, 0x1_0000) {
            raw_cum = cumulative(&raw_scaled, raw_scale);
        } else {
            model_ok = false;
        }
    }
    if !model_ok {
        sorted_vals = Vec::new();
        raw_scaled = Vec::new();
        raw_cum = vec![0u64];
    }
    let n_raw = sorted_vals.len();
    assert(n_raw > 0 ==> forall|j: int| 0 <= j < n && (#[trigger] clean@[j]).0 == TAG_RAW ==> sorted_vals@.contains(clean@[j].1));
    // encode
    let mut rc_tags = RangeEncoder::new();
    let mut rc_raw = RangeEncoder::new();
    let mut payload = BitWriter::new();
    i = 0;
    while i < n
        invariant
            n == clean@.len(),
            n <= u32::MAX,
            i <= n,
            rc_tags.wf(),
            rc_raw.wf(),
            payload.wf(),
            rc_tags.state().2 <= 32 * i,
            rc_raw.state().2 <= 32 * i,
            n_tags == active_tags@.len(),
            n_tags == scaled@.len(),
            cum@.len() == n_tags + 1,
            forall|k: int| 0 <= k <= n_tags ==> #[trigger] cum@[k] == cum_sum(scaled@, k),
            cum_sum(scaled@, n_tags as int) == 4096,
            forall|k: int| 0 <= k < n_tags ==> #[trigger] scaled@[k] >= 1,
            n_raw == sorted_vals@.len(),
            n_raw > 0 ==> raw_cum@.len() == n_raw + 1 && raw_scaled@.len() == n_raw && raw_scale <= MAX_TOTAL
                && cum_sum(raw_scaled@, n_raw as int) == raw_scale && (forall|k: int|
                0 <= k <= n_raw ==> #[trigger] raw_cum@[k] == cum_sum(raw_scaled@, k)) && (forall|k: int|
                0 <= k < n_raw ==> #[trigger] raw_scaled@[k] >= 1),
            block_bits <= 64,
            rc_tags.state() == crate::range_coder::enc_run(rc_tag_syms(clean@, active_tags@, scaled@), i as nat),
            payload.bits() == rc_payload_bits(clean@, n_raw as nat, block_bits as nat, use_odd_sep, i as nat),
            n_raw > 0 ==> forall|j: int| 0 <= j < n && (#[trigger] clean@[j]).0 == TAG_RAW ==> sorted_vals@.contains(clean@[j].1),
            n_raw > 0 ==> rc_raw.state() == crate::range_coder::enc_run(
                rc_raw_syms(clean@, sorted_vals@, raw_scaled@, i as nat),
                rc_raw_syms(clean@, sorted_vals@, raw_scaled@, i as nat).len(),
            ),
        decreases n - i,
    {
        let (tag, value) = clean[i];
        let ghost raw_before = rc_raw_syms(clean@, sorted_vals@, raw_scaled@, i as nat);
        let ghost raw_state = rc_raw.state();
        assert(rc_raw_syms(clean@, sorted_vals@, raw_scaled@, (i + 1) as nat) == if tag == TAG_RAW {
            raw_before.push(rc_raw_sym(sorted_vals@, raw_scaled@, value))
        } else {
            raw_before
        });
        let mut idx_t: usize = 0;
        let mut q: usize = 0;
        while q < n_tags
            invariant_except_break
                idx_t == 0,
            invariant
                q <= n_tags,
                idx_t < n_tags,
                n_tags == active_tags@.len(),
                first_tag_index(active_tags@, tag, 0) == first_tag_index(active_tags@, tag, q as nat),
            ensures
                idx_t == first_tag_index(active_tags@, tag, 0),
            decreases n_tags - q,
        {
            if active_tags[q] == tag {
                idx_t = q;
                break;
            }
            q = q + 1;
        }
        assert(rc_tag_syms(clean@, active_tags@, scaled@)[i as int] == (
            cum@[idx_t as int] as int,
            (cum@[idx_t + 1] - cum@[idx_t as int]) as int,
            4096int,
        ));
        proof {
            lemma_cum_sum_mono(scaled@, idx_t + 1, n_tags as int);
        }
        rc_tags.encode(cum[idx_t], cum[idx_t + 1] - cum[idx_t], 4096);
        if tag == TAG_SYM {
            if use_odd_sep {
                let odd = ((value >> 32u64) & 1) as u8;
                let k = value & 0xFFFF_FFFF;
                payload.write_bit(odd);
                payload.write_uleb(k);
            } else {
                payload.write_uleb(value);
            }
        } else if tag == TAG_RAW {
            if n_raw > 0 {
                let mut ri: usize = 0;
                let mut found = false;
                let mut q: usize = 0;
                assert(clean@[i as int].0 == TAG_RAW);
                assert(sorted_vals@.contains(value));
                while q < n_raw
                    invariant_except_break
                        !found,
                    invariant
                        q <= n_raw,
                        ri < n_raw,
                        n_raw == sorted_vals@.len(),
                        first_val_index(sorted_vals@, value, 0) == first_val_index(sorted_vals@, value, q as nat),
                        exists|t: int| q <= t < n_raw && sorted_vals@[t] == value,
                    ensures
                        found,
                        ri == first_val_index(sorted_vals@, value, 0),
                    decreases n_raw - q,
                {
                    if sorted_vals[q] == value {
                        ri = q;
                        found = true;
                        break;
                    }
                    q = q + 1;
                }
                if found {
                    proof {
                        lemma_cum_sum_mono(raw_scaled@, ri + 1, n_raw as int);
                    }
                    rc_raw.encode(raw_cum[ri], raw_cum[ri + 1] - raw_cum[ri], raw_scale);
                    proof {
                        lemma_enc_run_push(raw_before, rc_raw_sym(sorted_vals@, raw_scaled@, value));
                    }
                }
            } else {
                payload.write_bits(value, block_bits);
            }
        } else if tag == TAG_ZERO_RLE {
            payload.write_uleb(value);
        }
        i = i + 1;
    }
    let rc_tags_data = rc_tags.flush();
    let rc_raw_data: Vec<u8> = if n_raw > 0 {
        rc_raw.flush()
    } else {
        Vec::new()
    };
    let ghost pbits = payload.bits();
    let payload_data = payload.flush();
    let mut out: Vec<u8> = Vec::new();
    out.push(n_tags as u8);
    out.extend_from_slice(active_tags.as_slice());
    let ghost h0 = out@;
    assert(scaled@.take(0) =~= Seq::<u64>::empty());
    i = 0;
    while i < n_tags
        invariant
            i <= n_tags,
            n_tags == scaled@.len(),
            out@ == h0 + u16s_bytes(scaled@.take(i as int)),
        decreases n_tags - i,
    {
        push_u16_le(&mut out, scaled[i] as u16);
        i = i + 1;
        assert(scaled@.take(i as int).drop_last() =~= scaled@.take(i - 1));
    }
    assert(scaled@.take(n_tags as int) =~= scaled@);
    push_u16_le(&mut out, n_raw as u16);
    let ghost h1 = out@;
    assert(sorted_vals@.take(0) =~= Seq::<u64>::empty());
    i = 0;
    while i < n_raw
        invariant
            i <= n_raw,
            n_raw == sorted_vals@.len(),
            out@ == h1 + u16s_bytes(sorted_vals@.take(i as int)),
        decreases n_raw - i,
    {
        push_u16_le(&mut out, sorted_vals[i] as u16);
        i = i + 1;
        assert(sorted_vals@.take(i as int).drop_last() =~= sorted_vals@.take(i - 1));
    }
    assert(sorted_vals@.take(n_raw as int) =~= sorted_vals@);
    let ghost h2 = out@;
    assert(raw_scaled@.take(0) =~= Seq::<u64>::empty());
    i = 0;
    while i < raw_scaled.len()
        invariant
            i <= raw_scaled@.len(),
            out@ == h2 + u16s_bytes(raw_scaled@.take(i as int)),
        decreases raw_scaled@.len() - i,
    {
        push_u16_le(&mut out, raw_scaled[i] as u16);
        i = i + 1;
        assert(raw_scaled@.take(i as int).drop_last() =~= raw_scaled@.take(i - 1));
    }
    assert(raw_scaled@.take(raw_scaled@.len() as int) =~= raw_scaled@);
    push_u32_le(&mut out, rc_tags_data.len() as u32);
    push_u32_le(&mut out, rc_raw_data.len() as u32);
    out.extend_from_slice(rc_tags_data.as_slice());
    out.extend_from_slice(rc_raw_data.as_slice());
    out.extend_from_slice(payload_data.as_slice());
    proof {
        let tags = rc_tags_upto(clean@, 8);
        assert(active_tags@ == tags);
        assert(out@ == rc_body(tags, scaled@, sorted_vals@, raw_scaled@, rc_tags_data@, rc_raw_data@, payload_data@));
        assert(bytes_bits(payload_data@) == pad_bits(rc_payload_bits(clean@, sorted_vals@.len(), block_bits as nat, use_odd_sep, clean@.len())));
    }
    (out, n as u64)
}


// ───────────────────────────── Huffman-coded body ─────────────────────────────

/// Huffman code lengths of weights `w` (at least two, sorted ascending), by
/// the two-queue construction: the code length of each leaf is its depth.
fn huffman_lengths(w: &Vec<u64>) -> (lens: Vec<u64>)
    requires
        2 <= w@.len() <= 0x4000_0000,
        forall|i: int| 0 <= i < w@.len() ==> #[trigger] w@[i] <= 0x1_0000_0000,
    ensures
        lens@.len() == w@.len(),
        forall|i: int| 0 <= i < lens@.len() ==> #[trigger] lens@[i] < w@.len(),
{
    let n = w.len();
    let total_nodes = 2 * n - 1;
    let mut weight: Vec<u64> = Vec::new();
    let mut parent: Vec<usize> = Vec::new();
    let mut i: usize = 0;
    while i < n
        invariant
            i <= n,
            n == w@.len(),
            2 <= n <= 0x4000_0000,
            forall|k: int| 0 <= k < w@.len() ==> #[trigger] w@[k] <= 0x1_0000_0000,
            total_nodes == 2 * n - 1,
            weight@.len() == i,
            parent@.len() == i,
            forall|k: int| 0 <= k < i ==> #[trigger] parent@[k] == total_nodes,
            forall|k: int| 0 <= k < i ==> #[trigger] weight@[k] <= 0x8000_0000_0000_0000,
        decreases n - i,
    {
        assert(w@[i as int] <= 0x1_0000_0000);
        weight.push(w[i]);
        parent.push(total_nodes);
        i = i + 1;
    }
    // queue A: leaves ia..n; queue B: internal nodes ib..next
    let mut ia: usize = 0;
    let mut ib: usize = n;
    let mut next: usize = n;
    while next < total_nodes
        invariant
            n == w@.len(),
            2 <= n <= 0x4000_0000,
            total_nodes == 2 * n - 1,
            n <= next <= total_nodes,
            weight@.len() == next,
            parent@.len() == next,
            ia <= n,
            n <= ib <= next,
            (n - ia) + (next - ib) == total_nodes - next + 1,
            forall|k: int| 0 <= k < next ==> #[trigger] parent@[k] == total_nodes || (k < parent@[k] < next),
            forall|k: int| 0 <= k < next ==> #[trigger] weight@[k] <= 0x8000_0000_0000_0000,
        decreases total_nodes - next,
    {
        // the two smallest queue fronts, leaves first among equals
        let take_leaf = if ia < n && ib < next {
            weight[ia] <= weight[ib]
        } else {
            ia < n
        };
        let a = if take_leaf {
            ia = ia + 1;
            ia - 1
        } else {
            ib = ib + 1;
            ib - 1
        };
        let take_leaf2 = if ia < n && ib < next {
            weight[ia] <= weight[ib]
        } else {
            ia < n
        };
        let b = if take_leaf2 {
            ia = ia + 1;
            ia - 1
        } else {
            ib = ib + 1;
            ib - 1
        };
        let s = if weight[a] > 0x8000_0000_0000_0000 - weight[b] {
            0x8000_0000_0000_0000
        } else {
            weight[a] + weight[b]
        };
        parent.set(a, next);
        parent.set(b, next);
        weight.push(s);
        parent.push(total_nodes);
        next = next + 1;
    }
    // depths from the root down
    let mut depth: Vec<u64> = vec![0u64; total_nodes];
    let mut k: usize = total_nodes;
    while k > 0
        invariant
            k <= total_nodes,
            depth@.len() == total_nodes,
            parent@.len() == total_nodes,
            total_nodes == 2 * n - 1,
            n == w@.len(),
            forall|q: int| 0 <= q < total_nodes ==> #[trigger] parent@[q] == total_nodes || (q < parent@[q] < total_nodes),
            forall|q: int| 0 <= q < total_nodes ==> #[trigger] depth@[q] < n,
        decreases k,
    {
        k = k - 1;
        let p = parent[k];
        if p < total_nodes {
            let d = depth[p];
            if d + 1 < n as u64 {
                depth.set(k, d + 1);
            }
        }
    }
    let mut lens: Vec<u64> = Vec::new();
    i = 0;
    while i < n
        invariant
            i <= n,
            lens@.len() == i,
            depth@.len() == total_nodes,
            total_nodes == 2 * n - 1,
            n == w@.len(),
            forall|q: int| 0 <= q < total_nodes ==> #[trigger] depth@[q] < n,
            forall|q: int| 0 <= q < i ==> #[trigger] lens@[q] < n,
        decreases n - i,
    {
        lens.push(depth[i]);
        i = i + 1;
    }
    lens
}

/// Canonical Huffman body of a symbol stream: `[n_syms u16 LE][sym u8,
/// len u8]...` over the symbols present (ascending), then the codes,
/// MSB first, zero-padded.  Returns the body and its length; the body is
/// built only when every symbol fits a byte (its length is computed in any
/// case), and both are empty when the stream has fewer than 64 symbols or
/// a single distinct one, or a code would exceed 32 bits.
fn huffman_encode_symbols(data: &Vec<u64>) -> (r: (Vec<u8>, u64))
    requires
        data@.len() <= u32::MAX,
    ensures
        data@.len() < 64 ==> r.1 == 0,
        r.0@.len() > 0 ==> r.0@.len() == r.1,
{
    let n = data.len();
    if n < 64 {
        return (Vec::new(), 0);
    }
    let mut counts: HashMap<u64, u64> = HashMap::new();
    let mut syms: Vec<u64> = Vec::new();
    let mut max_sym: u64 = 0;
    let mut i: usize = 0;
    while i < n
        invariant
            n == data@.len(),
            n <= u32::MAX,
            i <= n,
            syms@.len() <= i,
            forall|v: u64| #[trigger] counts@.contains_key(v) ==> counts@[v] <= i,
            forall|k: int| 0 <= k < syms@.len() ==> counts@.contains_key(#[trigger] syms@[k]),
            forall|v: u64| #[trigger] counts@.contains_key(v) ==> syms@.contains(v),
            syms@.no_duplicates(),
            forall|k: int| 0 <= k < syms@.len() ==> #[trigger] syms@[k] <= max_sym,
        decreases n - i,
    {
        let v = data[i];
        let ghost m0 = counts@;
        let ghost s0 = syms@;
        match counts.get(&v) {
            Some(c) => {
                let c2 = *c + 1;
                counts.insert(v, c2);
                proof {
                    assert(s0.contains(v));
                }
            },
            None => {
                counts.insert(v, 1);
                syms.push(v);
                proof {
                    assert(syms@[syms@.len() - 1] == v);
                    assert forall|a: int, b: int| 0 <= a < b < syms@.len() implies syms@[a] != syms@[b] by {
                        if b == syms@.len() - 1 {
                            assert(m0.contains_key(s0[a]));
                        }
                    }
                }
            },
        }
        if v > max_sym {
            max_sym = v;
        }
        proof {
            assert forall|x: u64| #[trigger] counts@.contains_key(x) implies syms@.contains(x) by {
                if x != v {
                    assert(m0.contains_key(x));
                    let k = choose|k: int| 0 <= k < s0.len() && s0[k] == x;
                    assert(syms@[k] == x);
                } else if s0.contains(v) {
                    let k = choose|k: int| 0 <= k < s0.len() && s0[k] == v;
                    assert(syms@[k] == v);
                } else {
                    assert(syms@[syms@.len() - 1] == v);
                }
            }
        }
        i = i + 1;
    }
    let ns = syms.len();
    if ns < 2 || ns > 0x4000_0000 {
        return (Vec::new(), 0);
    }
    // leaves sorted by (count, symbol)
    let mut keys: Vec<(u64, u64)> = Vec::new();
    let mut idx: Vec<usize> = Vec::new();
    i = 0;
    while i < ns
        invariant
            ns == syms@.len(),
            i <= ns,
            keys@.len() == i,
            idx@.len() == i,
            forall|k: int| 0 <= k < i ==> #[trigger] idx@[k] == k,
            forall|k: int| 0 <= k < i ==> #[trigger] keys@[k].0 <= n,
            forall|k: int| 0 <= k < syms@.len() ==> counts@.contains_key(#[trigger] syms@[k]),
            forall|v: u64| #[trigger] counts@.contains_key(v) ==> counts@[v] <= n,
        decreases ns - i,
    {
        let v = syms[i];
        let c: u64 = match counts.get(&v) {
            Some(c) => *c,
            None => 0,
        };
        keys.push((c, v));
        idx.push(i);
        i = i + 1;
    }
    let order = sort_by_keys(idx.as_slice(), keys.as_slice());
    proof {
        broadcast use vstd::seq_lib::group_to_multiset_ensures;

        assert(order@.len() == order@.to_multiset().len());
        assert(idx@.len() == idx@.to_multiset().len());
    }
    let mut w: Vec<u64> = Vec::new();
    i = 0;
    while i < ns
        invariant
            ns == order@.len(),
            ns == keys@.len(),
            i <= ns,
            w@.len() == i,
            n <= u32::MAX,
            forall|k: int| 0 <= k < order@.len() ==> order@[k] < keys@.len(),
            forall|k: int| 0 <= k < keys@.len() ==> #[trigger] keys@[k].0 <= n,
            forall|k: int| 0 <= k < i ==> #[trigger] w@[k] <= 0x1_0000_0000,
        decreases ns - i,
    {
        w.push(keys[order[i]].0);
        i = i + 1;
    }
    let lens_sorted = huffman_lengths(&w);
    // code length per distinct symbol (index into `syms`), and the coded size
    let mut len_of: Vec<u64> = vec![0u64; ns];
    let mut bits: u128 = 0;
    i = 0;
    while i < ns
        invariant
            ns == order@.len(),
            ns == w@.len(),
            ns == lens_sorted@.len(),
            len_of@.len() == ns,
            i <= ns,
            forall|k: int| 0 <= k < order@.len() ==> order@[k] < ns,
            forall|k: int| 0 <= k < ns ==> #[trigger] lens_sorted@[k] < ns,
            forall|k: int| 0 <= k < ns ==> #[trigger] len_of@[k] < ns,
            forall|k: int| 0 <= k < ns ==> #[trigger] w@[k] <= 0x1_0000_0000,
            ns <= u32::MAX,
            bits <= i * 0x1_0000_0000 * 0x1_0000_0000,
        decreases ns - i,
    {
        let l = lens_sorted[i];
        len_of.set(order[i], l);
        assert(w@[i as int] * l <= 0x1_0000_0000 * 0x1_0000_0000) by (nonlinear_arith)
            requires
                w@[i as int] <= 0x1_0000_0000,
                l < 0x1_0000_0000,
        ;
        assert(bits + w@[i as int] * l <= (i + 1) * 0x1_0000_0000 * 0x1_0000_0000) by (nonlinear_arith)
            requires
                bits <= i * 0x1_0000_0000 * 0x1_0000_0000,
                w@[i as int] * l <= 0x1_0000_0000 * 0x1_0000_0000,
        ;
        assert((i + 1) * 0x1_0000_0000 * 0x1_0000_0000 <= 0x1_0000_0000 * 0x1_0000_0000 * 0x1_0000_0000)
            by (nonlinear_arith)
            requires
                i + 1 <= 0x1_0000_0000,
        ;
        bits = bits + (w[i] as u128) * (l as u128);
        i = i + 1;
    }
    let body_len: u128 = 2 + 2 * (ns as u128) + (bits + 7) / 8;
    if body_len > u64::MAX as u128 {
        return (Vec::new(), 0);
    }
    let total_len = body_len as u64;
    if max_sym > 255 {
        return (Vec::new(), total_len);
    }
    // canonical codes: by (length, symbol)
    let mut ckeys: Vec<(u64, u64)> = Vec::new();
    let mut cidx: Vec<usize> = Vec::new();
    i = 0;
    while i < ns
        invariant
            ns == syms@.len(),
            ns == len_of@.len(),
            i <= ns,
            ckeys@.len() == i,
            cidx@.len() == i,
            forall|k: int| 0 <= k < i ==> #[trigger] cidx@[k] == k,
        decreases ns - i,
    {
        ckeys.push((len_of[i], syms[i]));
        cidx.push(i);
        i = i + 1;
    }
    let corder = sort_by_keys(cidx.as_slice(), ckeys.as_slice());
    let mut table: Vec<(u64, u64)> = Vec::new();
    while table.len() < 256
        invariant
            table@.len() <= 256,
            forall|k: int| 0 <= k < table@.len() ==> (#[trigger] table@[k]).1 <= 32,
        decreases 256 - table@.len(),
    {
        table.push((0, 0));
    }
    let mut code: u64 = 0;
    let mut prev_len: u64 = 0;
    i = 0;
    while i < corder.len()
        invariant
            i <= corder@.len(),
            table@.len() == 256,
            ns == syms@.len(),
            ns == len_of@.len(),
            forall|k: int| 0 <= k < corder@.len() ==> corder@[k] < ckeys@.len(),
            ckeys@.len() == ns,
            prev_len <= 32,
            code <= 0x1_0000_0000,
            forall|k: int| 0 <= k < 256 ==> (#[trigger] table@[k]).1 <= 32,
        decreases corder@.len() - i,
    {
        if code > 0xFFFF_FFFF {
            return (Vec::new(), 0);
        }
        let j = corder[i];
        let l = len_of[j];
        let sym = syms[j];
        if l > 32 || l < prev_len {
            return (Vec::new(), 0);
        }
        if l > prev_len {
            code = code << (l - prev_len);
        }
        if code >= 0x1_0000_0000 || sym > 255 {
            return (Vec::new(), 0);
        }
        table.set(sym as usize, (code, l));
        code = code + 1;
        prev_len = l;
        i = i + 1;
    }
    let mut out: Vec<u8> = Vec::new();
    push_u16_le(&mut out, ns as u16);
    // header in ascending symbol order
    let mut s: u64 = 0;
    while s < 256
        invariant
            s <= 256,
            table@.len() == 256,
        decreases 256 - s,
    {
        if counts.contains_key(&s) {
            out.push(s as u8);
            out.push(table[s as usize].1 as u8);
        }
        s = s + 1;
    }
    let mut bw = BitWriter::new();
    i = 0;
    while i < n
        invariant
            i <= n,
            n == data@.len(),
            bw.wf(),
            table@.len() == 256,
            forall|k: int| 0 <= k < 256 ==> (#[trigger] table@[k]).1 <= 32,
        decreases n - i,
    {
        let v = data[i];
        if v < 256 {
            let (c, l) = table[v as usize];
            bw.write_bits(c, l as usize);
        }
        i = i + 1;
    }
    let bytes = bw.flush();
    out.extend_from_slice(bytes.as_slice());
    if out.len() as u64 != total_len {
        return (Vec::new(), 0);
    }
    (out, total_len)
}


// ───────────────────────────── archive ─────────────────────────────

/// Flags byte: bit 0 delta, bit 1 RLE, bit 2 MFS, bit 3 odd-bit separation,
/// bit 6 Huffman body, bit 7 range-coded body.
pub open spec fn mk_flags(delta: bool, rle: bool, mfs: bool, odd: bool, hf: bool, rc: bool) -> u8 {
    (if delta { 1u8 } else { 0u8 }) | (if rle { 2u8 } else { 0u8 }) | (if mfs { 4u8 } else { 0u8 }) | (if odd {
        8u8
    } else {
        0u8
    }) | (if hf { 64u8 } else { 0u8 }) | (if rc { 128u8 } else { 0u8 })
}

proof fn lemma_flags(delta: bool, rle: bool, mfs: bool, odd: bool, hf: bool, rc: bool)
    by (bit_vector)
    ensures
        (mk_flags(delta, rle, mfs, odd, hf, rc) & 1u8 == 1u8) == delta,
        (mk_flags(delta, rle, mfs, odd, hf, rc) & 2u8 == 2u8) == rle,
        (mk_flags(delta, rle, mfs, odd, hf, rc) & 4u8 == 4u8) == mfs,
        (mk_flags(delta, rle, mfs, odd, hf, rc) & 8u8 == 8u8) == odd,
        (mk_flags(delta, rle, mfs, odd, hf, rc) & 64u8 == 64u8) == hf,
        (mk_flags(delta, rle, mfs, odd, hf, rc) & 128u8 == 128u8) == rc,
{
}

/// The MFS field of the header: with odd-bit separation a byte holding bit 0
/// of the value and the ULEB of the value shifted right once, else the ULEB
/// of the value.
pub open spec fn mfs_field(used: bool, mv: u64, odd_sep: bool) -> Seq<u8> {
    if !used {
        Seq::empty()
    } else if odd_sep {
        seq![(mv & 1u64) as u8] + uleb_bytes((mv >> 1u64) as nat)
    } else {
        uleb_bytes(mv as nat)
    }
}

/// `out` is the archive of `d` built from the Phase A symbols `syms` and the
/// Phase B stream `es` with most frequent symbol `m`.
pub open spec fn encoded_from(
    out: Seq<u8>,
    d: Seq<u8>,
    bb: nat,
    delta: bool,
    syms: Seq<(u8, u64)>,
    es: Seq<(u8, u64, u64)>,
    m: Option<u64>,
) -> bool {
    let bytes = bb / 8;
    let nb = blocks_for(d.len(), bytes);
    let flags = out[5];
    let odd_sep = bb >= 32;
    let mv = if m is Some { m->Some_0 } else { 0 };
    let hdr = header_bytes(flags, bb as u8, d.len(), nb) + mfs_field(flags & 4u8 == 4u8, mv, odd_sep);
    let body = out.subrange(hdr.len() as int, out.len() as int);
    &&& syms.len() == nb
    &&& forall|i: int| 0 <= i < nb ==> sym_fits(#[trigger] syms[i], block_vals(d, bytes, bb, delta, nb)[i])
    &&& mfs_ok(syms, m)
    &&& expand(es, mv) == syms
    &&& forall|i: int| 0 <= i < es.len() ==> entry_ok(#[trigger] es[i], m)
    &&& out.len() >= hdr.len()
    &&& out.subrange(0, hdr.len() as int) == hdr
    &&& (flags & 1u8 == 1u8) == delta
    &&& (flags & 8u8 == 8u8) == odd_sep
    &&& (flags & 4u8 == 4u8) == (m is Some && exists|i: int| 0 <= i < es.len() && (#[trigger] es[i]).0 == TAG_MFS)
    &&& (flags & 2u8 == 2u8) == (exists|i: int|
        0 <= i < es.len() && ((#[trigger] es[i]).0 == TAG_ZERO_RLE || es[i].0 == TAG_RAW_RLE))
    &&& !(flags & 64u8 == 64u8 && flags & 128u8 == 128u8)
    &&& (flags & 64u8 == 64u8 || flags & 128u8 == 128u8) ==> d.len() >= 256
    &&& (flags & 64u8 != 64u8 && flags & 128u8 != 128u8) ==> bytes_bits(body) == pad_bits(
        write_entries(es, bb, odd_sep),
    )
    &&& flags & 128u8 == 128u8 ==> body.len() >= uleb_bytes(clean_entries(es).len()).len() && body.subrange(
        0,
        uleb_bytes(clean_entries(es).len()).len() as int,
    ) == uleb_bytes(clean_entries(es).len())
    &&& flags & 128u8 == 128u8 ==> rc_layout_of(
        body.subrange(uleb_bytes(clean_entries(es).len()).len() as int, body.len() as int),
        clean_entries(es),
        bb,
        odd_sep,
    )
    &&& flags & 128u8 == 128u8 ==> body.len() < uleb_bytes(clean_entries(es).len()).len() + pad_bits(
        write_entries(es, bb, odd_sep),
    ).len() / 8
    &&& exists|rc: Seq<u8>, hf: Seq<u8>, hl: nat, fit: bool| #[trigger] coded_candidates(out, d, bb, es, rc, hf, hl, fit)
}

/// The range-coded and Huffman bodies `encode` weighed for archive `out` of
/// `d` with Phase B stream `es`, and the choice it made among them and the
/// bit-packed body.
pub open spec fn coded_candidates(
    out: Seq<u8>,
    d: Seq<u8>,
    bb: nat,
    es: Seq<(u8, u64, u64)>,
    rc: Seq<u8>,
    hf: Seq<u8>,
    hl: nat,
    fit: bool,
) -> bool {
    let odd = bb >= 32;
    &&& rc_candidate(rc, es, bb, odd)
    &&& body_choice(out[5] & 64u8 == 64u8, out[5] & 128u8 == 128u8, d.len(), bp_body_len(es, bb, odd), rc, hf, hl, fit)
}

/// `out` is the archive `encode` writes for `d` over `s`: the bare header
/// for empty data, else an archive built from Phase A symbols and a Phase B
/// stream, whose SYM symbols name their blocks whenever super-symbols are
/// read back exactly.
pub open spec fn ssp_encoded(out: Seq<u8>, d: Seq<u8>, bb: nat, delta: bool, s: Seq<u64>) -> bool {
    &&& d.len() == 0 ==> out == header_bytes(0, bb as u8, 0, 0)
    &&& d.len() > 0 ==> exists|syms: Seq<(u8, u64)>, es: Seq<(u8, u64, u64)>, m: Option<u64>|
        #[trigger] encoded_from(out, d, bb, delta, syms, es, m) && (packed_syms_exact(bb, s) ==> syms_decode(
            syms,
            d,
            bb,
            delta,
            s,
        ))
}

/// Phase A and Phase B of `data`.
fn build_symbols(data: &[u8], s: &[u64], block_bits: usize, delta: bool) -> (r: (
    Vec<(u8, u64)>,
    Vec<(u8, u64, u64)>,
    Option<u64>,
))
    requires
        8 <= block_bits <= 63,
        1 <= data@.len() <= u32::MAX,
        data@.len() + 8 <= usize::MAX,
        s@.len() < MAX_S_LEN,
        sums_fit(s@),
    ensures
        ({
            let nb = blocks_for(data@.len(), (block_bits / 8) as nat);
            let mv = if r.2 is Some { r.2->Some_0 } else { 0 };
            &&& r.0@.len() == nb
            &&& forall|i: int|
                0 <= i < nb ==> sym_fits(
                    #[trigger] r.0@[i],
                    block_vals(data@, (block_bits / 8) as nat, block_bits as nat, delta, nb)[i],
                )
            &&& mfs_ok(r.0@, r.2)
            &&& expand(r.1@, mv) == r.0@
            &&& forall|i: int| 0 <= i < r.1@.len() ==> entry_ok(#[trigger] r.1@[i], r.2)
            &&& r.1@.len() <= clean_entries(r.1@).len() <= r.0@.len() <= u32::MAX
            &&& packed_syms_exact(block_bits as nat, s@) ==> syms_decode(r.0@, data@, block_bits as nat, delta, s@)
        }),
{
    let block_bytes = block_bits / 8;
    let num_blocks = (data.len() + block_bytes - 1) / block_bytes;
    assert(num_blocks <= data@.len()) by (nonlinear_arith)
        requires
            num_blocks == (data@.len() + block_bytes - 1) / block_bytes as int,
            block_bytes >= 1,
    ;
    let syms = block_symbols(data, s, block_bits, delta, num_blocks);
    assert(phase_a_ok(syms@)) by {
        assert forall|i: int| 0 <= i < syms@.len() implies (#[trigger] syms@[i]).0 <= TAG_ZERO && (syms@[i].0
            == TAG_ZERO ==> syms@[i].1 == 0) by {
            assert(sym_fits(
                syms@[i],
                block_vals(data@, block_bytes as nat, block_bits as nat, delta, num_blocks as nat)[i],
            ));
        }
    }
    let (es, mfs) = phase_b(&syms);
    let ghost mv = if mfs is Some { mfs->Some_0 } else { 0 };
    proof {
        lemma_entries_len(es@, mfs, mv);
    }
    (syms, es, mfs)
}

/// Length of the bit-packed body of the Phase B stream `es`.
pub open spec fn bp_body_len(es: Seq<(u8, u64, u64)>, bb: nat, odd: bool) -> nat {
    pad_bits(write_entries(es, bb, odd)).len() / 8
}

/// `rc` is what the range coder gives for the entries of `es`: empty or a
/// range-coded layout of them, and not empty when every tag is known.
pub open spec fn rc_candidate(rc: Seq<u8>, es: Seq<(u8, u64, u64)>, bb: nat, odd: bool) -> bool {
    &&& rc.len() > 0 ==> rc_layout_of(rc, clean_entries(es), bb, odd)
    &&& clean_entries(es).len() > 0 && rc_tags_known(clean_entries(es)) ==> rc.len() > 0
    &&& clean_entries(es).len() == 0 ==> rc.len() == 0
}

/// The body choice among the bit-packed body (`bp` bytes), the range-coded
/// body `rc` and the Huffman body `hf` of length `hl` (`fit`: every Huffman
/// symbol fits a byte) for `n` data bytes: Huffman when it is shorter than
/// both others, else range coding when it is shorter than the bit-packed
/// body and no longer than the Huffman one, both only from 256 bytes on.
pub open spec fn body_choice(
    huff: bool,
    rcu: bool,
    n: nat,
    bp: nat,
    rc: Seq<u8>,
    hf: Seq<u8>,
    hl: nat,
    fit: bool,
) -> bool {
    &&& huff == (hf.len() > 0 && hl > 0 && hl < bp && hl < rc.len() && n >= 256 && fit)
    &&& rcu == (!huff && rc.len() > 0 && rc.len() < bp && rc.len() <= hl && n >= 256)
    &&& hf.len() > 0 ==> hf.len() == hl
}

/// Bit-packed, range-coded or Huffman-coded body of a Phase B stream, with
/// the Huffman and range-coding flags.  Range coding is taken when its body
/// is shorter than the bit-packed one and not longer than the Huffman one,
/// Huffman coding when its body is the shortest of the three and every coded
/// symbol fits a byte; neither below 256 data bytes.
fn choose_body(es: &Vec<(u8, u64, u64)>, block_bits: usize, use_odd_sep: bool, data_len: usize) -> (r: (
    Vec<u8>,
    bool,
    bool,
    Ghost<(Seq<u8>, Seq<u8>, nat, bool)>,
))
    requires
        block_bits <= 64,
        es@.len() <= clean_entries(es@).len() <= u32::MAX,
    ensures
        rc_candidate(r.3@.0, es@, block_bits as nat, use_odd_sep),
        body_choice(
            r.1,
            r.2,
            data_len as nat,
            bp_body_len(es@, block_bits as nat, use_odd_sep),
            r.3@.0,
            r.3@.1,
            r.3@.2,
            r.3@.3,
        ),
        r.2 ==> r.0@ == uleb_bytes(clean_entries(es@).len()) + r.3@.0,
        !(r.1 && r.2),
        (r.1 || r.2) ==> data_len >= 256,
        (!r.1 && !r.2) ==> bytes_bits(r.0@) == pad_bits(write_entries(es@, block_bits as nat, use_odd_sep)),
        r.2 ==> r.0@.len() >= uleb_bytes(clean_entries(es@).len()).len() && r.0@.subrange(
            0,
            uleb_bytes(clean_entries(es@).len()).len() as int,
        ) == uleb_bytes(clean_entries(es@).len()),
        r.2 ==> rc_layout_of(
            r.0@.subrange(uleb_bytes(clean_entries(es@).len()).len() as int, r.0@.len() as int),
            clean_entries(es@),
            block_bits as nat,
            use_odd_sep,
        ),
        r.2 ==> r.0@.len() < uleb_bytes(clean_entries(es@).len()).len() + pad_bits(
            write_entries(es@, block_bits as nat, use_odd_sep),
        ).len() / 8,
{
    let bitpacked = bitpack_body(es, block_bits, use_odd_sep);
    let (rc_body, num_cs) = range_code_symbols(es, block_bits, use_odd_sep);
    let mut hf_stream: Vec<u64> = Vec::new();
    let mut gaps: Vec<u64> = Vec::new();
    let mut runs: Vec<u64> = Vec::new();
    let mut since_last: u64 = 0;
    let mut max_sym: u64 = 0;
    let mut i: usize = 0;
    proof {
        assert(es@.subrange(0, 0) =~= Seq::<(u8, u64, u64)>::empty());
    }
    while i < es.len()
        invariant
            i <= es@.len(),
            es@.len() <= u32::MAX,
            clean_entries(es@).len() <= u32::MAX,
            hf_stream@.len() <= clean_entries(es@.subrange(0, i as int)).len(),
            since_last <= hf_stream@.len(),
            gaps@.len() == runs@.len(),
            gaps@.len() <= i,
        decreases es@.len() - i,
    {
        let (tag, val, run) = es[i];
        proof {
            assert(es@.subrange(0, i + 1).drop_last() =~= es@.subrange(0, i as int));
            lemma_clean_prefix_len(es@, i + 1);
        }
        if tag == TAG_ZERO_RLE {
            gaps.push(since_last);
            runs.push(val);
            since_last = 0;
        } else if tag == TAG_RAW_RLE {
            // spelled out as RAW symbols
            let sym = (val << 3u64) | (TAG_RAW as u64);
            let ghost base = hf_stream@.len();
            let mut c: u64 = 0;
            while c < run
                invariant
                    c <= run,
                    hf_stream@.len() == base + c,
                    since_last <= hf_stream@.len(),
                    base + run <= u32::MAX,
                decreases run - c,
            {
                hf_stream.push(sym);
                if sym > max_sym {
                    max_sym = sym;
                }
                since_last = since_last + 1;
                c = c + 1;
            }
        } else {
            let sym = (val << 3u64) | (tag as u64);
            hf_stream.push(sym);
            if sym > max_sym {
                max_sym = sym;
            }
            since_last = since_last + 1;
        }
        i = i + 1;
    }
    assert(es@.subrange(0, es@.len() as int) =~= es@);
    let (hf_body, hf_len) = huffman_encode_symbols(&hf_stream);
    let bp_len = bitpacked.len() as u64;
    let rc_len = rc_body.len() as u64;
    let use_huffman = hf_len > 0 && hf_len < bp_len && hf_len < rc_len && data_len >= 256 && max_sym <= 255
        && hf_body.len() > 0;
    let use_range_coded = !use_huffman && rc_len > 0 && rc_len < bp_len && rc_len <= hf_len && data_len >= 256;
    let mut out: Vec<u8> = Vec::new();
    if use_huffman {
        push_uleb(&mut out, hf_stream.len() as u64);
        push_uleb(&mut out, gaps.len() as u64);
        i = 0;
        while i < gaps.len()
            invariant
                i <= gaps@.len(),
                gaps@.len() == runs@.len(),
            decreases gaps@.len() - i,
        {
            push_uleb(&mut out, gaps[i]);
            push_uleb(&mut out, runs[i]);
            i = i + 1;
        }
        out.extend_from_slice(hf_body.as_slice());
    } else if use_range_coded {
        push_uleb(&mut out, num_cs);
        let ghost mid = out@;
        out.extend_from_slice(rc_body.as_slice());
        assert(out@.subrange(0, mid.len() as int) =~= mid);
        assert(out@.subrange(mid.len() as int, out@.len() as int) =~= rc_body@);
    } else {
        out = bitpacked;
    }
    proof {
        assert(bitpacked@.len() == bp_body_len(es@, block_bits as nat, use_odd_sep));
        if use_range_coded {
            assert(out@ =~= uleb_bytes(clean_entries(es@).len()) + rc_body@);
        }
    }
    (out, use_huffman, use_range_coded, Ghost((rc_body@, hf_body@, hf_len as nat, max_sym <= 255)))
}

/// Encode `data` as an SSP archive with `block_bits`-bit blocks over the
/// special sequence `s`, with subtraction-delta between blocks when `delta`
/// is set.  The body is bit-packed, or range-coded or Huffman-coded when
/// that is smaller and the data has at least 256 bytes.
#[verifier::spinoff_prover]
#[verifier::rlimit(80)]
pub fn encode(data: &[u8], s: &[u64], block_bits: usize, delta: bool) -> (out: Vec<u8>)
    requires
        8 <= block_bits <= 63,
        data@.len() <= u32::MAX,
        data@.len() + 8 <= usize::MAX,
        s@.len() < MAX_S_LEN,
        sums_fit(s@),
    ensures
        ssp_encoded(out@, data@, block_bits as nat, delta, s@),
{
    let block_bytes = block_bits / 8;
    let data_len = data.len();
    if data_len == 0 {
        return encode_empty(block_bits);
    }
    let num_blocks = (data_len + block_bytes - 1) / block_bytes;
    let (syms, es, mfs) = build_symbols(data, s, block_bits, delta);
    let use_odd_sep = block_bits >= 32;
    let mv: u64 = match mfs {
        Some(v) => v,
        None => 0,
    };
    let mut rle_used = false;
    let mut mfs_seen = false;
    let mut i: usize = 0;
    while i < es.len()
        invariant
            i <= es@.len(),
            rle_used == (exists|k: int|
                0 <= k < i && ((#[trigger] es@[k]).0 == TAG_ZERO_RLE || es@[k].0 == TAG_RAW_RLE)),
            mfs_seen == (exists|k: int| 0 <= k < i && (#[trigger] es@[k]).0 == TAG_MFS),
        decreases es@.len() - i,
    {
        let t = es[i].0;
        if t == TAG_ZERO_RLE || t == TAG_RAW_RLE {
            rle_used = true;
        }
        if t == TAG_MFS {
            mfs_seen = true;
        }
        i = i + 1;
    }
    let mfs_used = mfs.is_some() && mfs_seen;
    let (body, use_huffman, use_range_coded, Ghost(cands)) = choose_body(&es, block_bits, use_odd_sep, data_len);
    let flags: u8 = (if delta { 1u8 } else { 0u8 }) | (if rle_used { 2u8 } else { 0u8 }) | (if mfs_used {
        4u8
    } else {
        0u8
    }) | (if use_odd_sep { 8u8 } else { 0u8 }) | (if use_huffman { 64u8 } else { 0u8 }) | (if use_range_coded {
        128u8
    } else {
        0u8
    });
    assert(flags == mk_flags(delta, rle_used, mfs_used, use_odd_sep, use_huffman, use_range_coded));
    proof {
        lemma_flags(delta, rle_used, mfs_used, use_odd_sep, use_huffman, use_range_coded);
    }
    let mut out: Vec<u8> = Vec::new();
    out.push(SSP5_MAGIC[0]);
    out.push(SSP5_MAGIC[1]);
    out.push(SSP5_MAGIC[2]);
    out.push(SSP5_MAGIC[3]);
    out.push(SSP5_VERSION);
    out.push(flags);
    out.push(block_bits as u8);
    push_uleb(&mut out, 1);
    push_uleb(&mut out, 1);
    push_uleb(&mut out, data_len as u64);
    push_uleb(&mut out, num_blocks as u64);
    assert(out@ =~= header_bytes(flags, block_bits as u8, data_len as nat, num_blocks as nat));
    if mfs_used {
        if use_odd_sep {
            out.push((mv & 1) as u8);
            push_uleb(&mut out, mv >> 1);
        } else {
            push_uleb(&mut out, mv);
        }
    }
    let ghost hdr = out@;
    assert(hdr =~= header_bytes(flags, block_bits as u8, data_len as nat, num_blocks as nat) + mfs_field(
        flags & 4u8 == 4u8,
        mv,
        use_odd_sep,
    ));
    assert(hdr[5] == flags);
    out.extend_from_slice(body.as_slice());
    proof {
        assert(out@.subrange(0, hdr.len() as int) =~= hdr);
        assert(out@.subrange(hdr.len() as int, out@.len() as int) =~= body@);
        assert(out@.subrange(0, hdr.len() as int)[5] == hdr[5]);
        assert(out@[5] == flags);
        assert(coded_candidates(out@, data@, block_bits as nat, es@, cands.0, cands.1, cands.2, cands.3));
        assert(encoded_from(out@, data@, block_bits as nat, delta, syms@, es@, mfs));
        assert(packed_syms_exact(block_bits as nat, s@) ==> syms_decode(syms@, data@, block_bits as nat, delta, s@));
    }
    out
}

/// Each Phase B entry stands for at least one clean symbol, each clean
/// symbol for at least one block symbol.
proof fn lemma_entries_len(es: Seq<(u8, u64, u64)>, m: Option<u64>, mv: u64)
    requires
        forall|i: int| 0 <= i < es.len() ==> entry_ok(#[trigger] es[i], m),
    ensures
        es.len() <= clean_entries(es).len() <= expand(es, mv).len(),
    decreases es.len(),
{
    if es.len() > 0 {
        let d = es.drop_last();
        assert forall|i: int| 0 <= i < d.len() implies entry_ok(#[trigger] d[i], m) by {
            assert(d[i] == es[i]);
        }
        lemma_entries_len(d, m, mv);
        assert(entry_ok(es.last(), m));
    }
}



// ───────────────────────────── decoding: blocks ─────────────────────────────

/// Value of super-symbol `k` in `s`; 0 when it has none or it does not fit
/// 64 bits.
pub open spec fn symval_or0(k: u64, s: Seq<u64>) -> u64 {
    match symbol_value(k as int, s) {
        Some(v) => if 0 <= v <= u64::MAX {
            v as u64
        } else {
            0
        },
        None => 0,
    }
}

fn symbol_or_zero(k: u64, s: &[u64]) -> (v: u64)
    ensures
        v == symval_or0(k, s@),
{
    match unrank_symbol(k) {
        Err(_) => 0,
        Ok((op, i, j)) => {
            if i == 0 || j == 0 || i > s.len() as u64 || j > s.len() as u64 {
                0
            } else {
                let si = s[(i - 1) as usize];
                let sj = s[(j - 1) as usize];
                if crate::symbols::op_is_sum(op) {
                    proof {
                        crate::symbols::lemma_unrank_bounds(k as int);
                    }
                    match si.checked_add(sj) {
                        Some(x) => x,
                        None => 0,
                    }
                } else {
                    proof {
                        let u = crate::symbols::unrank_spec(k as int);
                        if u.0 {
                            assert(crate::symbols::is_sum_op(op));
                        }
                    }
                    if si >= sj {
                        si - sj
                    } else {
                        0
                    }
                }
            }
        },
    }
}

/// 64-bit wrapping addition.
pub open spec fn add_wrap(a: u64, b: u64) -> u64 {
    if a + b > u64::MAX {
        (a + b - 0x1_0000_0000_0000_0000) as u64
    } else {
        (a + b) as u64
    }
}

/// Block value a SYM payload stands for: the super-symbol value plus the odd
/// bit, the payload packed as `(odd << 32) | k` with odd-bit separation and
/// as `k * 2 + odd` otherwise (super-symbol 0 has value 0).
pub open spec fn sym_payload_value(v: u64, s: Seq<u64>, odd_sep: bool) -> u64 {
    if odd_sep {
        let k = v & 0xFFFF_FFFFu64;
        add_wrap(if k > 0 { symval_or0(k, s) } else { 0 }, (v >> 32u64) & 1u64)
    } else {
        let k = v >> 1u64;
        add_wrap(if k > 0 { symval_or0(k, s) } else { 0 }, v & 1u64)
    }
}

/// The last `k` bytes of the big-endian form of `n`.
pub open spec fn be_tail(n: u64, k: nat) -> Seq<u8> {
    Seq::new(k, |t: int| (n >> ((8 * (k - 1 - t)) as u64)) as u8)
}

/// `c` copies of `b`.
pub open spec fn repeat_bytes(b: Seq<u8>, c: nat) -> Seq<u8>
    decreases c,
{
    if c == 0 {
        Seq::empty()
    } else {
        repeat_bytes(b, (c - 1) as nat) + b
    }
}

/// Decoder settings: block bytes, value mask, delta, odd-bit separation and
/// the MFS block value.
pub struct EmitParams {
    pub bytes: u64,
    pub mask: u64,
    pub delta: bool,
    pub odd_sep: bool,
    pub mfs_val: u64,
}

/// The next block value from a coded one.
pub open spec fn next_value(prev: u64, v: u64, p: EmitParams) -> u64 {
    if p.delta {
        add_wrap(prev, v) & p.mask
    } else {
        v
    }
}

/// Emission state `(previous block value, bytes)` after one entry.
pub open spec fn emit_entry(st: (u64, Seq<u8>), e: (u8, u64, u64), s: Seq<u64>, p: EmitParams) -> (u64, Seq<u8>) {
    let prev = st.0;
    let k = p.bytes as nat;
    if e.0 == TAG_MFS {
        let n = next_value(prev, p.mfs_val, p);
        (n, st.1 + be_tail(n, k))
    } else if e.0 == TAG_SYM {
        let n = next_value(prev, sym_payload_value(e.1, s, p.odd_sep), p);
        (n, st.1 + be_tail(n, k))
    } else if e.0 == TAG_RAW {
        let n = next_value(prev, e.1, p);
        (n, st.1 + be_tail(n, k))
    } else if e.0 == TAG_ZERO {
        let n = if p.delta { prev } else { 0 };
        (n, st.1 + be_tail(n, k))
    } else if e.0 == TAG_ZERO_RLE {
        let n = if p.delta { prev } else { 0 };
        (if e.2 == 0 { prev } else { n }, st.1 + repeat_bytes(be_tail(n, k), e.2 as nat))
    } else {
        st
    }
}

/// Emission over a stream of `(tag, value, extra)` entries.
pub open spec fn emit_all(es: Seq<(u8, u64, u64)>, s: Seq<u64>, p: EmitParams) -> (u64, Seq<u8>)
    decreases es.len(),
{
    if es.len() == 0 {
        (0, Seq::empty())
    } else {
        emit_entry(emit_all(es.drop_last(), s, p), es.last(), s, p)
    }
}

fn push_be_tail(out: &mut Vec<u8>, n: u64, k: u64)
    requires
        k <= 8,
    ensures
        final(out)@ == old(out)@ + be_tail(n, k as nat),
{
    let ghost start = old(out)@;
    let mut t: u64 = 0;
    while t < k
        invariant
            t <= k <= 8,
            out@ == start + be_tail(n, k as nat).subrange(0, t as int),
        decreases k - t,
    {
        let sh: u64 = 8 * (k - 1 - t);
        out.push((n >> sh) as u8);
        t = t + 1;
        assert(out@ =~= start + be_tail(n, k as nat).subrange(0, t as int));
    }
    assert(be_tail(n, k as nat).subrange(0, k as int) =~= be_tail(n, k as nat));
}

/// Turn decoded entries into block bytes.
pub fn emit_blocks(es: &Vec<(u8, u64, u64)>, s: &[u64], p: &EmitParams) -> (out: Vec<u8>)
    requires
        p.bytes <= 8,
    ensures
        out@ == emit_all(es@, s@, *p).1,
{
    let mut out: Vec<u8> = Vec::new();
    let mut prev: u64 = 0;
    let mut i: usize = 0;
    assert(es@.subrange(0, 0) =~= Seq::<(u8, u64, u64)>::empty());
    while i < es.len()
        invariant
            p.bytes <= 8,
            i <= es@.len(),
            (prev, out@) == emit_all(es@.subrange(0, i as int), s@, *p),
        decreases es@.len() - i,
    {
        let (tag, val, extra) = es[i];
        proof {
            assert(es@.subrange(0, i + 1).drop_last() =~= es@.subrange(0, i as int));
        }
        if tag == TAG_MFS || tag == TAG_SYM || tag == TAG_RAW {
            let v = if tag == TAG_MFS {
                p.mfs_val
            } else if tag == TAG_RAW {
                val
            } else if p.odd_sep {
                let k = val & 0xFFFF_FFFF;
                let base = if k > 0 {
                    symbol_or_zero(k, s)
                } else {
                    0
                };
                base.wrapping_add((val >> 32u64) & 1)
            } else {
                let k = val >> 1;
                let base = if k > 0 {
                    symbol_or_zero(k, s)
                } else {
                    0
                };
                base.wrapping_add(val & 1)
            };
            let n = if p.delta {
                prev.wrapping_add(v) & p.mask
            } else {
                v
            };
            push_be_tail(&mut out, n, p.bytes);
            prev = n;
        } else if tag == TAG_ZERO {
            let n = if p.delta {
                prev
            } else {
                0
            };
            push_be_tail(&mut out, n, p.bytes);
            prev = n;
        } else if tag == TAG_ZERO_RLE {
            let n = if p.delta {
                prev
            } else {
                0
            };
            let ghost start = out@;
            let mut c: u64 = 0;
            while c < extra
                invariant
                    c <= extra,
                    p.bytes <= 8,
                    out@ == start + repeat_bytes(be_tail(n, p.bytes as nat), c as nat),
                decreases extra - c,
            {
                push_be_tail(&mut out, n, p.bytes);
                c = c + 1;
            }
            if extra > 0 {
                prev = n;
            }
        }
        i = i + 1;
    }
    assert(es@.subrange(0, es@.len() as int) =~= es@);
    out
}


// ───────────────────────────── decoding: bodies ─────────────────────────────

/// The bit position of the first byte boundary at or after `p`.
pub open spec fn byte_align(p: int) -> int {
    if p % 8 == 0 {
        p
    } else {
        (p / 8 + 1) * 8
    }
}

/// A ULEB128 number read from the first byte boundary at or after bit `p` of
/// `d`, and the bit position after it: `dflt` when it is cut short, or when it
/// would run past ten bytes (then reading stops at the end of the data).
pub open spec fn uleb_or(d: Seq<u8>, p: int, dflt: u64) -> (u64, int) {
    let b = byte_align(p) / 8;
    let s = d.subrange(b, d.len() as int);
    if uleb_safe(s) {
        ((if uleb_complete(s) { uleb_value(s) as u64 } else { dflt }), (b + uleb_span(s)) * 8)
    } else {
        (dflt, (d.len() * 8) as int)
    }
}

/// Read a ULEB128 number from the reader; `dflt` when it is cut short, or
/// runs past ten bytes (then the reader stops at the end of the data).
fn read_uleb_or(br: &mut BitReader, dflt: u64) -> (v: u64)
    requires
        old(br).wf(),
    ensures
        final(br).wf(),
        final(br).data() == old(br).data(),
        final(br).pos() > old(br).pos() || final(br).pos() >= final(br).all_bits().len(),
        (v, final(br).pos() as int) == uleb_or(old(br).data(), old(br).pos() as int, dflt),
{
    let ghost p0 = br.pos();
    let ghost d0 = br.data();
    proof {
        br.lemma_wf();
    }
    if br.uleb_ahead_ok() {
        let r = br.read_uleb();
        proof {
            br.lemma_wf();
            let b = if p0 % 8 == 0 { p0 / 8 } else { p0 / 8 + 1 };
            let s = d0.subrange(b as int, d0.len() as int);
            crate::bit_io::lemma_uleb_span_bound(s);
            assert(b * 8 >= p0);
            assert(byte_align(p0 as int) / 8 == b);
            vstd::arithmetic::power2::lemma2_to64_rest();
            assert(uleb_value(s) < 0x1_0000_0000_0000_0000);
        }
        match r {
            Ok(v) => v,
            Err(_) => dflt,
        }
    } else {
        proof {
            br.lemma_wf();
        }
        while !br.is_exhausted()
            invariant
                br.wf(),
                br.data() == old(br).data(),
                br.pos() >= old(br).pos(),
            decreases br.all_bits().len() - br.pos(),
        {
            proof {
                br.lemma_wf();
            }
            let _ = br.read_bit();
            proof {
                br.lemma_wf();
            }
        }
        proof {
            br.lemma_wf();
            assert(br.pos() == d0.len() * 8);
            let b = if p0 % 8 == 0 { p0 / 8 } else { p0 / 8 + 1 };
            assert(byte_align(p0 as int) / 8 == b);
        }
        dflt
    }
}

/// The tag of a bit-packed entry at bit `p` and the position after it: a
/// 2-bit tag 0-2, or `11` and a 2-bit sub-tag for tags 3-5; `None` at the
/// unused sub-tag.  Reads past the end give zero bits.
#[verifier::opaque]
pub open spec fn bp_tag(bits: Seq<bool>, p: int) -> Option<(u8, int)> {
    let t = take_bits(bits, p, 2);
    let sub = take_bits(bits, t.1, 2);
    if t.0 < 3 {
        Some((t.0 as u8, t.1))
    } else if sub.0 == 3 {
        None
    } else {
        Some(((3 + sub.0) as u8, sub.1))
    }
}

/// The entries of tag `tag` whose payload starts at bit `p`, and the position
/// after it; a RAW-RLE entry is spelled out as its RAW entries.
#[verifier::opaque]
pub open spec fn bp_payload(d: Seq<u8>, tag: u8, p: int, bb: nat, odd: bool) -> (Seq<(u8, u64, u64)>, int) {
    let bits = bytes_bits(d);
    if tag == 0 {
        if odd {
            let ob: u64 = if p < bits.len() && bits[p] { 1 } else { 0 };
            let p4 = if p < bits.len() { p + 1 } else { p };
            let k = uleb_or(d, p4, 0);
            (seq![(0u8, (ob << 32u64) | k.0, 0u64)], k.1)
        } else {
            let k = uleb_or(d, p, 0);
            (seq![(0u8, k.0, 0u64)], k.1)
        }
    } else if tag == 1 {
        let v = take_bits(bits, p, bb);
        (seq![(1u8, v.0 as u64, 0u64)], v.1)
    } else if tag == 2 {
        (seq![(2u8, 0u64, 0u64)], p)
    } else if tag == 3 {
        let c = uleb_or(d, p, 0);
        (seq![(3u8, 0u64, c.0)], c.1)
    } else if tag == 4 {
        (seq![(4u8, 0u64, 0u64)], p)
    } else {
        let v = take_bits(bits, p, bb);
        let run = uleb_or(d, v.1, 1);
        (Seq::new(run.0 as nat, |i: int| (1u8, v.0 as u64, 0u64)), run.1)
    }
}

/// One entry group of a bit-packed body read at bit `p`, and the position
/// after it; `None` at the unused tag.  Tags 0 and 3 align their payload to
/// a byte boundary.
pub open spec fn bp_step(d: Seq<u8>, p: int, bb: nat, odd: bool) -> Option<(Seq<(u8, u64, u64)>, int)> {
    match bp_tag(bytes_bits(d), p) {
        None => None,
        Some(t) => Some(
            bp_payload(d, t.0, if (t.0 == 0 && !odd) || t.0 == 3 { byte_align(t.1) } else { t.1 }, bb, odd),
        ),
    }
}

/// The entries of a bit-packed body read from bit `p` on: entry groups until
/// the end of the data, the unused tag, or a group that does not advance.
pub open spec fn parse_bp(d: Seq<u8>, p: int, bb: nat, odd: bool) -> Seq<(u8, u64, u64)>
    decreases d.len() * 8 - p,
{
    if p < 0 || p >= d.len() * 8 {
        Seq::empty()
    } else {
        match bp_step(d, p, bb, odd) {
            None => Seq::empty(),
            Some(g) => if g.1 <= p || g.1 > d.len() * 8 {
                g.0
            } else {
                g.0 + parse_bp(d, g.1, bb, odd)
            },
        }
    }
}

/// Parse a bit-packed body into `(tag, value, extra)` entries: 2-bit tags
/// SYM, RAW, ZERO, 4-bit tags ZERO-RLE, MFS, RAW-RLE (a RAW-RLE entry
/// spelled out as RAW entries); reading stops at the end of the data or at
/// the unused 4-bit tag.
/// `n` bits read by `read_bits`, as `take_bits` reads them.
proof fn lemma_read_bits_value(bits: Seq<bool>, p: int, n: nat)
    requires
        0 <= p <= bits.len(),
        n <= 64,
    ensures
        take_bits(bits, p, n).0 < 0x1_0000_0000_0000_0000,
        take_bits(bits, p, n).0 < vstd::arithmetic::power2::pow2(n),
{
    let t = take_bits(bits, p, n);
    let m = t.1 - p;
    crate::bit_io::lemma_bits_value_bound(bits.subrange(p, t.1));
    if m < n {
        vstd::arithmetic::power2::lemma_pow2_strictly_increases(m as nat, n);
    }
    if n < 64 {
        vstd::arithmetic::power2::lemma_pow2_strictly_increases(n, 64);
    }
    vstd::arithmetic::power2::lemma2_to64_rest();
}

/// Read a bit-packed tag.
fn read_bp_tag(br: &mut BitReader) -> (t: Option<u8>)
    requires
        old(br).wf(),
    ensures
        final(br).wf(),
        final(br).data() == old(br).data(),
        t is None <==> bp_tag(old(br).all_bits(), old(br).pos() as int) is None,
        t is Some ==> t->Some_0 == bp_tag(old(br).all_bits(), old(br).pos() as int)->Some_0.0 && final(br).pos()
            == bp_tag(old(br).all_bits(), old(br).pos() as int)->Some_0.1,
        t is Some ==> t->Some_0 <= 5,
{
    reveal(bp_tag);
    let ghost bits = br.all_bits();
    let ghost p0 = br.pos() as int;
    proof {
        br.lemma_wf();
        lemma_read_bits_value(bits, p0, 2);
        vstd::arithmetic::power2::lemma2_to64();
    }
    let tag_bits = match br.read_bits(2) {
        Ok(v) => v,
        Err(_) => 0,
    };
    let ghost p1 = br.pos() as int;
    if tag_bits < 3 {
        return Some(tag_bits as u8);
    }
    proof {
        br.lemma_wf();
        lemma_read_bits_value(bits, p1, 2);
    }
    let sub = match br.read_bits(2) {
        Ok(v) => v,
        Err(_) => 0,
    };
    if sub == 3 {
        None
    } else {
        Some((3 + sub) as u8)
    }
}

/// Read the payload of a bit-packed entry of tag `tag`, appending its entries.
fn read_bp_payload(br: &mut BitReader, out: &mut Vec<(u8, u64, u64)>, tag: u8, block_bits: usize, use_odd_sep: bool)
    requires
        old(br).wf(),
        block_bits <= 64,
        tag <= 5,
    ensures
        final(br).wf(),
        final(br).data() == old(br).data(),
        ({
            let g = bp_payload(old(br).data(), tag, old(br).pos() as int, block_bits as nat, use_odd_sep);
            &&& final(out)@ == old(out)@ + g.0
            &&& final(br).pos() == g.1
        }),
{
    reveal(bp_payload);
    let ghost bits = br.all_bits();
    let ghost p0 = br.pos() as int;
    proof {
        br.lemma_wf();
        lemma_read_bits_value(bits, p0, block_bits as nat);
    }
    if tag == 0 {
        if use_odd_sep {
            let odd: u64 = match br.read_bit() {
                Ok(b) => b as u64,
                Err(_) => 0,
            };
            let k = read_uleb_or(br, 0);
            out.push((0, (odd << 32u64) | k, 0));
        } else {
            let pk = read_uleb_or(br, 0);
            out.push((0, pk, 0));
        }
    } else if tag == 1 {
        let v = match br.read_bits(block_bits) {
            Ok(v) => v,
            Err(_) => 0,
        };
        out.push((1, v, 0));
    } else if tag == 2 {
        out.push((2, 0, 0));
    } else if tag == 3 {
        let c = read_uleb_or(br, 0);
        out.push((3, 0, c));
    } else if tag == 4 {
        out.push((4, 0, 0));
    } else {
        let v = match br.read_bits(block_bits) {
            Ok(v) => v,
            Err(_) => 0,
        };
        let run = read_uleb_or(br, 1);
        let ghost before = out@;
        let mut c: u64 = 0;
        while c < run
            invariant
                c <= run,
                out@ == before + Seq::new(c as nat, |i: int| (1u8, v, 0u64)),
            decreases run - c,
        {
            out.push((1, v, 0));
            c = c + 1;
            assert(out@ =~= before + Seq::new(c as nat, |i: int| (1u8, v, 0u64)));
        }
    }
}

/// One step of `parse_bp` at a position inside the data.
proof fn lemma_parse_bp_step(d: Seq<u8>, p: int, bb: nat, odd: bool)
    requires
        0 <= p < d.len() * 8,
    ensures
        bp_step(d, p, bb, odd) is None ==> parse_bp(d, p, bb, odd) == Seq::<(u8, u64, u64)>::empty(),
        bp_step(d, p, bb, odd) is Some ==> ({
            let g = bp_step(d, p, bb, odd)->Some_0;
            parse_bp(d, p, bb, odd) == if g.1 <= p || g.1 > d.len() * 8 {
                g.0
            } else {
                g.0 + parse_bp(d, g.1, bb, odd)
            }
        }),
{
}

fn parse_bitpacked(body: &[u8], block_bits: usize, use_odd_sep: bool) -> (r: Vec<(u8, u64, u64)>)
    requires
        block_bits <= 64,
        reader_len_ok(body@.len()),
    ensures
        r@ == parse_bp(body@, 0, block_bits as nat, use_odd_sep),
{
    let ghost d = body@;
    let ghost bb = block_bits as nat;
    let ghost total = parse_bp(d, 0, bb, use_odd_sep);
    let mut br = BitReader::new(body);
    let mut out: Vec<(u8, u64, u64)> = Vec::new();
    proof {
        br.lemma_wf();
    }
    assert(out@ + parse_bp(d, 0, bb, use_odd_sep) =~= total);
    loop
        invariant_except_break
            out@ + parse_bp(d, br.pos() as int, bb, use_odd_sep) == total,
        invariant
            br.wf(),
            br.data() == body@,
            d == body@,
            bb == block_bits as nat,
            block_bits <= 64,
            total == parse_bp(d, 0, bb, use_odd_sep),
        ensures
            out@ == total,
        decreases br.all_bits().len() - br.pos(),
    {
        proof {
            br.lemma_wf();
        }
        if br.is_exhausted() {
            assert(out@ =~= out@ + parse_bp(d, br.pos() as int, bb, use_odd_sep));
            break;
        }
        let ghost start_out = out@;
        let ghost p0 = br.pos() as int;
        proof {
            lemma_parse_bp_step(d, p0, bb, use_odd_sep);
        }
        let start = br.position();
        let tag = match read_bp_tag(&mut br) {
            Some(t) => t,
            None => {
                assert(out@ =~= out@ + parse_bp(d, p0, bb, use_odd_sep));
                break;
            },
        };
        if (tag == 0 && !use_odd_sep) || tag == 3 {
            br.skip_to_byte_boundary();
        }
        read_bp_payload(&mut br, &mut out, tag, block_bits, use_odd_sep);
        proof {
            br.lemma_wf();
        }
        let ghost g = bp_step(d, p0, bb, use_odd_sep)->Some_0;
        assert(out@ == start_out + g.0 && br.pos() == g.1);
        if br.position() <= start {
            break;
        }
        assert(start_out + (g.0 + parse_bp(d, g.1, bb, use_odd_sep)) =~= out@ + parse_bp(d, g.1, bb, use_odd_sep));
    }
    out
}


/// Prefix sums `[0, t0, t0 + t1, ...]` of a table of 16-bit frequencies.
fn prefix_sums(t: &Vec<u64>) -> (c: Vec<u64>)
    requires
        t@.len() <= 0x1_0000,
        forall|i: int| 0 <= i < t@.len() ==> #[trigger] t@[i] <= 0xFFFF,
    ensures
        c@.len() == t@.len() + 1,
        forall|i: int| 0 <= i <= t@.len() ==> #[trigger] c@[i] == cum_sum(t@, i),
        forall|i: int, j: int| 0 <= i <= j <= t@.len() ==> c@[i] <= c@[j],
{
    let mut c: Vec<u64> = Vec::new();
    c.push(0);
    let mut i: usize = 0;
    while i < t.len()
        invariant
            i <= t@.len(),
            t@.len() <= 0x1_0000,
            forall|k: int| 0 <= k < t@.len() ==> #[trigger] t@[k] <= 0xFFFF,
            c@.len() == i + 1,
            forall|k: int| 0 <= k <= i ==> #[trigger] c@[k] == cum_sum(t@, k),
            forall|a: int, b: int| 0 <= a <= b <= i ==> c@[a] <= c@[b],
            c@[i as int] <= i * 0xFFFF,
        decreases t@.len() - i,
    {
        let v = c[i] + t[i];
        c.push(v);
        i = i + 1;
    }
    c
}

/// `n` little-endian u16 values from `d` at `off`.
fn read_u16s(d: &[u8], off: usize, n: usize) -> (v: Vec<u64>)
    requires
        off + 2 * n <= d@.len(),
    ensures
        v@ == u16s_at(d@, off as int, n as nat),
        v@.len() == n,
        forall|i: int| 0 <= i < n ==> #[trigger] v@[i] <= 0xFFFF,
{
    let mut v: Vec<u64> = Vec::new();
    let mut i: usize = 0;
    let dl = d.len();
    while i < n
        invariant
            off + 2 * n <= d@.len(),
            dl == d@.len(),
            i <= n,
            v@.len() == i,
            v@ == u16s_at(d@, off as int, i as nat),
            forall|k: int| 0 <= k < i ==> #[trigger] v@[k] <= 0xFFFF,
        decreases n - i,
    {
        let x = read_u16_le(d, off + 2 * i);
        v.push(x as u64);
        i = i + 1;
        assert(v@ =~= u16s_at(d@, off as int, i as nat));
    }
    v
}

/// `n` little-endian 16-bit numbers of `d` from `off`.
pub open spec fn u16s_at(d: Seq<u8>, off: int, n: nat) -> Seq<u64> {
    Seq::new(n, |i: int| crate::le::le16_at(d, off + 2 * i) as u64)
}

/// The entry of a cumulative table that `f` falls in: the first `i` with
/// `f < cum[i + 1]`.
fn find_interval(cum: &Vec<u64>, f: u64) -> (i: usize)
    requires
        cum@.len() >= 2,
        cum@[0] == 0,
        f < cum@[cum@.len() - 1],
    ensures
        i + 1 < cum@.len(),
        cum@[i as int] <= f < cum@[i + 1],
{
    let mut i: usize = 0;
    let last = cum.len() - 1;
    while i + 1 < last && f >= cum[i + 1]
        invariant
            last == cum@.len() - 1,
            i + 1 < cum@.len(),
            cum@[i as int] <= f,
            f < cum@[cum@.len() - 1],
        decreases cum@.len() - i,
    {
        i = i + 1;
    }
    i
}

/// The range-coded part of a body, after its symbol count.
pub open spec fn rc_part(body: Seq<u8>) -> Seq<u8> {
    body.subrange(uleb_field(body, 0).1, body.len() as int)
}

/// Offset after the RAW value model of a range-coded part (tag count `k`,
/// RAW value count `nr`).
pub open spec fn rc_models_end(rc: Seq<u8>) -> int {
    let k = rc[0] as int;
    let nr = crate::le::le16_at(rc, 1 + 3 * k) as int;
    if nr > 0 { 3 + 3 * k + 4 * nr } else { 3 + 3 * k }
}

/// The layout error of a range-coded part, if any: the tag count, the tag
/// and frequency tables, the RAW value count and model, the two stream
/// lengths and the streams must fit.
pub open spec fn rc_layout_error(rc: Seq<u8>) -> Option<&'static str> {
    let l = rc.len() as int;
    if l < 1 {
        Some("Range-coded data too short")
    } else {
        let k = rc[0] as int;
        if k == 0 || k > 8 {
            Some("Invalid n_tags")
        } else if 1 + k > l {
            Some("Range-coded: truncated tags")
        } else if 1 + 3 * k > l {
            Some("Range-coded: truncated scaled freqs")
        } else if 3 + 3 * k > l {
            Some("Range-coded: truncated n_raw_vals")
        } else {
            let nr = crate::le::le16_at(rc, 1 + 3 * k) as int;
            if nr > 0 && 3 + 3 * k + 2 * nr > l {
                Some("Range-coded: truncated raw_vals")
            } else if nr > 0 && 3 + 3 * k + 4 * nr > l {
                Some("Range-coded: truncated raw_scaled")
            } else {
                let o4 = rc_models_end(rc);
                if o4 + 8 > l {
                    Some("Range-coded: truncated lengths")
                } else {
                    let tl = le32_at(rc, o4) as int;
                    let rl = le32_at(rc, o4 + 4) as int;
                    if tl > l - o4 - 8 || rl > l - o4 - 8 - tl {
                        Some("Range-coded: truncated RC data")
                    } else {
                        None
                    }
                }
            }
        }
    }
}

/// Total of the tag model.
pub open spec fn rc_tag_total(rc: Seq<u8>) -> int {
    let k = rc[0] as int;
    cum_sum(u16s_at(rc, 1 + k, k as nat), k)
}

/// Total of the RAW value model (0 without RAW values).
pub open spec fn rc_raw_total(rc: Seq<u8>) -> int {
    let k = rc[0] as int;
    let nr = crate::le::le16_at(rc, 1 + 3 * k) as int;
    cum_sum(u16s_at(rc, 3 + 3 * k + 2 * nr, nr as nat), nr)
}

/// Whether the RAW value model is used and unusable: RAW values and a RAW
/// stream are present, and the model total is 0 or too large.
pub open spec fn rc_raw_model_bad(rc: Seq<u8>) -> bool {
    let k = rc[0] as int;
    let nr = crate::le::le16_at(rc, 1 + 3 * k) as int;
    let rl = le32_at(rc, rc_models_end(rc) + 4);
    nr > 0 && rl > 0 && (rc_raw_total(rc) == 0 || rc_raw_total(rc) > MAX_TOTAL)
}

/// Shape of an entry read from a range-coded body: its tag is one of the
/// active tags, and the fields that tag does not use are 0.
pub open spec fn rc_entry_ok(rc: Seq<u8>, e: (u8, u64, u64)) -> bool {
    &&& rc.subrange(1, 1 + rc[0] as int).contains(e.0)
    &&& (e.0 == 0 || e.0 == 1) ==> e.2 == 0
    &&& e.0 == 3 ==> e.1 == 0
    &&& (e.0 == 2 || e.0 >= 4) ==> e.1 == 0 && e.2 == 0
}

/// Parse a range-coded body: the symbol count, the tag and RAW value models,
/// the two coded streams and the payload.  Errors on a truncated model or
/// stream, a tag count outside 1..=8, or a table that does not cover its
/// coded values.
#[verifier::spinoff_prover]
#[verifier::rlimit(40)]
fn parse_range_coded(body: &[u8], block_bits: usize, use_odd_sep: bool) -> (r: Result<Vec<(u8, u64, u64)>, &'static str>)
    requires
        block_bits <= 64,
        reader_len_ok(body@.len()),
    ensures
        !uleb_ok_at(body@, 0) ==> r is Err,
        ({
            let rc = rc_part(body@);
            let num = uleb_field(body@, 0).0;
            let tt = rc_tag_total(rc);
            &&& uleb_ok_at(body@, 0) && rc_layout_error(rc) is Some ==> r == Err::<Vec<(u8, u64, u64)>, &'static str>(
                rc_layout_error(rc)->Some_0,
            )
            &&& uleb_ok_at(body@, 0) && rc_layout_error(rc) is None && (tt == 0 || tt > MAX_TOTAL) ==> r == Err::<
                Vec<(u8, u64, u64)>,
                &'static str,
            >("Range-coded: empty tag model")
            &&& uleb_ok_at(body@, 0) && rc_layout_error(rc) is None && !(tt == 0 || tt > MAX_TOTAL) && num
                > 0x100_0000_0000 ==> r == Err::<Vec<(u8, u64, u64)>, &'static str>("Range-coded: too many symbols")
            &&& uleb_ok_at(body@, 0) && rc_layout_error(rc) is None && !(tt == 0 || tt > MAX_TOTAL) && num
                <= 0x100_0000_0000 && !rc_raw_model_bad(rc) ==> r is Ok
            &&& r is Err && uleb_ok_at(body@, 0) && rc_layout_error(rc) is None && !(tt == 0 || tt > MAX_TOTAL) && num
                <= 0x100_0000_0000 ==> r == Err::<Vec<(u8, u64, u64)>, &'static str>("Range-coded: empty value model")
            &&& r is Ok ==> r->Ok_0@.len() == num && forall|i: int|
                0 <= i < r->Ok_0@.len() ==> rc_entry_ok(rc, #[trigger] r->Ok_0@[i])
        }),
{
    if !uleb_fits_at(body, 0) {
        return Err("ULEB: too long");
    }
    assert(body@.subrange(0, body@.len() as int) =~= body@);
    let (num_cs, n) = uleb_decode_all(body)?;
    let rc = slice_range(body, n, body.len());
    assert(uleb_field(body@, 0) == (num_cs as nat, n as int));
    assert(rc@ == rc_part(body@));
    let ghost rcs = rc@;
    let len = rc.len();
    if len < 1 {
        return Err("Range-coded data too short");
    }
    let n_tags = rc[0] as usize;
    if n_tags == 0 || n_tags > 8 {
        return Err("Invalid n_tags");
    }
    let mut off: usize = 1;
    if off + n_tags > len {
        return Err("Range-coded: truncated tags");
    }
    let active_tags = slice_range(rc, off, off + n_tags);
    off = off + n_tags;
    if off + 2 * n_tags > len {
        return Err("Range-coded: truncated scaled freqs");
    }
    let scaled = read_u16s(rc, off, n_tags);
    off = off + 2 * n_tags;
    let cum = prefix_sums(&scaled);
    assert(cum@[n_tags as int] == rc_tag_total(rcs));
    if off + 2 > len {
        return Err("Range-coded: truncated n_raw_vals");
    }
    let n_raw = read_u16_le(rc, off) as usize;
    off = off + 2;
    let mut raw_vals: Vec<u64> = Vec::new();
    let mut raw_cum: Vec<u64> = vec![0u64];
    if n_raw > 0 {
        if off + 2 * n_raw > len {
            return Err("Range-coded: truncated raw_vals");
        }
        raw_vals = read_u16s(rc, off, n_raw);
        off = off + 2 * n_raw;
        if off + 2 * n_raw > len {
            return Err("Range-coded: truncated raw_scaled");
        }
        let raw_scaled = read_u16s(rc, off, n_raw);
        off = off + 2 * n_raw;
        raw_cum = prefix_sums(&raw_scaled);
        assert(raw_cum@[n_raw as int] == rc_raw_total(rcs));
    }
    assert(off == rc_models_end(rcs));
    if off + 8 > len {
        return Err("Range-coded: truncated lengths");
    }
    let tl = read_u32_le(rc, off) as usize;
    let rl = read_u32_le(rc, off + 4) as usize;
    off = off + 8;
    if tl > len - off || rl > len - off - tl {
        return Err("Range-coded: truncated RC data");
    }
    let tags_data = slice_range(rc, off, off + tl);
    let raw_data = slice_range(rc, off + tl, off + tl + rl);
    let payload = slice_range(rc, off + tl + rl, len);
    // tags
    let total = cum[n_tags];
    if total == 0 || total > MAX_TOTAL {
        return Err("Range-coded: empty tag model");
    }
    if num_cs > 0x100_0000_0000 {
        return Err("Range-coded: too many symbols");
    }
    let mut tags: Vec<u8> = Vec::new();
    let mut rd = RangeDecoder::new(tags_data);
    let mut q: u64 = 0;
    while q < num_cs
        invariant
            q <= num_cs <= 0x100_0000_0000,
            tags@.len() == q,
            rd.wf(),
            rd.state().3 <= 32 + 32 * q,
            cum@.len() == n_tags + 1,
            n_tags == active_tags@.len(),
            cum@[0] == 0,
            cum@[n_tags as int] == total,
            1 <= total <= MAX_TOTAL,
            forall|i: int, j: int| 0 <= i <= j <= n_tags ==> cum@[i] <= cum@[j],
            active_tags@ == rcs.subrange(1, 1 + n_tags),
            n_tags == rcs[0],
            forall|i: int| 0 <= i < q ==> rcs.subrange(1, 1 + rcs[0] as int).contains(#[trigger] tags@[i]),
        decreases num_cs - q,
    {
        let f = rd.get_freq(total);
        let idx = find_interval(&cum, f);
        tags.push(active_tags[idx]);
        assert(rcs.subrange(1, 1 + rcs[0] as int)[idx as int] == tags@[q as int]);
        rd.decode(cum[idx], cum[idx + 1] - cum[idx], total);
        q = q + 1;
    }
    // RAW values
    let mut num_raw: usize = 0;
    let mut t: usize = 0;
    while t < tags.len()
        invariant
            t <= tags@.len(),
            tags@.len() <= 0x100_0000_0000,
            num_raw <= t,
        decreases tags@.len() - t,
    {
        if tags[t] == 1 {
            num_raw = num_raw + 1;
        }
        t = t + 1;
    }
    let mut raw_decoded: Vec<u64> = Vec::new();
    if n_raw > 0 && raw_data.len() > 0 && num_raw > 0 {
        let total_raw = raw_cum[n_raw];
        if total_raw == 0 || total_raw > MAX_TOTAL {
            return Err("Range-coded: empty value model");
        }
        let mut rdr = RangeDecoder::new(raw_data);
        let mut q: usize = 0;
        while q < num_raw
            invariant
                q <= num_raw,
                num_raw <= 0x100_0000_0000,
                rdr.wf(),
                rdr.state().3 <= 32 + 32 * q,
                raw_cum@.len() == n_raw + 1,
                n_raw == raw_vals@.len(),
                raw_cum@[0] == 0,
                raw_cum@[n_raw as int] == total_raw,
                1 <= total_raw <= MAX_TOTAL,
                forall|i: int, j: int| 0 <= i <= j <= n_raw ==> raw_cum@[i] <= raw_cum@[j],
            decreases num_raw - q,
        {
            let f = rdr.get_freq(total_raw);
            let ri = find_interval(&raw_cum, f);
            raw_decoded.push(raw_vals[ri]);
            rdr.decode(raw_cum[ri], raw_cum[ri + 1] - raw_cum[ri], total_raw);
            q = q + 1;
        }
    }
    // payload
    let mut br = BitReader::new(payload);
    let mut raw_idx: usize = 0;
    let mut out: Vec<(u8, u64, u64)> = Vec::new();
    t = 0;
    while t < tags.len()
        invariant
            t <= tags@.len(),
            br.wf(),
            block_bits <= 64,
            out@.len() == t,
            forall|i: int| 0 <= i < tags@.len() ==> rcs.subrange(1, 1 + rcs[0] as int).contains(#[trigger] tags@[i]),
            forall|i: int| 0 <= i < t ==> #[trigger] out@[i].0 == tags@[i],
            forall|i: int| 0 <= i < t ==> rc_entry_ok(rcs, #[trigger] out@[i]),
        decreases tags@.len() - t,
    {
        let tag = tags[t];
        if tag == 0 {
            if use_odd_sep {
                let odd: u64 = match br.read_bit() {
                    Ok(b) => b as u64,
                    Err(_) => 0,
                };
                let k = read_uleb_or(&mut br, 0);
                out.push((0, (odd << 32u64) | k, 0));
            } else {
                let pk = read_uleb_or(&mut br, 0);
                out.push((0, pk, 0));
            }
        } else if tag == 1 {
            if n_raw > 0 && raw_idx < raw_decoded.len() {
                out.push((1, raw_decoded[raw_idx], 0));
                raw_idx = raw_idx + 1;
            } else {
                let v = match br.read_bits(block_bits) {
                    Ok(v) => v,
                    Err(_) => 0,
                };
                out.push((1, v, 0));
            }
        } else if tag == 2 {
            out.push((2, 0, 0));
        } else if tag == 3 {
            let c = read_uleb_or(&mut br, 0);
            out.push((3, 0, c));
        } else {
            out.push((tag, 0, 0));
        }
        assert(tags@[t as int] == tag);
        assert(rc_entry_ok(rcs, out@[t as int]));
        t = t + 1;
    }
    Ok(out)
}


/// Codebook size of a Huffman symbol stream.
pub open spec fn hf_count(data: Seq<u8>) -> nat {
    crate::le::le16_at(data, 0) as nat
}

/// `v` is one of the codebook's symbols.
pub open spec fn hf_is_cb_sym(data: Seq<u8>, v: u64) -> bool {
    exists|q: int| 0 <= q < hf_count(data) && v == #[trigger] data[2 + 2 * q] as u64
}

/// Sort keys of the codebook entries: (length, symbol).
pub open spec fn hf_keys(data: Seq<u8>) -> Seq<(u64, u64)> {
    Seq::new(hf_count(data), |q: int| (data[3 + 2 * q] as u64, data[2 + 2 * q] as u64))
}

/// Codebook entries (symbol, length) in canonical order: by length, then symbol.
pub open spec fn hf_sorted(data: Seq<u8>) -> Seq<(u64, u64)> {
    let o = crate::bwt::iota(hf_count(data)).sort_by(crate::sort::key_order(hf_keys(data)));
    Seq::new(o.len(), |k: int| (data[2 + 2 * o[k]] as u64, data[3 + 2 * o[k]] as u64))
}

/// Canonical code table (code, length, present) per symbol after the
/// entries of `sorted` from `q` on, continuing from `code` and `prev`.
pub open spec fn hf_code_table(
    sorted: Seq<(u64, u64)>,
    q: int,
    code: u64,
    prev: u64,
    tbl: Seq<(u64, u64, bool)>,
) -> Seq<(u64, u64, bool)>
    decreases sorted.len() - q,
{
    if q < 0 || q >= sorted.len() {
        tbl
    } else {
        let (sym, l) = sorted[q];
        let c = if l > prev { (code << ((l - prev) as u64)) & 0xFFFF_FFFFu64 } else { code };
        hf_code_table(sorted, q + 1, (c + 1) as u64, l, tbl.update(sym as int, (c, l, true)))
    }
}

/// The first entry of `sorted` from `k` on whose code has `cb` bits and
/// equals `cur`.
pub open spec fn hf_slow(sorted: Seq<(u64, u64)>, ct: Seq<(u64, u64, bool)>, cur: u64, cb: u64, k: int) -> Option<u64>
    decreases sorted.len() - k,
{
    if k < 0 || k >= sorted.len() {
        None
    } else {
        let (sym, l) = sorted[k];
        if l == cb && ct[sym as int].2 && ct[sym as int].0 == cur {
            Some(sym)
        } else {
            hf_slow(sorted, ct, cur, cb, k + 1)
        }
    }
}

/// Symbols decoded from bit `pos` of `bits` on, with `cur_bits` bits `cur`
/// pending and `res` decoded so far, until `num` symbols or the end: after
/// each bit, the pending bits that equal the canonical code of a codebook
/// entry of that length give its symbol.
pub open spec fn hf_run(
    bits: Seq<bool>,
    num: nat,
    sorted: Seq<(u64, u64)>,
    ct: Seq<(u64, u64, bool)>,
    pos: int,
    cur: u64,
    cur_bits: u64,
    res: Seq<u64>,
) -> Seq<u64>
    decreases bits.len() - pos,
{
    if res.len() >= num || pos < 0 || pos >= bits.len() {
        res
    } else {
        let cur1 = ((cur << 1u64) | (if bits[pos] { 1u64 } else { 0u64 })) & 0xFFFF_FFFFu64;
        let cb1 = (cur_bits + 1) as u64;
        match hf_slow(sorted, ct, cur1, cb1, 0) {
            Some(sym) => hf_run(bits, num, sorted, ct, pos + 1, 0, 0, res.push(sym)),
            None => hf_run(bits, num, sorted, ct, pos + 1, cur1, cb1, res),
        }
    }
}

/// What `huffman_decode_symbols` gives for `data` and `num` when it
/// succeeds: nothing for short data or no symbols, else the decoding.
pub open spec fn hf_result(data: Seq<u8>, num: nat) -> Seq<u64> {
    if data.len() < 3 || num == 0 { Seq::empty() } else { hf_decoded(data, num) }
}

/// What `huffman_decode_symbols` decodes from `data` with `num` symbols
/// (for a codebook that fits and canonical codes within 32 bits).
pub open spec fn hf_decoded(data: Seq<u8>, num: nat) -> Seq<u64> {
    let sorted = hf_sorted(data);
    let ct = hf_code_table(sorted, 0, 0, 0, Seq::new(256, |i: int| (0u64, 0u64, false)));
    let bits = bytes_bits(data.subrange(2 + 2 * hf_count(data) as int, data.len() as int));
    hf_run(bits, num, sorted, ct, 0, 0, 0, Seq::empty())
}

/// Whether canonical code assignment over `sorted` from entry `q` (next code
/// `code`, previous length `prev`) overflows 32 bits.
pub open spec fn hf_canon_fails(sorted: Seq<(u64, u64)>, q: int, code: u64, prev: u64) -> bool
    decreases sorted.len() - q,
{
    if q < 0 || q >= sorted.len() {
        false
    } else {
        let l = sorted[q].1;
        if l > prev && l - prev >= 32 {
            true
        } else {
            let c = if l > prev { (code << ((l - prev) as u64)) & 0xFFFF_FFFFu64 } else { code };
            if c == 0xFFFF_FFFF {
                true
            } else {
                hf_canon_fails(sorted, q + 1, (c + 1) as u64, l)
            }
        }
    }
}

/// Decode a canonical Huffman stream `[n_syms u16 LE][sym, len]...[bits]`
/// into at most `num_symbols` symbols: after each bit, the bits read since
/// the last symbol give a symbol when they equal the canonical code of a
/// codebook entry of that length.  Errors when the codebook is cut short or
/// a code does not fit 32 bits.
fn huffman_decode_symbols(data: &[u8], num_symbols: u64) -> (r: Result<Vec<u64>, &'static str>)
    requires
        reader_len_ok(data@.len()),
    ensures
        data@.len() < 3 || num_symbols == 0 ==> r is Ok && r->Ok_0@ == Seq::<u64>::empty(),
        data@.len() >= 3 && num_symbols > 0 && data@.len() < 2 + 2 * hf_count(data@) ==> r == Err::<
            Vec<u64>,
            &'static str,
        >("Huffman: truncated codebook"),
        data@.len() >= 3 && num_symbols > 0 && data@.len() >= 2 + 2 * hf_count(data@) ==> (r is Err <==> hf_canon_fails(
            hf_sorted(data@),
            0,
            0,
            0,
        )),
        r is Ok ==> r->Ok_0@.len() <= num_symbols,
        r is Ok ==> forall|k: int| 0 <= k < r->Ok_0@.len() ==> hf_is_cb_sym(data@, #[trigger] r->Ok_0@[k]),
        r is Ok && data@.len() >= 3 && num_symbols > 0 ==> r->Ok_0@ == hf_decoded(data@, num_symbols as nat),
{
    let len = data.len();
    if len < 3 || num_symbols == 0 {
        return Ok(Vec::new());
    }
    let n_syms = read_u16_le(data, 0) as usize;
    let mut off: usize = 2;
    let mut codebook: Vec<(u64, u64)> = Vec::new();
    let mut q: usize = 0;
    while q < n_syms
        invariant
            q <= n_syms,
            2 <= off <= len,
            len == data@.len(),
            len >= 3,
            num_symbols > 0,
            n_syms == hf_count(data@),
            off == 2 + 2 * q,
            codebook@.len() == q,
            forall|k: int| 0 <= k < q ==> (#[trigger] codebook@[k]).1 < 256 && codebook@[k].0 < 256,
            forall|k: int| 0 <= k < q ==> #[trigger] codebook@[k] == (data@[2 + 2 * k] as u64, data@[3 + 2 * k] as u64),
        decreases n_syms - q,
    {
        if len - off < 2 {
            return Err("Huffman: truncated codebook");
        }
        codebook.push((data[off] as u64, data[off + 1] as u64));
        off = off + 2;
        q = q + 1;
    }
    // canonical codes by (length, symbol)
    let mut keys: Vec<(u64, u64)> = Vec::new();
    let mut idx: Vec<usize> = Vec::new();
    q = 0;
    while q < n_syms
        invariant
            q <= n_syms,
            codebook@.len() == n_syms,
            keys@.len() == q,
            idx@.len() == q,
            n_syms == hf_count(data@),
            forall|k: int| 0 <= k < n_syms ==> #[trigger] codebook@[k] == (data@[2 + 2 * k] as u64, data@[3 + 2 * k] as u64),
            forall|k: int| 0 <= k < q ==> #[trigger] idx@[k] == k,
            forall|k: int| 0 <= k < q ==> #[trigger] keys@[k] == (codebook@[k].1, codebook@[k].0),
        decreases n_syms - q,
    {
        keys.push((codebook[q].1, codebook[q].0));
        idx.push(q);
        q = q + 1;
    }
    assert(keys@ =~= hf_keys(data@));
    assert(idx@ =~= crate::bwt::iota(n_syms as nat));
    let order = sort_by_keys(idx.as_slice(), keys.as_slice());
    proof {
        broadcast use vstd::seq_lib::group_to_multiset_ensures;

        assert(order@.len() == order@.to_multiset().len());
        assert(idx@.len() == idx@.to_multiset().len());
    }
    let mut sorted: Vec<(u64, u64)> = Vec::new();
    q = 0;
    while q < order.len()
        invariant
            q <= order@.len(),
            sorted@.len() == q,
            keys@.len() == n_syms,
            codebook@.len() == n_syms,
            forall|k: int| 0 <= k < order@.len() ==> order@[k] < keys@.len(),
            forall|k: int| 0 <= k < n_syms ==> (#[trigger] codebook@[k]).1 < 256 && codebook@[k].0 < 256,
            forall|k: int| 0 <= k < q ==> (#[trigger] sorted@[k]).1 < 256 && sorted@[k].0 < 256,
            order@.len() == n_syms,
            n_syms == hf_count(data@),
            forall|k: int| 0 <= k < n_syms ==> #[trigger] codebook@[k] == (data@[2 + 2 * k] as u64, data@[3 + 2 * k] as u64),
            forall|k: int| 0 <= k < q ==> #[trigger] sorted@[k] == codebook@[order@[k] as int],
        decreases order@.len() - q,
    {
        sorted.push(codebook[order[q]]);
        q = q + 1;
    }
    assert(sorted@ =~= hf_sorted(data@));
    assert forall|k: int| 0 <= k < sorted@.len() implies hf_is_cb_sym(data@, (#[trigger] sorted@[k]).0) by {
        assert(sorted@[k].0 == data@[2 + 2 * (order@[k] as int)] as u64);
    }
    let mut code_table: Vec<(u64, u64, bool)> = Vec::new();
    while code_table.len() < 256
        invariant
            code_table@.len() <= 256,
            forall|k: int| 0 <= k < code_table@.len() ==> (#[trigger] code_table@[k]).0 < 0x1_0000_0000,
            forall|k: int| 0 <= k < code_table@.len() ==> #[trigger] code_table@[k] == (0u64, 0u64, false),
        decreases 256 - code_table@.len(),
    {
        code_table.push((0, 0, false));
    }
    assert(code_table@ =~= Seq::new(256, |i: int| (0u64, 0u64, false)));
    let ghost ct_goal = hf_code_table(sorted@, 0, 0, 0, code_table@);
    let mut code: u64 = 0;
    let mut prev_len: u64 = 0;
    q = 0;
    while q < sorted.len()
        invariant
            q <= sorted@.len(),
            code_table@.len() == 256,
            code < 0x1_0000_0000,
            prev_len < 256,
            data@.len() >= 3,
            num_symbols > 0,
            data@.len() >= 2 + 2 * hf_count(data@),
            sorted@ == hf_sorted(data@),
            hf_canon_fails(sorted@, 0, 0, 0) == hf_canon_fails(sorted@, q as int, code, prev_len),
            hf_code_table(sorted@, q as int, code, prev_len, code_table@) == ct_goal,
            forall|k: int| 0 <= k < 256 ==> (#[trigger] code_table@[k]).0 < 0x1_0000_0000,
            forall|k: int| 0 <= k < sorted@.len() ==> (#[trigger] sorted@[k]).1 < 256 && sorted@[k].0 < 256,
        decreases sorted@.len() - q,
    {
        let (sym, l) = sorted[q];
        let ghost code0 = code;
        if l > prev_len {
            let sh = l - prev_len;
            if sh >= 32 {
                assert(hf_canon_fails(sorted@, q as int, code0, prev_len));
                return Err("Huffman: code too long");
            }
            let shifted = code << sh;
            code = shifted & 0xFFFF_FFFF;
            assert(shifted & 0xFFFF_FFFF <= 0xFFFF_FFFF) by (bit_vector);
        }
        code_table.set(sym as usize, (code, l, true));
        if code == 0xFFFF_FFFF {
            assert(hf_canon_fails(sorted@, q as int, code0, prev_len));
            return Err("Huffman: code too long");
        }
        code = code + 1;
        prev_len = l;
        q = q + 1;
    }
    assert(!hf_canon_fails(sorted@, q as int, code, prev_len));
    assert(code_table@ == ct_goal);
    // decode
    let bits = slice_range(data, off, len);
    let total_bits: u64 = bits.len() as u64 * 8;
    let mut result: Vec<u64> = Vec::new();
    let mut pos: u64 = 0;
    let mut cur: u64 = 0;
    let mut cur_bits: u64 = 0;
    let ghost bb_bits = bytes_bits(bits@);
    let ghost dgoal = hf_run(bb_bits, num_symbols as nat, sorted@, code_table@, 0, 0, 0, Seq::empty());
    assert(result@ =~= Seq::<u64>::empty());
    while (result.len() as u64) < num_symbols && pos < total_bits
        invariant
            bb_bits == bytes_bits(bits@),
            hf_run(bb_bits, num_symbols as nat, sorted@, code_table@, pos as int, cur, cur_bits, result@) == dgoal,
            total_bits == bits@.len() * 8,
            pos <= total_bits,
            cur_bits <= pos,
            code_table@.len() == 256,
            cur < 0x1_0000_0000,
            forall|k: int| 0 <= k < sorted@.len() ==> (#[trigger] sorted@[k]).1 < 256 && sorted@[k].0 < 256,
            forall|k: int| 0 <= k < sorted@.len() ==> hf_is_cb_sym(data@, (#[trigger] sorted@[k]).0),
            result@.len() <= num_symbols,
            forall|k: int| 0 <= k < result@.len() ==> hf_is_cb_sym(data@, #[trigger] result@[k]),
        decreases total_bits - pos,
    {
        assert(pos / 8 < bits@.len()) by (nonlinear_arith)
            requires
                pos < bits@.len() * 8,
        ;
        let byte = bits[(pos / 8) as usize];
        let bit = ((byte >> ((7 - pos % 8) as u8)) & 1) as u64;
        let ghost pos0 = pos as int;
        let ghost res0 = result@;
        let ghost cur0 = cur;
        let ghost cb0 = cur_bits;
        proof {
            crate::bit_io::lemma_u8_bit(byte, (7 - pos % 8) as u8);
            crate::bit_io::lemma_bytes_bits_index(bits@, pos as int);
            assert(bit == (if bb_bits[pos as int] { 1u64 } else { 0u64 }));
        }
        let grown = (cur << 1u64) | bit;
        cur = grown & 0xFFFF_FFFF;
        assert(grown & 0xFFFF_FFFF <= 0xFFFF_FFFF) by (bit_vector);
        cur_bits = cur_bits + 1;
        let ghost res2 = result@;
        let ghost cur2 = cur;
        let ghost cb2 = cur_bits;
        {
            let mut k: usize = 0;
            while k < sorted.len()
                invariant_except_break
                    result@.len() < num_symbols,
                    result@ == res2 && cur == cur2 && cur_bits == cb2,
                    hf_slow(sorted@, code_table@, cur2, cb2, 0) == hf_slow(sorted@, code_table@, cur2, cb2, k as int),
                invariant
                    k <= sorted@.len(),
                    code_table@.len() == 256,
                    cur_bits <= pos + 1,
                    cur < 0x1_0000_0000,
                    forall|k: int| 0 <= k < sorted@.len() ==> (#[trigger] sorted@[k]).1 < 256 && sorted@[k].0 < 256,
                    forall|k: int| 0 <= k < sorted@.len() ==> hf_is_cb_sym(data@, (#[trigger] sorted@[k]).0),
                    result@.len() <= num_symbols,
                    forall|k: int| 0 <= k < result@.len() ==> hf_is_cb_sym(data@, #[trigger] result@[k]),
                ensures
                    result@.len() <= num_symbols,
                    forall|k: int| 0 <= k < result@.len() ==> hf_is_cb_sym(data@, #[trigger] result@[k]),
                    match hf_slow(sorted@, code_table@, cur2, cb2, 0) {
                        Some(sy) => result@ == res2.push(sy) && cur == 0 && cur_bits == 0,
                        None => result@ == res2 && cur == cur2 && cur_bits == cb2,
                    },
                decreases sorted@.len() - k,
            {
                let (sym, l) = sorted[k];
                if l == cur_bits {
                    let (c, _, present) = code_table[sym as usize];
                    if present && c == cur {
                        assert(hf_slow(sorted@, code_table@, cur2, cb2, k as int) == Some(sym));
                        result.push(sym);
                        cur = 0;
                        cur_bits = 0;
                        break;
                    }
                }
                k = k + 1;
            }
        }
        proof {
            assert(hf_run(bb_bits, num_symbols as nat, sorted@, code_table@, pos0, cur0, cb0, res0) == hf_run(
                bb_bits,
                num_symbols as nat,
                sorted@,
                code_table@,
                pos0 + 1,
                cur,
                cur_bits,
                result@,
            ));
        }
        pos = pos + 1;
    }
    Ok(result)
}

/// Whether `huffman_decode_symbols` fails on `d` with `num` symbols: a
/// truncated codebook or canonical codes past 32 bits.
pub open spec fn hf_decode_fails(d: Seq<u8>, num: nat) -> bool {
    d.len() >= 3 && num > 0 && (d.len() < 2 + 2 * hf_count(d) || hf_canon_fails(hf_sorted(d), 0, 0, 0))
}

/// Entries of a Huffman body from its decoded symbols `dec` (each
/// `tag | value << 3`) with the ZERO-RLE entries of `pairs` (gap, run) put
/// back: each one after `gap` further symbols (`rem` still to go).
pub open spec fn hf_merge(dec: Seq<u64>, pairs: Seq<(u64, u64)>, si: nat, zi: nat, rem: u64) -> Seq<
    (u8, u64, u64),
>
    decreases dec.len() + pairs.len() - si - zi,
{
    if si > dec.len() || zi > pairs.len() {
        Seq::empty()
    } else if zi < pairs.len() && rem == 0 {
        seq![(3u8, 0u64, pairs[zi as int].1)] + hf_merge(
            dec,
            pairs,
            si,
            zi + 1,
            if zi + 1 < pairs.len() { pairs[zi + 1 as int].0 } else { 0 },
        )
    } else if si < dec.len() {
        seq![((dec[si as int] & 7) as u8, dec[si as int] >> 3u64, 0u64)] + hf_merge(
            dec,
            pairs,
            si + 1,
            zi,
            if rem > 0 { (rem - 1) as u64 } else { 0 },
        )
    } else {
        Seq::empty()
    }
}

/// The first gap of `pairs` (0 when there is none).
pub open spec fn hf_first_gap(pairs: Seq<(u64, u64)>) -> u64 {
    if pairs.len() > 0 { pairs[0].0 } else { 0 }
}

/// The `k` (gap, run) pairs of ULEB128 numbers read one after another from
/// `off` of `body`, with the offset after them; `None` when one is cut short.
pub open spec fn hf_pairs(body: Seq<u8>, off: int, k: nat) -> Option<(Seq<(u64, u64)>, int)>
    decreases k,
{
    if k == 0 {
        Some((Seq::empty(), off))
    } else if !uleb_ok_at(body, off) || !uleb_ok_at(body, uleb_field(body, off).1) {
        None
    } else {
        let g = uleb_field(body, off);
        let r = uleb_field(body, g.1);
        match hf_pairs(body, r.1, (k - 1) as nat) {
            Some(rest) => Some((seq![(g.0 as u64, r.0 as u64)] + rest.0, rest.1)),
            None => None,
        }
    }
}

/// The two counts of a Huffman body (symbols, ZERO-RLE entries) and the
/// offset of its pair area.
pub open spec fn hf_fields(body: Seq<u8>) -> (nat, nat, int) {
    let f1 = uleb_field(body, 0);
    let f2 = uleb_field(body, f1.1);
    (f1.0, f2.0, f2.1)
}

/// Both counts and every pair read without error.
pub open spec fn hf_fields_ok(body: Seq<u8>) -> bool {
    let h = hf_fields(body);
    &&& uleb_ok_at(body, 0)
    &&& uleb_ok_at(body, uleb_field(body, 0).1)
    &&& hf_pairs(body, h.2, h.1) is Some
}

/// Offset of the Huffman stream: right after the last pair.
pub open spec fn hf_stream_off(body: Seq<u8>) -> int {
    let h = hf_fields(body);
    hf_pairs(body, h.2, h.1)->Some_0.1
}

proof fn lemma_hf_pairs_step(body: Seq<u8>, off: int, k: nat)
    requires
        k > 0,
        uleb_ok_at(body, off),
        uleb_ok_at(body, uleb_field(body, off).1),
    ensures
        ({
            let g = uleb_field(body, off);
            let r = uleb_field(body, g.1);
            &&& (hf_pairs(body, off, k) is Some) == (hf_pairs(body, r.1, (k - 1) as nat) is Some)
            &&& hf_pairs(body, off, k) is Some ==> hf_pairs(body, off, k)->Some_0.0 == seq![(g.0 as u64, r.0 as u64)]
                + hf_pairs(body, r.1, (k - 1) as nat)->Some_0.0 && hf_pairs(body, off, k)->Some_0.1 == hf_pairs(
                body,
                r.1,
                (k - 1) as nat,
            )->Some_0.1
        }),
{
}

proof fn lemma_hf_pairs_end(body: Seq<u8>, off: int, k: nat)
    requires
        0 <= off <= body.len(),
        hf_pairs(body, off, k) is Some,
    ensures
        off <= hf_pairs(body, off, k)->Some_0.1 <= body.len(),
        hf_pairs(body, off, k)->Some_0.0.len() == k,
    decreases k,
{
    if k > 0 {
        let g = uleb_field(body, off);
        let r = uleb_field(body, g.1);
        crate::bit_io::lemma_uleb_span_bound(body.subrange(off, body.len() as int));
        crate::bit_io::lemma_uleb_span_bound(body.subrange(g.1, body.len() as int));
        lemma_hf_pairs_end(body, r.1, (k - 1) as nat);
    }
}

/// Parse a Huffman-coded body: symbol count, ZERO-RLE count, the
/// (gap, run) pairs one after another, then the Huffman stream; ZERO-RLE
/// entries are put back between the decoded entries by their gaps.  Errors
/// when a number is cut short or the stream does not decode.
fn parse_huffman(body: &[u8]) -> (r: Result<Vec<(u8, u64, u64)>, &'static str>)
    requires
        reader_len_ok(body@.len()),
    ensures
        ({
            let h = hf_fields(body@);
            let pairs = hf_pairs(body@, h.2, h.1)->Some_0.0;
            let hf = body@.subrange(hf_stream_off(body@), body@.len() as int);
            &&& !hf_fields_ok(body@) ==> r is Err
            &&& hf_fields_ok(body@) ==> (r is Err <==> hf_decode_fails(hf, h.0))
            &&& r is Ok ==> r->Ok_0@ == hf_merge(hf_result(hf, h.0), pairs, 0, 0, hf_first_gap(pairs))
        }),
{
    let ghost d = body@;
    let ghost h = hf_fields(d);
    let (num_hsyms, o1) = uleb_at(body, 0)?;
    let (num_zero_rle, o2) = uleb_at(body, o1)?;
    assert(h.0 == num_hsyms && h.1 == num_zero_rle && h.2 == o2);
    let mut off: usize = o2;
    let mut pairs: Vec<(u64, u64)> = Vec::new();
    let mut z: u64 = 0;
    assert(pairs@ + Seq::<(u64, u64)>::empty() =~= pairs@);
    while z < num_zero_rle
        invariant
            d == body@,
            h == hf_fields(d),
            h.1 == num_zero_rle,
            h.0 == num_hsyms,
            uleb_ok_at(d, 0) && uleb_ok_at(d, uleb_field(d, 0).1),
            o2 <= off <= d.len(),
            z <= num_zero_rle,
            pairs@.len() == z,
            (hf_pairs(d, h.2, h.1) is Some) == (hf_pairs(d, off as int, (num_zero_rle - z) as nat) is Some),
            hf_pairs(d, h.2, h.1) is Some ==> hf_pairs(d, h.2, h.1)->Some_0.0 == pairs@ + hf_pairs(
                d,
                off as int,
                (num_zero_rle - z) as nat,
            )->Some_0.0 && hf_pairs(d, h.2, h.1)->Some_0.1 == hf_pairs(
                d,
                off as int,
                (num_zero_rle - z) as nat,
            )->Some_0.1,
        decreases num_zero_rle - z,
    {
        let (gap, oa) = uleb_at(body, off)?;
        let (run, ob) = uleb_at(body, oa)?;
        proof {
            lemma_hf_pairs_step(d, off as int, (num_zero_rle - z) as nat);
            assert((num_zero_rle - z - 1) as nat == (num_zero_rle - (z + 1)) as nat);
        }
        let ghost p0 = pairs@;
        pairs.push((gap, run));
        proof {
            if hf_pairs(d, h.2, h.1) is Some {
                let rest = hf_pairs(d, ob as int, (num_zero_rle - (z + 1)) as nat)->Some_0.0;
                assert(p0 + (seq![(gap, run)] + rest) =~= pairs@ + rest);
            }
        }
        off = ob;
        z = z + 1;
    }
    proof {
        assert(hf_pairs(d, off as int, 0) == Some((Seq::<(u64, u64)>::empty(), off as int)));
        if hf_pairs(d, h.2, h.1) is Some {
            assert(pairs@ + Seq::<(u64, u64)>::empty() =~= pairs@);
        }
    }
    let hf_data = slice_range(body, off, body.len());
    let decoded = match huffman_decode_symbols(hf_data, num_hsyms) {
        Ok(x) => x,
        Err(e) => {
            return Err(e);
        },
    };
    let ghost ps = pairs@;
    let mut out: Vec<(u8, u64, u64)> = Vec::new();
    let mut si: usize = 0;
    let mut zi: usize = 0;
    let nz = pairs.len();
    let mut remaining: u64 = if nz > 0 {
        pairs[0].0
    } else {
        0
    };
    let ghost goal = hf_merge(decoded@, ps, 0, 0, remaining);
    assert(out@ + hf_merge(decoded@, ps, 0, 0, remaining) =~= goal);
    while si < decoded.len() || zi < nz
        invariant
            si <= decoded@.len(),
            zi <= nz,
            nz == ps.len(),
            ps == pairs@,
            out@ + hf_merge(decoded@, ps, si as nat, zi as nat, remaining) == goal,
        ensures
            out@ == goal,
        decreases decoded@.len() - si + nz - zi,
    {
        if zi < nz && remaining == 0 {
            let run = pairs[zi].1;
            out.push((3, 0, run));
            zi = zi + 1;
            remaining = if zi < nz {
                pairs[zi].0
            } else {
                0
            };
            assert(out@ + hf_merge(decoded@, ps, si as nat, zi as nat, remaining) =~= goal);
        } else if si < decoded.len() {
            let sym = decoded[si];
            out.push(((sym & 7) as u8, sym >> 3u64, 0));
            si = si + 1;
            if remaining > 0 {
                remaining = remaining - 1;
            }
            assert(out@ + hf_merge(decoded@, ps, si as nat, zi as nat, remaining) =~= goal);
        } else {
            assert(out@ =~= out@ + hf_merge(decoded@, ps, si as nat, zi as nat, remaining));
            break;
        }
    }
    Ok(out)
}


// ───────────────────────────── decoding: archive ─────────────────────────────

/// Value and end offset of the ULEB128 number at `off`.
pub open spec fn uleb_field(a: Seq<u8>, off: int) -> (nat, int) {
    let t = a.subrange(off, a.len() as int);
    (uleb_value(t), off + uleb_span(t))
}

/// Data length recorded in the header (after `m` and `r`).
pub open spec fn header_data_len(a: Seq<u8>) -> nat {
    let f1 = uleb_field(a, 7);
    let f2 = uleb_field(a, f1.1);
    uleb_field(a, f2.1).0
}

/// `s` cut to at most `n` bytes.
pub open spec fn take_upto(s: Seq<u8>, n: nat) -> Seq<u8> {
    if s.len() > n {
        s.subrange(0, n as int)
    } else {
        s
    }
}

/// Decoder settings named by the header of `a`, with MFS block value
/// `mfs_val`.
pub open spec fn decode_params(a: Seq<u8>, mfs_val: u64) -> EmitParams {
    EmitParams {
        bytes: (a[6] / 8) as u64,
        mask: vstd::bits::low_bits_mask(a[6] as nat) as u64,
        delta: a[5] & 1u8 == 1u8,
        odd_sep: a[5] & 8u8 == 8u8,
        mfs_val,
    }
}

/// `out` is what the archive `a` decodes to over `s`: the header is valid,
/// and `out` is the block bytes of some entry stream under the header's
/// settings, cut to the recorded data length.
pub open spec fn ssp_decoded_as(a: Seq<u8>, s: Seq<u64>, out: Seq<u8>) -> bool {
    &&& a.len() >= 7
    &&& a.subrange(0, 4) == magic_seq()
    &&& a[4] == SSP5_VERSION
    &&& block_bits_ok(a[6])
    &&& exists|es: Seq<(u8, u64, u64)>, mfs_val: u64|
        out == take_upto(#[trigger] emit_all(es, s, decode_params(a, mfs_val)).1, header_data_len(a))
}

/// Block-size byte accepted by the decoder.
pub open spec fn block_bits_ok(bb: u8) -> bool {
    8 <= bb <= 64 && bb % 8 == 0
}

/// A complete ULEB128 field of at most ten bytes at `off` of `a`.
pub open spec fn uleb_ok_at(a: Seq<u8>, off: int) -> bool {
    let t = a.subrange(off, a.len() as int);
    uleb_safe(t) && uleb_complete(t)
}

/// The four ULEB128 header fields after the block size are complete.
pub open spec fn header_fields_ok(a: Seq<u8>) -> bool {
    let f1 = uleb_field(a, 7);
    let f2 = uleb_field(a, f1.1);
    let f3 = uleb_field(a, f2.1);
    uleb_ok_at(a, 7) && uleb_ok_at(a, f1.1) && uleb_ok_at(a, f2.1) && uleb_ok_at(a, f3.1)
}

/// Offset after the four ULEB128 header fields.
pub open spec fn header_fields_end(a: Seq<u8>) -> int {
    let f1 = uleb_field(a, 7);
    let f2 = uleb_field(a, f1.1);
    let f3 = uleb_field(a, f2.1);
    uleb_field(a, f3.1).1
}

/// The header after the block size, read as the decoder reads it: the offset
/// of the body and the MFS block value (0 without MFS), or `None` where a
/// field is cut short.  An MFS field is the packed super-symbol index and
/// odd bit, or (with separate odd bits) an odd byte and the index.
pub open spec fn header_tail(a: Seq<u8>, s: Seq<u64>) -> Option<(int, u64)> {
    let e = header_fields_end(a);
    if !header_fields_ok(a) {
        None
    } else if a[5] & 4u8 != 4u8 {
        Some((e, 0u64))
    } else if a[5] & 8u8 == 8u8 {
        if e >= a.len() || !uleb_ok_at(a, e + 1) {
            None
        } else {
            let k = uleb_field(a, e + 1);
            let base = if k.0 > 0 { symval_or0(k.0 as u64, s) } else { 0 };
            Some((k.1, add_wrap(base, a[e] as u64)))
        }
    } else if !uleb_ok_at(a, e) {
        None
    } else {
        let pk = uleb_field(a, e);
        let k = (pk.0 as u64) >> 1u64;
        let base = if k > 0 { symval_or0(k, s) } else { 0 };
        Some((pk.1, add_wrap(base, (pk.0 as u64) & 1u64)))
    }
}

/// A header the decoder accepts: length, magic, version and block size.
pub open spec fn header_valid(a: Seq<u8>) -> bool {
    &&& a.len() >= 7
    &&& a.subrange(0, 4) == magic_seq()
    &&& a[4] == SSP5_VERSION
    &&& block_bits_ok(a[6])
}

/// Flags naming a bit-packed body (neither range nor Huffman coding).
pub open spec fn bitpacked_flags(flags: u8) -> bool {
    flags & 64u8 != 64u8 && flags & 128u8 != 128u8
}

/// What an archive with a bit-packed body decodes to: the blocks of the
/// entries read from the body, cut to the recorded data length.
pub open spec fn bitpacked_decoded(a: Seq<u8>, s: Seq<u64>) -> Seq<u8> {
    let t = header_tail(a, s)->Some_0;
    let es = parse_bp(a.subrange(t.0, a.len() as int), 0, a[6] as nat, a[5] & 8u8 == 8u8);
    take_upto(emit_all(es, s, decode_params(a, t.1)).1, header_data_len(a))
}

/// A range-coded body whose layout, tag model and symbol count the parser
/// accepts.
pub open spec fn rc_parse_ok(body: Seq<u8>) -> bool {
    let rc = rc_part(body);
    let tt = rc_tag_total(rc);
    &&& uleb_ok_at(body, 0)
    &&& rc_layout_error(rc) is None
    &&& !(tt == 0 || tt > MAX_TOTAL)
    &&& uleb_field(body, 0).0 <= 0x100_0000_0000
}

/// A Huffman body the parser reads: complete fields and pairs, and a
/// symbol stream that decodes.
pub open spec fn hf_parse_ok(body: Seq<u8>) -> bool {
    &&& hf_fields_ok(body)
    &&& !hf_decode_fails(body.subrange(hf_stream_off(body), body.len() as int), hf_fields(body).0)
}

/// Entries a Huffman body gives.
pub open spec fn hf_entries(body: Seq<u8>) -> Seq<(u8, u64, u64)> {
    let h = hf_fields(body);
    let pairs = hf_pairs(body, h.2, h.1)->Some_0.0;
    hf_merge(
        hf_result(body.subrange(hf_stream_off(body), body.len() as int), h.0),
        pairs,
        0,
        0,
        hf_first_gap(pairs),
    )
}

/// What an archive with a Huffman body decodes to: the blocks of its
/// entries, cut to the recorded data length.
pub open spec fn huffman_decoded(a: Seq<u8>, s: Seq<u64>) -> Seq<u8> {
    let t = header_tail(a, s)->Some_0;
    take_upto(emit_all(hf_entries(archive_body(a, s)), s, decode_params(a, t.1)).1, header_data_len(a))
}

/// The body of archive `a` after a complete header tail.
pub open spec fn archive_body(a: Seq<u8>, s: Seq<u64>) -> Seq<u8> {
    a.subrange(header_tail(a, s)->Some_0.0, a.len() as int)
}

/// Read the ULEB128 number at `off` of `a`: (value, new offset).
fn uleb_at(a: &[u8], off: usize) -> (r: Result<(u64, usize), &'static str>)
    requires
        off <= a@.len(),
    ensures
        r is Ok <==> uleb_ok_at(a@, off as int),
        r is Ok ==> r->Ok_0.0 as nat == uleb_field(a@, off as int).0 && r->Ok_0.1 as int == uleb_field(
            a@,
            off as int,
        ).1 && r->Ok_0.1 <= a@.len(),
{
    if !uleb_fits_at(a, off) {
        return Err("ULEB: too long");
    }
    let (v, pos, done) = read_uleb_at(a, off);
    proof {
        crate::bit_io::lemma_uleb_span_bound(a@.subrange(off as int, a@.len() as int));
    }
    if done {
        Ok((v, pos))
    } else {
        Err("ULEB: incomplete")
    }
}

/// Decode an SSP archive back to the original bytes.  The header is checked
/// (length, magic, version, block size), the body is parsed by the coding
/// its flags name, the entries are turned into blocks (undoing delta), and
/// the result is cut to the recorded data length.  Errors also on a
/// truncated header or body, or a coded body whose model does not cover its
/// values.
pub fn decode(archive: &[u8], s: &[u64]) -> (r: Result<Vec<u8>, &'static str>)
    ensures
        archive@.len() < 7 ==> r == Err::<Vec<u8>, &'static str>("Archive too short"),
        archive@.len() >= 7 && archive@.subrange(0, 4) != magic_seq() ==> r == Err::<Vec<u8>, &'static str>(
            "Bad magic (expected SSP5)",
        ),
        archive@.len() >= 7 && archive@.subrange(0, 4) == magic_seq() && archive@[4] != SSP5_VERSION ==> r
            == Err::<Vec<u8>, &'static str>("Unsupported SSP5 version"),
        archive@.len() >= 7 && archive@.subrange(0, 4) == magic_seq() && archive@[4] == SSP5_VERSION
            && !block_bits_ok(archive@[6]) ==> r == Err::<Vec<u8>, &'static str>("Invalid block_bits"),
        header_valid(archive@) && archive@.len() >= 0x1000_0000_0000_0000 ==> r == Err::<
            Vec<u8>,
            &'static str,
        >("Archive too large"),
        header_valid(archive@) && archive@.len() < 0x1000_0000_0000_0000 && bitpacked_flags(archive@[5]) ==> (
        r is Ok <==> header_tail(archive@, s@) is Some),
        r is Ok && bitpacked_flags(archive@[5]) ==> r->Ok_0@ == bitpacked_decoded(archive@, s@),
        header_valid(archive@) && archive@.len() < 0x1000_0000_0000_0000 && archive@[5] & 64u8 == 64u8 ==> (r is Ok
            <==> header_tail(archive@, s@) is Some && hf_parse_ok(archive_body(archive@, s@))),
        r is Ok && archive@[5] & 64u8 == 64u8 ==> r->Ok_0@ == huffman_decoded(archive@, s@),
        header_valid(archive@) && archive@.len() < 0x1000_0000_0000_0000 && archive@[5] & 64u8 != 64u8 && archive@[5]
            & 128u8 == 128u8 ==> (r is Ok ==> header_tail(archive@, s@) is Some && rc_parse_ok(
            archive_body(archive@, s@),
        )) && (header_tail(archive@, s@) is Some && rc_parse_ok(archive_body(archive@, s@)) && !rc_raw_model_bad(
            rc_part(archive_body(archive@, s@)),
        ) ==> r is Ok),
        r is Ok ==> ssp_decoded_as(archive@, s@, r->Ok_0@),
{
    let alen = archive.len();
    if alen < 7 {
        return Err("Archive too short");
    }
    if archive[0] != SSP5_MAGIC[0] || archive[1] != SSP5_MAGIC[1] || archive[2] != SSP5_MAGIC[2] || archive[3]
        != SSP5_MAGIC[3] {
        proof {
            if archive@.subrange(0, 4) == magic_seq() {
                assert(archive@[0] == archive@.subrange(0, 4)[0]);
                assert(archive@[1] == archive@.subrange(0, 4)[1]);
                assert(archive@[2] == archive@.subrange(0, 4)[2]);
                assert(archive@[3] == archive@.subrange(0, 4)[3]);
            }
        }
        return Err("Bad magic (expected SSP5)");
    }
    assert(archive@.subrange(0, 4) =~= magic_seq());
    if archive[4] != SSP5_VERSION {
        return Err("Unsupported SSP5 version");
    }
    let flags = archive[5];
    let block_bits = archive[6] as usize;
    if block_bits < 8 || block_bits > 64 || block_bits % 8 != 0 {
        return Err("Invalid block_bits");
    }
    if alen as u64 >= 0x1000_0000_0000_0000 {
        return Err("Archive too large");
    }
    let range_coded = (flags & 128) != 0;
    let huffman_coded = (flags & 64) != 0;
    let delta = (flags & 1) != 0;
    let mfs_enabled = (flags & 4) != 0;
    let use_odd_sep = (flags & 8) != 0;
    let bytes = (block_bits / 8) as u64;
    proof {
        vstd::arithmetic::power2::lemma2_to64();
        vstd::arithmetic::power2::lemma2_to64_rest();
    }
    let mask: u64 = if block_bits == 64 {
        0xFFFF_FFFF_FFFF_FFFF
    } else {
        proof {
            vstd::arithmetic::power2::lemma_pow2_strictly_increases(block_bits as nat, 64);
            vstd::bits::lemma_u64_shl_is_mul(1, block_bits as u64);
        }
        (1u64 << (block_bits as u64)) - 1
    };
    assert(mask == vstd::bits::low_bits_mask(block_bits as nat) as u64);
    proof {
        assert(range_coded == (flags & 128u8 == 128u8)) by (bit_vector)
            requires
                range_coded == ((flags & 128) != 0),
        ;
        assert(huffman_coded == (flags & 64u8 == 64u8)) by (bit_vector)
            requires
                huffman_coded == ((flags & 64) != 0),
        ;
        assert(mfs_enabled == (flags & 4u8 == 4u8)) by (bit_vector)
            requires
                mfs_enabled == ((flags & 4) != 0),
        ;
        assert(use_odd_sep == (flags & 8u8 == 8u8)) by (bit_vector)
            requires
                use_odd_sep == ((flags & 8) != 0),
        ;
    }
    let (_m, off1) = uleb_at(archive, 7)?;
    let (_r, off2) = uleb_at(archive, off1)?;
    let (data_len, off3) = uleb_at(archive, off2)?;
    let (_nb, off4) = uleb_at(archive, off3)?;
    assert(header_fields_ok(archive@) && header_fields_end(archive@) == off4 as int);
    let mut off = off4;
    let mfs_val: u64 = if mfs_enabled {
        if use_odd_sep {
            if off >= alen {
                return Err("Archive too short");
            }
            let mfs_odd = archive[off] as u64;
            off = off + 1;
            let (mfs_k, o) = uleb_at(archive, off)?;
            off = o;
            let base = if mfs_k > 0 {
                symbol_or_zero(mfs_k, s)
            } else {
                0
            };
            base.wrapping_add(mfs_odd)
        } else {
            let (packed, o) = uleb_at(archive, off)?;
            off = o;
            let k = packed >> 1;
            let base = if k > 0 {
                symbol_or_zero(k, s)
            } else {
                0
            };
            base.wrapping_add(packed & 1)
        }
    } else {
        0
    };
    assert(header_tail(archive@, s@) == Some((off as int, mfs_val))) by {
        vstd::arithmetic::power2::lemma2_to64_rest();
    }
    let body = slice_range(archive, off, alen);
    let entries: Vec<(u8, u64, u64)> = if huffman_coded {
        parse_huffman(body)?
    } else if range_coded {
        parse_range_coded(body, block_bits, use_odd_sep)?
    } else {
        parse_bitpacked(body, block_bits, use_odd_sep)
    };
    let p = EmitParams { bytes, mask, delta, odd_sep: use_odd_sep, mfs_val };
    let mut output = emit_blocks(&entries, s, &p);
    let ghost emitted = output@;
    if (output.len() as u64) > data_len {
        output.truncate(data_len as usize);
    }
    proof {
        assert(header_data_len(archive@) == data_len as nat);
        assert(delta == (flags & 1u8 == 1u8)) by (bit_vector)
            requires
                delta == ((flags & 1) != 0),
        ;
        assert(use_odd_sep == (flags & 8u8 == 8u8)) by (bit_vector)
            requires
                use_odd_sep == ((flags & 8) != 0),
        ;
        assert(output@ =~= take_upto(emitted, data_len as nat));
        assert(p == decode_params(archive@, mfs_val));
    }
    Ok(output)
}

// ───────────────────────────── bit-packed round trip ─────────────────────────────

/// The entries that the bit-packed form of `e` reads back as: ZERO-RLE with
/// its run in the third field, RAW-RLE spelled out as RAW entries.
pub open spec fn parsed_form(e: (u8, u64, u64)) -> Seq<(u8, u64, u64)> {
    if e.0 == TAG_ZERO_RLE {
        seq![(TAG_ZERO_RLE, 0u64, e.1)]
    } else if e.0 == TAG_RAW_RLE {
        Seq::new(e.2 as nat, |t: int| (TAG_RAW, e.1, 0u64))
    } else {
        seq![e]
    }
}

/// `parsed_form` of each entry, in order.
pub open spec fn parsed_entries(es: Seq<(u8, u64, u64)>) -> Seq<(u8, u64, u64)>
    decreases es.len(),
{
    if es.len() == 0 {
        Seq::empty()
    } else {
        parsed_entries(es.drop_last()) + parsed_form(es.last())
    }
}

/// An entry whose bit-packed form reads back: a known tag, RAW values within
/// the block bits, unused fields zero.
pub open spec fn packable(e: (u8, u64, u64), bb: nat) -> bool {
    &&& e.0 <= TAG_RAW_RLE
    &&& (e.0 == TAG_RAW || e.0 == TAG_RAW_RLE) ==> e.1 < vstd::arithmetic::power2::pow2(bb)
    &&& e.0 <= TAG_ZERO ==> e.2 == 0
    &&& e.0 == TAG_ZERO ==> e.1 == 0
    &&& e.0 == TAG_MFS ==> e.1 == 0 && e.2 == 0
}

proof fn lemma_parsed_entries_add(a: Seq<(u8, u64, u64)>, b: Seq<(u8, u64, u64)>)
    ensures
        parsed_entries(a + b) == parsed_entries(a) + parsed_entries(b),
    decreases b.len(),
{
    if b.len() == 0 {
        assert(a + b =~= a);
        assert(parsed_entries(a) + parsed_entries(b) =~= parsed_entries(a));
    } else {
        assert((a + b).drop_last() =~= a + b.drop_last());
        lemma_parsed_entries_add(a, b.drop_last());
        assert(parsed_entries(a) + parsed_entries(b.drop_last()) + parsed_form(b.last()) =~= parsed_entries(a)
            + (parsed_entries(b.drop_last()) + parsed_form(b.last())));
    }
}

/// Padding rounds a bit count up to the next byte boundary.
proof fn lemma_pad_len(x: Seq<bool>)
    ensures
        pad_bits(x).len() == byte_align(x.len() as int),
        pad_bits(x).subrange(0, x.len() as int) == x,
        pad_bits(x).len() % 8 == 0,
{
    assert(pad_bits(x).subrange(0, x.len() as int) =~= x);
}

/// Every form `write_entry` appends starts with the bits it was given.
proof fn lemma_write_entry_prefix(x: Seq<bool>, e: (u8, u64, u64), bb: nat)
    ensures
        write_entry(x, e, bb, false).len() >= x.len(),
        write_entry(x, e, bb, false).subrange(0, x.len() as int) == x,
        e.0 <= TAG_RAW_RLE ==> write_entry(x, e, bb, false).len() > x.len(),
{
    let w = write_entry(x, e, bb, false);
    if e.0 == TAG_SYM {
        lemma_pad_len(x + bits_of(0, 2));
    } else if e.0 == TAG_ZERO_RLE {
        lemma_pad_len(x + bits_of(12, 4));
    } else if e.0 == TAG_RAW_RLE {
        lemma_pad_len(x + bits_of(14, 4) + bits_of(e.1 as nat, bb));
    }
    assert(w.subrange(0, x.len() as int) =~= x);
}

/// A ULEB128 number written at a byte boundary `8 * b` is read back there.
proof fn lemma_uleb_at_boundary(d: Seq<u8>, b: int, v: nat, dflt: u64)
    requires
        0 <= b,
        v < 0x1_0000_0000_0000_0000,
        b + uleb_bytes(v).len() <= d.len(),
        bytes_bits(d).subrange(8 * b, 8 * (b + uleb_bytes(v).len())) == bytes_bits(uleb_bytes(v)),
    ensures
        uleb_or(d, 8 * b, dflt) == (v as u64, 8 * (b + uleb_bytes(v).len())),
{
    let u = uleb_bytes(v);
    crate::lz77::lemma_bytes_from_bits(d, b, u);
    let rest = d.subrange(b + u.len(), d.len() as int);
    assert(d.subrange(b, d.len() as int) =~= u + rest);
    crate::bit_io::lemma_uleb_roundtrip(v, rest);
    crate::bit_io::lemma_uleb_len(v);
    vstd::arithmetic::power2::lemma2_to64_rest();
    vstd::arithmetic::div_mod::lemma_small_mod(v, vstd::arithmetic::power2::pow2(64));
    assert(byte_align(8 * b) == 8 * b);
}

/// The 4-bit tag codes split into their two 2-bit reads.
proof fn lemma_tag_codes()
    ensures
        bits_of(12, 4) == bits_of(3, 2) + bits_of(0, 2),
        bits_of(13, 4) == bits_of(3, 2) + bits_of(1, 2),
        bits_of(14, 4) == bits_of(3, 2) + bits_of(2, 2),
{
    vstd::arithmetic::power2::lemma2_to64();
    assert(crate::bit_io::bit_of(12, 3) && crate::bit_io::bit_of(12, 2) && !crate::bit_io::bit_of(12, 1)
        && !crate::bit_io::bit_of(12, 0));
    assert(crate::bit_io::bit_of(13, 3) && crate::bit_io::bit_of(13, 2) && !crate::bit_io::bit_of(13, 1)
        && crate::bit_io::bit_of(13, 0));
    assert(crate::bit_io::bit_of(14, 3) && crate::bit_io::bit_of(14, 2) && crate::bit_io::bit_of(14, 1)
        && !crate::bit_io::bit_of(14, 0));
    assert(crate::bit_io::bit_of(3, 1) && crate::bit_io::bit_of(3, 0));
    assert(!crate::bit_io::bit_of(0, 1) && !crate::bit_io::bit_of(0, 0));
    assert(!crate::bit_io::bit_of(1, 1) && crate::bit_io::bit_of(1, 0));
    assert(crate::bit_io::bit_of(2, 1) && !crate::bit_io::bit_of(2, 0));
    assert(bits_of(12, 4) =~= bits_of(3, 2) + bits_of(0, 2));
    assert(bits_of(13, 4) =~= bits_of(3, 2) + bits_of(1, 2));
    assert(bits_of(14, 4) =~= bits_of(3, 2) + bits_of(2, 2));
}

/// A SYM entry is read back.
proof fn lemma_parse_written_sym(d: Seq<u8>, x: Seq<bool>, e: (u8, u64, u64), y: Seq<bool>, bb: nat)
    requires
        e.0 == TAG_SYM,
        packable(e, bb),
        bytes_bits(d) == write_entry(x, e, bb, false) + y,
    ensures
        bp_step(d, x.len() as int, bb, false) == Some(
            (parsed_form(e), write_entry(x, e, bb, false).len() as int),
        ),
{
    reveal(bp_tag);
    reveal(bp_payload);
    vstd::arithmetic::power2::lemma2_to64();
    let bits = bytes_bits(d);
    let p = x.len() as int;
    let t = x + bits_of(0, 2);
    let u = uleb_bytes(e.1 as nat);
    lemma_pad_len(t);
    let q = pad_bits(t).len() as int;
    assert(bits.subrange(p, p + 2) =~= bits_of(0, 2));
    crate::lz77::lemma_take_field(bits, p, 0, 2);
    assert(bits.subrange(q, q + 8 * u.len()) =~= bytes_bits(u));
    assert(bits.len() == d.len() * 8);
    lemma_uleb_at_boundary(d, q / 8, e.1 as nat, 0);
    assert(parsed_form(e) =~= seq![(0u8, e.1, 0u64)]);
}

/// A RAW or ZERO entry is read back.
proof fn lemma_parse_written_short(d: Seq<u8>, x: Seq<bool>, e: (u8, u64, u64), y: Seq<bool>, bb: nat)
    requires
        e.0 == TAG_RAW || e.0 == TAG_ZERO || e.0 == TAG_MFS,
        bb <= 64,
        packable(e, bb),
        bytes_bits(d) == write_entry(x, e, bb, false) + y,
    ensures
        bp_step(d, x.len() as int, bb, false) == Some(
            (parsed_form(e), write_entry(x, e, bb, false).len() as int),
        ),
{
    reveal(bp_tag);
    reveal(bp_payload);
    vstd::arithmetic::power2::lemma2_to64();
    let bits = bytes_bits(d);
    let p = x.len() as int;
    if e.0 == TAG_RAW {
        assert(bits.subrange(p, p + 2) =~= bits_of(1, 2));
        crate::lz77::lemma_take_field(bits, p, 1, 2);
        assert(bits.subrange(p + 2, p + 2 + bb) =~= bits_of(e.1 as nat, bb));
        crate::lz77::lemma_take_field(bits, p + 2, e.1 as nat, bb);
    } else if e.0 == TAG_ZERO {
        assert(bits.subrange(p, p + 2) =~= bits_of(2, 2));
        crate::lz77::lemma_take_field(bits, p, 2, 2);
    } else {
        lemma_tag_codes();
        assert(bits.subrange(p, p + 2) =~= bits_of(3, 2));
        assert(bits.subrange(p + 2, p + 4) =~= bits_of(1, 2));
        crate::lz77::lemma_take_field(bits, p, 3, 2);
        crate::lz77::lemma_take_field(bits, p + 2, 1, 2);
    }
}

/// A ZERO-RLE entry is read back.
proof fn lemma_parse_written_zrle(d: Seq<u8>, x: Seq<bool>, e: (u8, u64, u64), y: Seq<bool>, bb: nat)
    requires
        e.0 == TAG_ZERO_RLE,
        bytes_bits(d) == write_entry(x, e, bb, false) + y,
    ensures
        bp_step(d, x.len() as int, bb, false) == Some(
            (parsed_form(e), write_entry(x, e, bb, false).len() as int),
        ),
{
    reveal(bp_tag);
    reveal(bp_payload);
    vstd::arithmetic::power2::lemma2_to64();
    lemma_tag_codes();
    let bits = bytes_bits(d);
    let p = x.len() as int;
    let t = x + bits_of(12, 4);
    let u = uleb_bytes(e.1 as nat);
    lemma_pad_len(t);
    let q = pad_bits(t).len() as int;
    assert(bits.subrange(p, p + 2) =~= bits_of(3, 2));
    assert(bits.subrange(p + 2, p + 4) =~= bits_of(0, 2));
    crate::lz77::lemma_take_field(bits, p, 3, 2);
    crate::lz77::lemma_take_field(bits, p + 2, 0, 2);
    assert(bits.subrange(q, q + 8 * u.len()) =~= bytes_bits(u));
    assert(bits.len() == d.len() * 8);
    lemma_uleb_at_boundary(d, q / 8, e.1 as nat, 0);
}

/// A RAW-RLE entry is read back as its RAW entries.
#[verifier::spinoff_prover]
#[verifier::rlimit(40)]
proof fn lemma_parse_written_rrle(d: Seq<u8>, x: Seq<bool>, e: (u8, u64, u64), y: Seq<bool>, bb: nat)
    requires
        e.0 == TAG_RAW_RLE,
        bb <= 64,
        packable(e, bb),
        bytes_bits(d) == write_entry(x, e, bb, false) + y,
    ensures
        bp_step(d, x.len() as int, bb, false) == Some(
            (parsed_form(e), write_entry(x, e, bb, false).len() as int),
        ),
{
    reveal(bp_tag);
    reveal(bp_payload);
    vstd::arithmetic::power2::lemma2_to64();
    lemma_tag_codes();
    let bits = bytes_bits(d);
    let p = x.len() as int;
    let t = x + bits_of(14, 4) + bits_of(e.1 as nat, bb);
    let u = uleb_bytes(e.2 as nat);
    lemma_pad_len(t);
    let q = pad_bits(t).len() as int;
    assert(bits.subrange(p, p + 2) =~= bits_of(3, 2));
    assert(bits.subrange(p + 2, p + 4) =~= bits_of(2, 2));
    crate::lz77::lemma_take_field(bits, p, 3, 2);
    crate::lz77::lemma_take_field(bits, p + 2, 2, 2);
    assert(bits.subrange(p + 4, p + 4 + bb) =~= bits_of(e.1 as nat, bb));
    crate::lz77::lemma_take_field(bits, p + 4, e.1 as nat, bb);
    assert(bits.subrange(q, q + 8 * u.len()) =~= bytes_bits(u));
    assert(bits.len() == d.len() * 8);
    lemma_uleb_at_boundary(d, q / 8, e.2 as nat, 1);
    assert(byte_align(p + 4 + bb) == q);
    assert(uleb_or(d, p + 4 + bb, 1) == uleb_or(d, q, 1));
    assert(parsed_form(e) =~= Seq::new(e.2 as nat, |i: int| (TAG_RAW, e.1, 0u64)));
}

/// A written entry is read back as its `parsed_form`, ending where it ends.
proof fn lemma_parse_written(d: Seq<u8>, x: Seq<bool>, e: (u8, u64, u64), y: Seq<bool>, bb: nat)
    requires
        bb <= 64,
        packable(e, bb),
        bytes_bits(d) == write_entry(x, e, bb, false) + y,
    ensures
        bp_step(d, x.len() as int, bb, false) == Some(
            (parsed_form(e), write_entry(x, e, bb, false).len() as int),
        ),
{
    if e.0 == TAG_SYM {
        lemma_parse_written_sym(d, x, e, y, bb);
    } else if e.0 == TAG_ZERO_RLE {
        lemma_parse_written_zrle(d, x, e, y, bb);
    } else if e.0 == TAG_RAW_RLE {
        lemma_parse_written_rrle(d, x, e, y, bb);
    } else {
        lemma_parse_written_short(d, x, e, y, bb);
    }
}

/// The entries read from the zero bits that pad a body to a byte boundary.
pub open spec fn pad_tail(n: nat) -> Seq<(u8, u64, u64)> {
    if n % 8 != 0 {
        seq![(TAG_SYM, 0u64, 0u64)]
    } else {
        Seq::empty()
    }
}

proof fn lemma_write_entries_prefix(es: Seq<(u8, u64, u64)>, k: nat, bb: nat)
    requires
        k <= es.len(),
    ensures
        write_entries(es.subrange(0, k as int), bb, false).len() <= write_entries(es, bb, false).len(),
        write_entries(es, bb, false).subrange(0, write_entries(es.subrange(0, k as int), bb, false).len() as int)
            == write_entries(es.subrange(0, k as int), bb, false),
    decreases es.len() - k,
{
    let w = write_entries(es, bb, false);
    if k == es.len() {
        assert(es.subrange(0, k as int) =~= es);
        assert(w.subrange(0, w.len() as int) =~= w);
    } else {
        lemma_write_entries_prefix(es, k + 1, bb);
        let a = es.subrange(0, k as int);
        let b = es.subrange(0, k as int + 1);
        assert(b.drop_last() =~= a);
        let wa = write_entries(a, bb, false);
        let wb = write_entries(b, bb, false);
        lemma_write_entry_prefix(wa, es[k as int], bb);
        assert(w.subrange(0, wa.len() as int) =~= wb.subrange(0, wa.len() as int));
    }
}

/// The padding zeros read as one SYM entry with payload 0 that ends the body.
proof fn lemma_parse_padding(d: Seq<u8>, w: Seq<bool>, bb: nat)
    requires
        bytes_bits(d) == pad_bits(w),
        w.len() % 8 != 0,
    ensures
        parse_bp(d, w.len() as int, bb, false) == seq![(TAG_SYM, 0u64, 0u64)],
{
    reveal(bp_tag);
    reveal(bp_payload);
    vstd::arithmetic::power2::lemma2_to64();
    let bits = bytes_bits(d);
    let p = w.len() as int;
    let l = bits.len() as int;
    lemma_pad_len(w);
    assert(l == d.len() * 8);
    assert(l - 8 < p < l);
    if p + 2 <= l {
        assert(bits.subrange(p, p + 2) =~= bits_of(0, 2));
        crate::lz77::lemma_take_field(bits, p, 0, 2);
    } else {
        assert(bits.subrange(p, l) =~= bits_of(0, 1));
        crate::lz77::lemma_take_field(bits, p, 0, 1);
    }
    let t = take_bits(bits, p, 2);
    assert(t.0 == 0);
    assert(byte_align(t.1) == l);
    let e = d.subrange(d.len() as int, d.len() as int);
    crate::bit_io::lemma_uleb_span_bound(e);
    assert(e.len() == 0);
    assert(uleb_or(d, l, 0) == (0u64, l));
    lemma_parse_bp_step(d, p, bb, false);
    assert(parse_bp(d, l, bb, false) == Seq::<(u8, u64, u64)>::empty());
    assert(seq![(TAG_SYM, 0u64, 0u64)] + Seq::<(u8, u64, u64)>::empty() =~= seq![(TAG_SYM, 0u64, 0u64)]);
}

proof fn lemma_parsed_entries_single(e: (u8, u64, u64))
    ensures
        parsed_entries(seq![e]) == parsed_form(e),
{
    reveal_with_fuel(parsed_entries, 2);
    assert(seq![e].drop_last() =~= Seq::<(u8, u64, u64)>::empty());
    assert(Seq::<(u8, u64, u64)>::empty() + parsed_form(e) =~= parsed_form(e));
}

/// A bit-packed body reads back as the parsed forms of its entries, from the
/// end of the first `k` on.
proof fn lemma_parse_entries(d: Seq<u8>, es: Seq<(u8, u64, u64)>, k: nat, bb: nat)
    requires
        bb <= 64,
        forall|i: int| 0 <= i < es.len() ==> packable(#[trigger] es[i], bb),
        k <= es.len(),
        bytes_bits(d) == pad_bits(write_entries(es, bb, false)),
    ensures
        parse_bp(d, write_entries(es.subrange(0, k as int), bb, false).len() as int, bb, false) == parsed_entries(
            es.subrange(k as int, es.len() as int),
        ) + pad_tail(write_entries(es, bb, false).len()),
    decreases es.len() - k,
{
    let n = es.len() as int;
    let w = write_entries(es, bb, false);
    let wk = write_entries(es.subrange(0, k as int), bb, false);
    lemma_write_entries_prefix(es, k, bb);
    lemma_pad_len(w);
    if k == es.len() {
        assert(es.subrange(0, k as int) =~= es);
        assert(es.subrange(k as int, n) =~= Seq::<(u8, u64, u64)>::empty());
        if w.len() % 8 == 0 {
            assert(pad_bits(w).len() == w.len());
        } else {
            lemma_parse_padding(d, w, bb);
        }
        assert(parsed_entries(Seq::<(u8, u64, u64)>::empty()) + pad_tail(w.len()) =~= pad_tail(w.len()));
    } else {
        let e = es[k as int];
        let wk1 = write_entries(es.subrange(0, k as int + 1), bb, false);
        lemma_write_entries_prefix(es, k + 1, bb);
        assert(es.subrange(0, k as int + 1).drop_last() =~= es.subrange(0, k as int));
        assert(wk1 == write_entry(wk, e, bb, false));
        let pw = pad_bits(w);
        let y = pw.subrange(wk1.len() as int, pw.len() as int);
        assert(pw.subrange(0, wk1.len() as int) =~= wk1) by {
            assert(pw.subrange(0, w.len() as int) == w);
        }
        assert(bytes_bits(d) =~= wk1 + y);
        lemma_parse_written(d, wk, e, y, bb);
        lemma_write_entry_prefix(wk, e, bb);
        lemma_parse_entries(d, es, k + 1, bb);
        lemma_parse_bp_step(d, wk.len() as int, bb, false);
        assert(es.subrange(k as int, n) =~= seq![e] + es.subrange(k as int + 1, n));
        lemma_parsed_entries_add(seq![e], es.subrange(k as int + 1, n));
        lemma_parsed_entries_single(e);
        assert(parsed_form(e) + (parsed_entries(es.subrange(k as int + 1, n)) + pad_tail(w.len())) =~= parsed_entries(
            seq![e],
        ) + parsed_entries(es.subrange(k as int + 1, n)) + pad_tail(w.len()));
    }
}

/// A bit-packed body of valid entries reads back as their parsed forms, then
/// at most one padding entry.
pub proof fn lemma_parse_body(d: Seq<u8>, es: Seq<(u8, u64, u64)>, bb: nat)
    requires
        bb <= 64,
        forall|i: int| 0 <= i < es.len() ==> packable(#[trigger] es[i], bb),
        bytes_bits(d) == pad_bits(write_entries(es, bb, false)),
    ensures
        parse_bp(d, 0, bb, false) == parsed_entries(es) + pad_tail(write_entries(es, bb, false).len()),
{
    lemma_parse_entries(d, es, 0, bb);
    assert(es.subrange(0, 0) =~= Seq::<(u8, u64, u64)>::empty());
    assert(es.subrange(0, es.len() as int) =~= es);
}

// ───────────────────────────── emission of the read-back entries ─────────────────────────────

/// Emission state after the entries `es`, from state `st`.
pub open spec fn emit_from(st: (u64, Seq<u8>), es: Seq<(u8, u64, u64)>, s: Seq<u64>, p: EmitParams) -> (u64, Seq<u8>)
    decreases es.len(),
{
    if es.len() == 0 {
        st
    } else {
        emit_entry(emit_from(st, es.drop_last(), s, p), es.last(), s, p)
    }
}

/// Phase A symbols as entries.
pub open spec fn sym_entries(syms: Seq<(u8, u64)>) -> Seq<(u8, u64, u64)> {
    Seq::new(syms.len(), |i: int| (syms[i].0, syms[i].1, 0u64))
}

proof fn lemma_emit_all_from(es: Seq<(u8, u64, u64)>, s: Seq<u64>, p: EmitParams)
    ensures
        emit_all(es, s, p) == emit_from((0u64, Seq::<u8>::empty()), es, s, p),
    decreases es.len(),
{
    if es.len() > 0 {
        lemma_emit_all_from(es.drop_last(), s, p);
    }
}

proof fn lemma_emit_from_add(st: (u64, Seq<u8>), a: Seq<(u8, u64, u64)>, b: Seq<(u8, u64, u64)>, s: Seq<u64>, p: EmitParams)
    ensures
        emit_from(st, a + b, s, p) == emit_from(emit_from(st, a, s, p), b, s, p),
    decreases b.len(),
{
    if b.len() == 0 {
        assert(a + b =~= a);
    } else {
        assert((a + b).drop_last() =~= a + b.drop_last());
        lemma_emit_from_add(st, a, b.drop_last(), s, p);
    }
}

proof fn lemma_sym_entries_add(a: Seq<(u8, u64)>, b: Seq<(u8, u64)>)
    ensures
        sym_entries(a + b) == sym_entries(a) + sym_entries(b),
{
    assert(sym_entries(a + b) =~= sym_entries(a) + sym_entries(b));
}

/// A run of `c` ZERO entries emits `c` copies of one block and keeps (with
/// delta) or zeroes the previous value.
proof fn lemma_zero_run(st: (u64, Seq<u8>), c: nat, s: Seq<u64>, p: EmitParams)
    ensures
        ({
            let n = if p.delta { st.0 } else { 0u64 };
            emit_from(st, Seq::new(c, |i: int| (TAG_ZERO, 0u64, 0u64)), s, p) == (
                if c == 0 { st.0 } else { n },
                st.1 + repeat_bytes(be_tail(n, p.bytes as nat), c),
            )
        }),
    decreases c,
{
    let z = Seq::new(c, |i: int| (TAG_ZERO, 0u64, 0u64));
    if c == 0 {
        assert(st.1 + repeat_bytes(be_tail(0, p.bytes as nat), 0) =~= st.1);
        assert(st.1 + Seq::<u8>::empty() =~= st.1);
    } else {
        lemma_zero_run(st, (c - 1) as nat, s, p);
        assert(z.drop_last() =~= Seq::new((c - 1) as nat, |i: int| (TAG_ZERO, 0u64, 0u64)));
        let n = if p.delta { st.0 } else { 0u64 };
        assert(st.1 + repeat_bytes(be_tail(n, p.bytes as nat), (c - 1) as nat) + be_tail(n, p.bytes as nat) =~= st.1
            + repeat_bytes(be_tail(n, p.bytes as nat), c));
    }
}

/// One Phase B entry emits, once read back, what its block symbols emit.
proof fn lemma_emit_form(st: (u64, Seq<u8>), e: (u8, u64, u64), mv: u64, s: Seq<u64>, p: EmitParams)
    requires
        e.0 <= TAG_RAW_RLE,
        e.0 <= TAG_ZERO ==> e.2 == 0,
        e.0 == TAG_ZERO ==> e.1 == 0,
        e.0 == TAG_ZERO_RLE ==> e.2 == 0,
        e.0 == TAG_MFS ==> p.mfs_val == sym_payload_value(mv, s, p.odd_sep),
    ensures
        emit_from(st, parsed_form(e), s, p) == emit_from(st, sym_entries(entry_expand(e, mv)), s, p),
{
    reveal_with_fuel(emit_from, 2);
    if e.0 == TAG_ZERO_RLE {
        assert(sym_entries(entry_expand(e, mv)) =~= Seq::new(e.1 as nat, |i: int| (TAG_ZERO, 0u64, 0u64)));
        lemma_zero_run(st, e.1 as nat, s, p);
        assert(seq![(TAG_ZERO_RLE, 0u64, e.1)].drop_last() =~= Seq::<(u8, u64, u64)>::empty());
    } else if e.0 == TAG_RAW_RLE {
        assert(sym_entries(entry_expand(e, mv)) =~= parsed_form(e));
    } else if e.0 == TAG_MFS {
        assert(sym_entries(entry_expand(e, mv)) =~= seq![(TAG_SYM, mv, 0u64)]);
        assert(seq![(TAG_SYM, mv, 0u64)].drop_last() =~= Seq::<(u8, u64, u64)>::empty());
        assert(seq![e].drop_last() =~= Seq::<(u8, u64, u64)>::empty());
    } else {
        assert(sym_entries(entry_expand(e, mv)) =~= seq![e]);
    }
}

/// Emitting the read-back entries of a Phase B stream is emitting its block
/// symbols.
proof fn lemma_emit_parsed(es: Seq<(u8, u64, u64)>, mv: u64, s: Seq<u64>, p: EmitParams)
    requires
        forall|i: int| 0 <= i < es.len() ==> {
            let e = #[trigger] es[i];
            &&& e.0 <= TAG_RAW_RLE
            &&& e.0 <= TAG_ZERO ==> e.2 == 0
            &&& e.0 == TAG_ZERO ==> e.1 == 0
            &&& e.0 == TAG_ZERO_RLE ==> e.2 == 0
            &&& e.0 == TAG_MFS ==> p.mfs_val == sym_payload_value(mv, s, p.odd_sep)
        },
    ensures
        emit_all(parsed_entries(es), s, p) == emit_all(sym_entries(expand(es, mv)), s, p),
    decreases es.len(),
{
    lemma_emit_all_from(parsed_entries(es), s, p);
    lemma_emit_all_from(sym_entries(expand(es, mv)), s, p);
    if es.len() == 0 {
        assert(sym_entries(expand(es, mv)) =~= Seq::<(u8, u64, u64)>::empty());
    } else {
        let d = es.drop_last();
        let e = es.last();
        assert forall|i: int| 0 <= i < d.len() implies {
            let f = #[trigger] d[i];
            &&& f.0 <= TAG_RAW_RLE
            &&& f.0 <= TAG_ZERO ==> f.2 == 0
            &&& f.0 == TAG_ZERO ==> f.1 == 0
            &&& f.0 == TAG_ZERO_RLE ==> f.2 == 0
            &&& f.0 == TAG_MFS ==> p.mfs_val == sym_payload_value(mv, s, p.odd_sep)
        } by {
            assert(d[i] == es[i]);
        }
        lemma_emit_parsed(d, mv, s, p);
        lemma_emit_all_from(parsed_entries(d), s, p);
        lemma_emit_all_from(sym_entries(expand(d, mv)), s, p);
        let z = (0u64, Seq::<u8>::empty());
        lemma_emit_from_add(z, parsed_entries(d), parsed_form(e), s, p);
        lemma_sym_entries_add(expand(d, mv), entry_expand(e, mv));
        lemma_emit_from_add(z, sym_entries(expand(d, mv)), sym_entries(entry_expand(e, mv)), s, p);
        assert(es[es.len() - 1] == e);
        lemma_emit_form(emit_from(z, parsed_entries(d), s, p), e, mv, s, p);
    }
}

// ───────────────────────────── block bytes ─────────────────────────────

/// Byte `j` counted from the end of a big-endian number is the `j`-th base-256
/// digit of its value.
proof fn lemma_be_digit(b: Seq<u8>, j: nat)
    requires
        j < b.len(),
    ensures
        (be_value(b) / vstd::arithmetic::power2::pow2(8 * j)) % 256 == b[b.len() - 1 - j],
    decreases j,
{
    vstd::arithmetic::power2::lemma2_to64();
    let init = b.drop_last();
    let a = be_value(init) as int;
    let l = b.last() as int;
    let v = be_value(b) as int;
    assert(v == 256 * a + l);
    if j == 0 {
        vstd::arithmetic::div_mod::lemma_mod_multiples_vanish(a, l, 256);
        vstd::arithmetic::div_mod::lemma_small_mod(l as nat, 256);
        assert(v / 1 == v);
    } else {
        let pp = vstd::arithmetic::power2::pow2(8 * (j - 1) as nat) as int;
        lemma_be_digit(init, (j - 1) as nat);
        vstd::arithmetic::power2::lemma_pow2_adds(8, 8 * (j - 1) as nat);
        vstd::arithmetic::power2::lemma_pow2_pos(8 * (j - 1) as nat);
        assert(8 + 8 * (j - 1) == 8 * j);
        assert(vstd::arithmetic::power2::pow2(8 * j) == 256 * pp);
        vstd::arithmetic::div_mod::lemma_div_denominator(v, 256, pp);
        vstd::arithmetic::div_mod::lemma_div_multiples_vanish_fancy(a, l, 256);
        assert(v / 256 == a);
        assert(v / (256 * pp) == a / pp);
        assert(init[init.len() - 1 - (j - 1)] == b[b.len() - 1 - j]);
    }
}

/// The big-endian bytes of a big-endian value are the bytes.
proof fn lemma_be_tail_value(b: Seq<u8>)
    requires
        b.len() <= 8,
    ensures
        be_value(b) < 0x1_0000_0000_0000_0000,
        be_tail(be_value(b) as u64, b.len()) == b,
{
    vstd::arithmetic::power2::lemma2_to64();
    vstd::arithmetic::power2::lemma2_to64_rest();
    lemma_be_bound(b);
    if b.len() < 8 {
        vstd::arithmetic::power2::lemma_pow2_strictly_increases(8 * b.len(), 64);
    }
    let n = be_value(b) as u64;
    let k = b.len();
    assert forall|t: int| 0 <= t < k implies #[trigger] be_tail(n, k)[t] == b[t] by {
        let j = (k - 1 - t) as nat;
        let sh = (8 * j) as u64;
        vstd::bits::lemma_u64_shr_is_div(n, sh);
        let x = n >> sh;
        assert(x as u8 == (x % 256) as u8) by (bit_vector);
        lemma_be_digit(b, j);
    }
    assert(be_tail(n, k) =~= b);
}

/// The first `m` bytes of `d`, zero past its end.
pub open spec fn padded_prefix(d: Seq<u8>, m: nat) -> Seq<u8> {
    Seq::new(m, |j: int| byte_or0(d, j))
}

/// The bytes of block `i` extend the bytes of the blocks before it.
proof fn lemma_block_bytes(d: Seq<u8>, k: nat, i: nat)
    requires
        1 <= k <= 8,
    ensures
        block_value(d, k, i as int) < 0x1_0000_0000_0000_0000,
        padded_prefix(d, i * k) + be_tail(block_value(d, k, i as int) as u64, k) == padded_prefix(d, (i + 1) * k),
{
    let blk = Seq::new(k, |t: int| byte_or0(d, i * k + t));
    lemma_be_tail_value(blk);
    assert((i + 1) * k == i * k + k) by (nonlinear_arith);
    assert(padded_prefix(d, i * k) + blk =~= padded_prefix(d, (i + 1) * k));
}

/// Two values below `m` whose difference is 0 modulo `m` are equal.
proof fn lemma_mod_diff_zero(a: int, b: int, m: int)
    requires
        0 <= a < m,
        0 <= b < m,
        (a - b) % m == 0,
    ensures
        a == b,
{
    vstd::arithmetic::div_mod::lemma_fundamental_div_mod(a - b, m);
    let q = (a - b) / m;
    assert(a - b == m * q);
    assert(q == 0) by (nonlinear_arith)
        requires
            a - b == m * q,
            -m < a - b < m,
            m > 0,
    ;
}

/// Decoding a delta-coded block value restores the block value.
proof fn lemma_delta_restore(prev: u64, x: u64, bv: nat, k: nat)
    requires
        1 <= k <= 7,
        prev < vstd::arithmetic::power2::pow2(8 * k),
        bv < vstd::arithmetic::power2::pow2(8 * k),
        x as int == (bv - prev) % (vstd::arithmetic::power2::pow2(8 * k) as int),
    ensures
        add_wrap(prev, x) & (vstd::bits::low_bits_mask(8 * k) as u64) == bv,
{
    let m = vstd::arithmetic::power2::pow2(8 * k) as int;
    vstd::arithmetic::power2::lemma_pow2_strictly_increases(8 * k, 60);
    vstd::arithmetic::power2::lemma2_to64_rest();
    vstd::arithmetic::power2::lemma_pow2_pos(8 * k);
    vstd::arithmetic::div_mod::lemma_mod_bound(bv - prev, m);
    assert(prev + x < 0x1_0000_0000_0000_0000);
    let w = add_wrap(prev, x);
    assert(w == prev + x);
    vstd::bits::lemma_u64_low_bits_mask_is_mod(w, 8 * k);
    vstd::arithmetic::div_mod::lemma_add_mod_noop(prev as int, bv - prev, m);
    vstd::arithmetic::div_mod::lemma_small_mod(prev as nat, m as nat);
    vstd::arithmetic::div_mod::lemma_small_mod(bv, m as nat);
    assert((prev as int) + (bv - prev) == bv);
}

/// Emitting Phase A symbols that name their blocks' coded values gives the
/// blocks' bytes, and leaves the last block value as the previous one.
#[verifier::rlimit(40)]
#[verifier::spinoff_prover]
proof fn lemma_symbols_emit(d: Seq<u8>, k: nat, delta: bool, syms: Seq<(u8, u64)>, s: Seq<u64>, p: EmitParams, i: nat)
    requires
        1 <= k <= 7,
        p.bytes == k,
        p.mask == vstd::bits::low_bits_mask(8 * k) as u64,
        p.delta == delta,
        !p.odd_sep,
        i <= syms.len(),
        forall|j: int|
            0 <= j < syms.len() ==> sym_fits(#[trigger] syms[j], block_vals(d, k, 8 * k, delta, syms.len())[j])
                && sym_decodes(syms[j], block_vals(d, k, 8 * k, delta, syms.len())[j], s),
    ensures
        emit_all(sym_entries(syms.take(i as int)), s, p) == (
            if i == 0 { 0u64 } else { block_value(d, k, i - 1) as u64 },
            padded_prefix(d, i * k),
        ),
    decreases i,
{
    vstd::arithmetic::power2::lemma2_to64();
    if i == 0 {
        assert(sym_entries(syms.take(0)) =~= Seq::<(u8, u64, u64)>::empty());
        assert(padded_prefix(d, 0) =~= Seq::<u8>::empty());
    } else {
        let j = (i - 1) as nat;
        lemma_symbols_emit(d, k, delta, syms, s, p, j);
        let es = sym_entries(syms.take(i as int));
        assert(es.drop_last() =~= sym_entries(syms.take(j as int)));
        let sym = syms[j as int];
        assert(es.last() == (sym.0, sym.1, 0u64));
        let vals = block_vals(d, k, 8 * k, delta, syms.len());
        assert(sym_fits(sym, vals[j as int]) && sym_decodes(sym, vals[j as int], s));
        let blk = Seq::new(k, |t: int| byte_or0(d, j * k + t));
        lemma_be_bound(blk);
        lemma_block_bytes(d, k, j);
        let bv = block_value(d, k, j as int);
        let prev: u64 = if j == 0 { 0 } else { block_value(d, k, j - 1) as u64 };
        if j > 0 {
            let pblk = Seq::new(k, |t: int| byte_or0(d, (j - 1) * k + t));
            lemma_be_bound(pblk);
            lemma_block_bytes(d, k, (j - 1) as nat);
        }
        vstd::arithmetic::power2::lemma_pow2_strictly_increases(8 * k, 64);
        vstd::arithmetic::power2::lemma2_to64_rest();
        vstd::arithmetic::power2::lemma_pow2_pos(8 * k);
        let m = vstd::arithmetic::power2::pow2(8 * k) as int;
        let pv: nat = if j == 0 { 0 } else { block_value(d, k, j - 1) };
        assert(pv < m);
        assert(prev == pv);
        assert(bv == be_value(blk));
        assert(bv < m);
        let v = vals[j as int];
        if delta {
            vstd::arithmetic::div_mod::lemma_mod_bound(bv - pv, m);
            assert(v == block_val_at(d, k, 8 * k, true, j as int));
            assert(v as int == (bv - prev) % m);
            if sym.0 == TAG_ZERO {
                lemma_mod_diff_zero(bv as int, prev as int, vstd::arithmetic::power2::pow2(8 * k) as int);
            } else {
                lemma_delta_restore(prev, v, bv, k);
            }
        }
    }
}

// ───────────────────────────── header read-back ─────────────────────────────

/// A ULEB128 field written at `off` of `a` reads back as its value and ends
/// after its bytes.
proof fn lemma_uleb_piece(a: Seq<u8>, off: int, x: u64)
    requires
        0 <= off,
        off + uleb_bytes(x as nat).len() <= a.len(),
        a.subrange(off, off + uleb_bytes(x as nat).len()) == uleb_bytes(x as nat),
    ensures
        uleb_ok_at(a, off),
        uleb_field(a, off) == (x as nat, off + uleb_bytes(x as nat).len()),
{
    let n = uleb_bytes(x as nat).len() as int;
    let rest = a.subrange(off + n, a.len() as int);
    assert(a.subrange(off, a.len() as int) =~= uleb_bytes(x as nat) + rest);
    crate::bit_io::law_uleb_roundtrip(x, rest);
}

/// The header an encoder writes reads back: valid, with its data length,
/// and with the body right after it and the MFS block value it names.
proof fn lemma_header_read(out: Seq<u8>, flags: u8, bb: u8, len: u64, nb: u64, used: bool, mv: u64, s: Seq<u64>)
    requires
        block_bits_ok(bb),
        used == (flags & 4u8 == 4u8),
        flags & 8u8 != 8u8,
        ({
            let hdr = header_bytes(flags, bb, len as nat, nb as nat) + mfs_field(used, mv, false);
            out.len() >= hdr.len() && out.subrange(0, hdr.len() as int) == hdr
        }),
    ensures
        header_valid(out),
        out[5] == flags,
        out[6] == bb,
        header_data_len(out) == len,
        header_tail(out, s) == Some((
            (header_bytes(flags, bb, len as nat, nb as nat) + mfs_field(used, mv, false)).len() as int,
            if used { sym_payload_value(mv, s, false) } else { 0u64 },
        )),
{
    let p0 = magic_seq() + seq![SSP5_VERSION, flags, bb];
    let u1 = uleb_bytes(1);
    let ul = uleb_bytes(len as nat);
    let un = uleb_bytes(nb as nat);
    let mf = mfs_field(used, mv, false);
    let hdr = header_bytes(flags, bb, len as nat, nb as nat) + mf;
    assert(u1 =~= seq![1u8]);
    assert(hdr =~= p0 + u1 + u1 + ul + un + mf);
    let q = p0 + u1 + u1;
    let qa = q + ul;
    let qb = qa + un;
    assert(hdr =~= qb + mf);
    let o4 = 9 + ul.len();
    let e = o4 + un.len();
    assert(hdr.len() == e + mf.len());
    assert forall|i: int| 0 <= i < hdr.len() implies out[i] == #[trigger] hdr[i] by {
        assert(out.subrange(0, hdr.len() as int)[i] == out[i]);
    }
    assert forall|i: int| 0 <= i < 7 implies #[trigger] hdr[i] == p0[i] by {
        assert(hdr[i] == qb[i]);
        assert(qb[i] == qa[i]);
        assert(qa[i] == q[i]);
        assert(q[i] == (p0 + u1)[i]);
    }
    assert(hdr[5] == p0[5] && hdr[4] == p0[4] && hdr[6] == p0[6]);
    assert(p0[4] == SSP5_VERSION && p0[5] == flags && p0[6] == bb);
    assert(out[6] == bb && out[4] == SSP5_VERSION && out[5] == flags);
    assert(out.subrange(0, 4) =~= magic_seq());
    assert(hdr[7] == 1u8 && hdr[8] == 1u8);
    assert(out.subrange(7, 8) =~= seq![1u8]);
    lemma_uleb_piece(out, 7, 1);
    assert(out.subrange(8, 9) =~= seq![1u8]);
    lemma_uleb_piece(out, 8, 1);
    assert forall|t: int| 0 <= t < ul.len() implies out.subrange(9, o4 as int)[t] == ul[t] by {
        assert(hdr[9 + t] == qb[9 + t]);
        assert(qb[9 + t] == qa[9 + t]);
        assert(qa[9 + t] == ul[t]);
    }
    assert(out.subrange(9, o4 as int) =~= ul);
    lemma_uleb_piece(out, 9, len);
    assert forall|t: int| 0 <= t < un.len() implies out.subrange(o4 as int, e as int)[t] == un[t] by {
        assert(hdr[o4 + t] == qb[o4 + t]);
        assert(qb[o4 + t] == un[t]);
    }
    assert(out.subrange(o4 as int, e as int) =~= un);
    lemma_uleb_piece(out, o4 as int, nb);
    assert(header_fields_ok(out));
    assert(header_fields_end(out) == e);
    if used {
        assert(mf == uleb_bytes(mv as nat));
        assert forall|t: int| 0 <= t < mf.len() implies out.subrange(e as int, (e + mf.len()) as int)[t] == mf[t] by {
            assert(hdr[e + t] == mf[t]);
        }
        assert(out.subrange(e as int, (e + mf.len()) as int) =~= mf);
        lemma_uleb_piece(out, e as int, mv);
        vstd::arithmetic::power2::lemma2_to64_rest();
    } else {
        assert(mf =~= Seq::<u8>::empty());
    }
}

/// Each block symbol of entry `i` stands at some place of the expansion.
proof fn lemma_expand_member(es: Seq<(u8, u64, u64)>, mv: u64, i: int, t: int) -> (j: int)
    requires
        0 <= i < es.len(),
        0 <= t < entry_expand(es[i], mv).len(),
    ensures
        0 <= j < expand(es, mv).len(),
        expand(es, mv)[j] == entry_expand(es[i], mv)[t],
    decreases es.len(),
{
    let init = es.drop_last();
    if i == es.len() - 1 {
        expand(init, mv).len() + t
    } else {
        assert(init[i] == es[i]);
        lemma_expand_member(init, mv, i, t)
    }
}

/// Coded block values stay below `2^bits`.
proof fn lemma_block_val_bound(d: Seq<u8>, k: nat, delta: bool, i: int)
    requires
        1 <= k <= 7,
    ensures
        block_val_at(d, k, 8 * k, delta, i) < vstd::arithmetic::power2::pow2(8 * k),
{
    let m = vstd::arithmetic::power2::pow2(8 * k);
    vstd::arithmetic::power2::lemma_pow2_strictly_increases(8 * k, 64);
    vstd::arithmetic::power2::lemma2_to64_rest();
    vstd::arithmetic::power2::lemma_pow2_pos(8 * k);
    let blk = Seq::new(k, |t: int| byte_or0(d, i * k + t));
    lemma_be_bound(blk);
    if delta {
        let n = block_value(d, k, i);
        let p = if i == 0 { 0 } else { block_value(d, k, i - 1) };
        vstd::arithmetic::div_mod::lemma_mod_bound(n - p, m as int);
    }
}

/// The entries of an encoded archive have bit-packed forms that read back.
proof fn lemma_entries_packable(
    d: Seq<u8>,
    k: nat,
    delta: bool,
    syms: Seq<(u8, u64)>,
    es: Seq<(u8, u64, u64)>,
    m: Option<u64>,
    mv: u64,
)
    requires
        1 <= k <= 7,
        forall|i: int| 0 <= i < syms.len() ==> sym_fits(#[trigger] syms[i], block_vals(d, k, 8 * k, delta, syms.len())[i]),
        expand(es, mv) == syms,
        forall|i: int| 0 <= i < es.len() ==> entry_ok(#[trigger] es[i], m),
    ensures
        forall|i: int| 0 <= i < es.len() ==> packable(#[trigger] es[i], 8 * k),
{
    assert forall|i: int| 0 <= i < es.len() implies packable(#[trigger] es[i], 8 * k) by {
        let e = es[i];
        assert(entry_ok(e, m));
        if e.0 == TAG_RAW || e.0 == TAG_RAW_RLE {
            assert(entry_expand(e, mv)[0] == (TAG_RAW, e.1));
            let j = lemma_expand_member(es, mv, i, 0);
            assert(syms[j] == (TAG_RAW, e.1));
            assert(sym_fits(syms[j], block_vals(d, k, 8 * k, delta, syms.len())[j]));
            lemma_block_val_bound(d, k, delta, j);
        }
    }
}

/// The padding entry, if any, only appends bytes.
proof fn lemma_emit_pad(st: (u64, Seq<u8>), n: nat, s: Seq<u64>, p: EmitParams)
    ensures
        emit_from(st, pad_tail(n), s, p).1.len() >= st.1.len(),
        emit_from(st, pad_tail(n), s, p).1.subrange(0, st.1.len() as int) == st.1,
{
    reveal_with_fuel(emit_from, 2);
    if n % 8 != 0 {
        assert(pad_tail(n).drop_last() =~= Seq::<(u8, u64, u64)>::empty());
        let r = emit_from(st, pad_tail(n), s, p).1;
        assert(r.subrange(0, st.1.len() as int) =~= st.1);
    } else {
        assert(pad_tail(n) =~= Seq::<(u8, u64, u64)>::empty());
        assert(st.1.subrange(0, st.1.len() as int) =~= st.1);
    }
}

/// Bit-packed round trip: an archive that `encode` writes with a bit-packed
/// body (blocks of one to three bytes, super-symbols read back exactly) has a
/// header the decoder accepts, and its body decodes to the original data.
pub proof fn law_ssp_bitpacked_roundtrip(out: Seq<u8>, d: Seq<u8>, s: Seq<u64>, bb: nat, delta: bool)
    requires
        8 <= bb < 32,
        bb % 8 == 0,
        1 <= d.len() <= u32::MAX,
        packed_syms_exact(bb, s),
        bitpacked_flags(out[5]),
        exists|syms: Seq<(u8, u64)>, es: Seq<(u8, u64, u64)>, m: Option<u64>|
            #[trigger] encoded_from(out, d, bb, delta, syms, es, m) && (packed_syms_exact(bb, s) ==> syms_decode(
                syms,
                d,
                bb,
                delta,
                s,
            )),
    ensures
        header_valid(out),
        header_tail(out, s) is Some,
        bitpacked_decoded(out, s) == d,
{
    let (syms, es, m) = choose|syms: Seq<(u8, u64)>, es: Seq<(u8, u64, u64)>, m: Option<u64>|
        #[trigger] encoded_from(out, d, bb, delta, syms, es, m) && (packed_syms_exact(bb, s) ==> syms_decode(
            syms,
            d,
            bb,
            delta,
            s,
        ));
    let k = bb / 8;
    assert(bb == 8 * k);
    let nb = blocks_for(d.len(), k);
    assert(nb <= d.len() && nb * k >= d.len()) by (nonlinear_arith)
        requires
            nb == (d.len() + k - 1) as nat / k,
            1 <= k <= 3,
            d.len() >= 1,
    ;
    let flags = out[5];
    let mv = if m is Some { m->Some_0 } else { 0 };
    let used = flags & 4u8 == 4u8;
    let hdr = header_bytes(flags, bb as u8, d.len(), nb) + mfs_field(used, mv, false);
    assert(encoded_from(out, d, bb, delta, syms, es, m));
    assert(syms_decode(syms, d, bb, delta, s));
    assert((d.len() as u64) as nat == d.len() && (nb as u64) as nat == nb);
    lemma_header_read(out, flags, bb as u8, d.len() as u64, nb as u64, used, mv, s);
    let mfs_val = if used { sym_payload_value(mv, s, false) } else { 0u64 };
    assert(header_tail(out, s) == Some((hdr.len() as int, mfs_val)));
    let body = out.subrange(hdr.len() as int, out.len() as int);
    let vals = block_vals(d, k, 8 * k, delta, syms.len());
    assert(forall|i: int| 0 <= i < syms.len() ==> sym_fits(#[trigger] syms[i], vals[i]));
    lemma_entries_packable(d, k, delta, syms, es, m, mv);
    let w = write_entries(es, bb, false);
    lemma_parse_body(body, es, bb);
    let pe = parsed_entries(es);
    assert(parse_bp(body, 0, bb, false) == pe + pad_tail(w.len()));
    let p = decode_params(out, mfs_val);
    assert(p.bytes == k && p.mask == vstd::bits::low_bits_mask(8 * k) as u64 && p.delta == delta && !p.odd_sep
        && p.mfs_val == mfs_val);
    assert forall|i: int| 0 <= i < es.len() implies {
        let e = #[trigger] es[i];
        &&& e.0 <= TAG_RAW_RLE
        &&& e.0 <= TAG_ZERO ==> e.2 == 0
        &&& e.0 == TAG_ZERO ==> e.1 == 0
        &&& e.0 == TAG_ZERO_RLE ==> e.2 == 0
        &&& e.0 == TAG_MFS ==> p.mfs_val == sym_payload_value(mv, s, p.odd_sep)
    } by {
        assert(entry_ok(es[i], m));
        if es[i].0 == TAG_MFS {
            assert(used);
        }
    }
    lemma_emit_parsed(es, mv, s, p);
    assert(forall|j: int|
        0 <= j < syms.len() ==> sym_fits(#[trigger] syms[j], vals[j]) && sym_decodes(syms[j], vals[j], s));
    lemma_symbols_emit(d, k, delta, syms, s, p, nb);
    assert(syms.take(nb as int) =~= syms);
    let z = (0u64, Seq::<u8>::empty());
    lemma_emit_all_from(pe + pad_tail(w.len()), s, p);
    lemma_emit_from_add(z, pe, pad_tail(w.len()), s, p);
    lemma_emit_all_from(pe, s, p);
    lemma_emit_pad(emit_all(pe, s, p), w.len(), s, p);
    let x = emit_all(pe + pad_tail(w.len()), s, p).1;
    let pre = padded_prefix(d, nb * k);
    assert(emit_all(pe, s, p).1 == pre);
    assert(x.len() >= d.len());
    assert forall|j: int| 0 <= j < d.len() implies x[j] == d[j] by {
        assert(x.subrange(0, pre.len() as int)[j] == x[j]);
        assert(pre[j] == byte_or0(d, j));
    }
    assert(x.subrange(0, d.len() as int) =~= d);
    if x.len() == d.len() {
        assert(x =~= d);
    }
    assert(bitpacked_decoded(out, s) == take_upto(x, d.len()));
}

/// Round trip of short inputs: an archive `encode` writes for 1 to 255
/// bytes (blocks of one to three bytes, super-symbols read back exactly) has
/// a bit-packed body, a header the decoder accepts, and decodes to the data.
pub proof fn law_ssp_short_roundtrip(out: Seq<u8>, d: Seq<u8>, s: Seq<u64>, bb: nat, delta: bool)
    requires
        8 <= bb < 32,
        bb % 8 == 0,
        1 <= d.len() < 256,
        packed_syms_exact(bb, s),
        ssp_encoded(out, d, bb, delta, s),
    ensures
        bitpacked_flags(out[5]),
        header_valid(out),
        header_tail(out, s) is Some,
        bitpacked_decoded(out, s) == d,
{
    let (syms, es, m) = choose|syms: Seq<(u8, u64)>, es: Seq<(u8, u64, u64)>, m: Option<u64>|
        #[trigger] encoded_from(out, d, bb, delta, syms, es, m) && (packed_syms_exact(bb, s) ==> syms_decode(
            syms,
            d,
            bb,
            delta,
            s,
        ));
    assert(encoded_from(out, d, bb, delta, syms, es, m));
    law_ssp_bitpacked_roundtrip(out, d, s, bb, delta);
}

/// The SSP encoder keeps the shortest body: data under 256 bytes keep the
/// bit-packed body; from 256 bytes on, a range-coded body shorter than the
/// bit-packed one and no longer than the Huffman one is used, and so is a
/// Huffman body (whose symbols fit a byte) shorter than both others; a coded
/// body is only ever used when it is shorter than the bit-packed one and no
/// longer than the other coded body.  The range-coded body weighed is a
/// range-coded layout of the archive's entries, present whenever every tag
/// is known.
pub proof fn law_ssp_shortest_body(out: Seq<u8>, d: Seq<u8>, bb: nat, delta: bool, s: Seq<u64>)
    requires
        ssp_encoded(out, d, bb, delta, s),
        d.len() >= 1,
    ensures
        exists|es: Seq<(u8, u64, u64)>, rc: Seq<u8>, hf: Seq<u8>, hl: nat, fit: bool|
            #[trigger] coded_candidates(out, d, bb, es, rc, hf, hl, fit) && {
                let bp = bp_body_len(es, bb, bb >= 32);
                let clean = clean_entries(es);
                &&& rc.len() > 0 ==> rc_layout_of(rc, clean, bb, bb >= 32)
                &&& clean.len() > 0 && rc_tags_known(clean) ==> rc.len() > 0
                &&& d.len() < 256 ==> out[5] & 64u8 != 64u8 && out[5] & 128u8 != 128u8
                &&& d.len() >= 256 && 0 < rc.len() < bp && rc.len() <= hl ==> out[5] & 128u8 == 128u8
                &&& d.len() >= 256 && hf.len() > 0 && 0 < hl < bp && hl < rc.len() && fit ==> out[5] & 64u8
                    == 64u8
                &&& out[5] & 128u8 == 128u8 ==> rc.len() < bp && rc.len() <= hl
                &&& out[5] & 64u8 == 64u8 ==> hl < bp && hl < rc.len() && hf.len() == hl
            },
{
    let (syms, es, m) = choose|syms: Seq<(u8, u64)>, es: Seq<(u8, u64, u64)>, m: Option<u64>|
        #[trigger] encoded_from(out, d, bb, delta, syms, es, m) && (packed_syms_exact(bb, s) ==> syms_decode(
            syms,
            d,
            bb,
            delta,
            s,
        ));
    assert(encoded_from(out, d, bb, delta, syms, es, m));
    let (rc, hf, hl, fit) = choose|rc: Seq<u8>, hf: Seq<u8>, hl: nat, fit: bool|
        #[trigger] coded_candidates(out, d, bb, es, rc, hf, hl, fit);
    assert(coded_candidates(out, d, bb, es, rc, hf, hl, fit));
}

} // verus!
