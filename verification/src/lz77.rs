//! LZ77 with hash-chain match finding and lazy matching.
//!
//! Tokens are literals or back-references (offset, length) with lengths of
//! 3 to 130 bytes; the window is 256 KiB and each hash chain keeps its latest
//! 512 positions.
use crate::bit_io::{bits_of, bits_value, bytes_bits, lemma_bits_of_small, lemma_bytes_bits_byte, lemma_ones_run, lemma_uleb_len, lemma_uleb_roundtrip, ones_run, pad_bits, reader_len_ok, rice_bits, uleb_bytes, uleb_complete, uleb_safe, uleb_span, uleb_value, zero_bits, BitReader, BitWriter};
use vstd::arithmetic::div_mod::{lemma_fundamental_div_mod, lemma_small_mod};
use vstd::arithmetic::power2::{lemma2_to64, lemma_pow2_pos};
use crate::le::le32_at;
use std::collections::HashMap;
use vstd::arithmetic::power2::pow2;
use vstd::prelude::*;

verus! {

/// An LZ77 token.
#[derive(Debug, Clone, PartialEq, Eq, Structural)]
pub enum Token {
    Literal(u8),
    /// Copy `length` bytes from `offset` positions back.
    Match { offset: u32, length: u8 },
}

// ───────────────────────────── decoding model ─────────────────────────────

/// `out` extended by `k` bytes copied from position `base` on (the copy may
/// overlap the bytes it appends).
pub open spec fn copy_from(out: Seq<u8>, base: int, k: nat) -> Seq<u8>
    decreases k,
{
    if k == 0 {
        out
    } else {
        let prev = copy_from(out, base, (k - 1) as nat);
        prev.push(prev[base + k - 1])
    }
}

/// `out` after one token: a literal is appended; a match copies `length`
/// bytes from `offset` back (from the start when `offset` exceeds the output),
/// and does nothing when `offset` is 0 or the output is empty.
pub open spec fn apply_token(out: Seq<u8>, t: Token) -> Seq<u8> {
    match t {
        Token::Literal(b) => out.push(b),
        Token::Match { offset, length } => {
            if offset == 0 || out.len() == 0 {
                out
            } else {
                let base = if offset <= out.len() { out.len() - offset } else { 0 };
                copy_from(out, base, length as nat)
            }
        },
    }
}

/// Bytes that a token sequence decodes to.
pub open spec fn lz_decode(tokens: Seq<Token>) -> Seq<u8>
    decreases tokens.len(),
{
    if tokens.len() == 0 {
        Seq::empty()
    } else {
        apply_token(lz_decode(tokens.drop_last()), tokens.last())
    }
}

proof fn lemma_copy_from_len(out: Seq<u8>, base: int, k: nat)
    ensures
        copy_from(out, base, k).len() == out.len() + k,
        copy_from(out, base, k).subrange(0, out.len() as int) == out,
    decreases k,
{
    if k > 0 {
        lemma_copy_from_len(out, base, (k - 1) as nat);
        let prev = copy_from(out, base, (k - 1) as nat);
        assert(prev.push(prev[base + k - 1]).subrange(0, out.len() as int) =~= prev.subrange(
            0,
            out.len() as int,
        ));
    }
}

/// Decode LZ77 tokens.
pub fn decode(tokens: &[Token]) -> (out: Vec<u8>)
    ensures
        out@ == lz_decode(tokens@),
{
    let mut out: Vec<u8> = Vec::new();
    let mut t: usize = 0;
    assert(tokens@.subrange(0, 0) =~= Seq::<Token>::empty());
    while t < tokens.len()
        invariant
            t <= tokens@.len(),
            out@ == lz_decode(tokens@.subrange(0, t as int)),
        decreases tokens@.len() - t,
    {
        let ghost before = out@;
        match tokens[t] {
            Token::Literal(b) => out.push(b),
            Token::Match { offset, length } => {
                let base = if (offset as usize) <= out.len() {
                    out.len() - offset as usize
                } else {
                    0
                };
                let mut k: usize = 0;
                if offset > 0 && out.len() > 0 {
                    while k < length as usize
                        invariant
                            before.len() > 0,
                            base < before.len(),
                            k <= length,
                            out@ == copy_from(before, base as int, k as nat),
                        decreases length - k,
                    {
                        proof {
                            lemma_copy_from_len(before, base as int, k as nat);
                        }
                        let cur = out.len();
                        assert(base + k < cur);
                        let v = out[base + k];
                        out.push(v);
                        k = k + 1;
                    }
                }
            },
        }
        proof {
            let ts = tokens@.subrange(0, t + 1);
            assert(ts.drop_last() =~= tokens@.subrange(0, t as int));
        }
        t = t + 1;
    }
    assert(tokens@.subrange(0, tokens@.len() as int) =~= tokens@);
    out
}

// ───────────────────────────── encoding ─────────────────────────────

/// Token sequences whose matches copy already decoded bytes without overlap:
/// each match has offset at least its length, length 3 to 130, and reaches
/// back no further than the start.
pub open spec fn tokens_ok(tokens: Seq<Token>) -> bool {
    forall|i: int|
        0 <= i < tokens.len() ==> match #[trigger] tokens[i] {
            Token::Literal(_) => true,
            Token::Match { offset, length } => 3 <= length <= 130 && length <= offset
                && offset <= lz_decode(tokens.subrange(0, i)).len(),
        }
}

/// Big-endian value of the up to 4 bytes of `data` from `i` on.
pub open spec fn hash_spec(data: Seq<u8>, i: int) -> u32 {
    let r = data.len() - i;
    if r >= 4 {
        (data[i] * 0x100_0000 + data[i + 1] * 0x1_0000 + data[i + 2] * 0x100 + data[i + 3]) as u32
    } else if r == 3 {
        (data[i] * 0x1_0000 + data[i + 1] * 0x100 + data[i + 2]) as u32
    } else if r == 2 {
        (data[i] * 0x100 + data[i + 1]) as u32
    } else if r == 1 {
        data[i] as u32
    } else {
        0
    }
}

/// Every match of `tokens` reaches back at most `window` bytes.
pub open spec fn tokens_within(tokens: Seq<Token>, window: nat) -> bool {
    forall|i: int|
        0 <= i < tokens.len() ==> match #[trigger] tokens[i] {
            Token::Literal(_) => true,
            Token::Match { offset, length } => offset <= window,
        }
}

proof fn lemma_within_push(tokens: Seq<Token>, t: Token, window: nat)
    requires
        tokens_within(tokens, window),
        t matches Token::Match { offset, .. } ==> offset <= window,
    ensures
        tokens_within(tokens.push(t), window),
{
    assert forall|i: int| 0 <= i < tokens.push(t).len() implies match #[trigger] tokens.push(t)[i] {
        Token::Literal(_) => true,
        Token::Match { offset, length } => offset <= window,
    } by {
        if i < tokens.len() {
            assert(tokens.push(t)[i] == tokens[i]);
        }
    }
}

/// Hash of the up to 4 bytes at `i`, big-endian.
fn compute_hash(data: &[u8], i: usize) -> (h: u32)
    requires
        i <= data@.len(),
    ensures
        h == hash_spec(data@, i as int),
{
    if data.len() - i >= 4 {
        let (a, b, c, d) = (data[i], data[i + 1], data[i + 2], data[i + 3]);
        assert(((a as u32) << 24u32) | ((b as u32) << 16u32) | ((c as u32) << 8u32) | (d as u32) == a * 0x100_0000
            + b * 0x1_0000 + c * 0x100 + d) by (bit_vector);
        ((a as u32) << 24u32) | ((b as u32) << 16u32) | ((c as u32) << 8u32) | (d as u32)
    } else if data.len() - i >= 3 {
        hash3(data, i)
    } else if data.len() - i >= 2 {
        let (a, b) = (data[i], data[i + 1]);
        assert(((a as u32) << 8u32) | (b as u32) == a * 0x100 + b) by (bit_vector);
        ((a as u32) << 8u32) | (b as u32)
    } else if data.len() - i >= 1 {
        data[i] as u32
    } else {
        0
    }
}

/// Hash of the 3 bytes at `i`, big-endian.
fn hash3(data: &[u8], i: usize) -> (h: u32)
    requires
        i + 3 <= data@.len(),
    ensures
        h == data@[i as int] * 0x1_0000 + data@[i + 1] * 0x100 + data@[i + 2],
{
    let (a, b, c) = (data[i], data[i + 1], data[i + 2]);
    assert(((a as u32) << 16u32) | ((b as u32) << 8u32) | (c as u32) == a * 0x1_0000 + b * 0x100 + c) by (bit_vector);
    ((a as u32) << 16u32) | ((b as u32) << 8u32) | (c as u32)
}

/// A match of `length` bytes at `i` against `pos`, `offset` back.
pub open spec fn is_match(data: Seq<u8>, i: int, offset: int, length: int, pos: int) -> bool {
    &&& 0 <= pos < i
    &&& offset == i - pos
    &&& 3 <= length <= 130
    &&& length <= offset
    &&& i + length <= data.len()
    &&& data.subrange(pos, pos + length) == data.subrange(i, i + length)
}

/// Number of equal bytes at `i` and at `pos`, counted on from `k`, stopping
/// at `lim` or at the end of `data`.
pub open spec fn match_len_from(data: Seq<u8>, i: int, pos: int, k: nat, lim: nat) -> nat
    decreases lim - k,
{
    if k >= lim || i + k >= data.len() || data[i + k] != data[pos + k] {
        k
    } else {
        match_len_from(data, i, pos, k + 1, lim)
    }
}

/// Match length that chained position `ps[t]` offers at `i`: 0 when it is not
/// before `i` or lies beyond the window.
pub open spec fn cand_len(data: Seq<u8>, ps: Seq<u32>, t: int, i: int, max_match: nat, window: nat) -> nat {
    let pos = ps[t] as int;
    if pos >= i || i - pos > window {
        0
    } else {
        match_len_from(data, i, pos, 0, if i - pos < max_match { (i - pos) as nat } else { max_match })
    }
}

/// Largest match length among the first `t` chained positions.
pub open spec fn best_len(data: Seq<u8>, ps: Seq<u32>, t: nat, i: int, max_match: nat, window: nat) -> nat
    decreases t,
{
    if t == 0 {
        0
    } else {
        let b = best_len(data, ps, (t - 1) as nat, i, max_match, window);
        let c = cand_len(data, ps, t - 1, i, max_match, window);
        if c > b { c } else { b }
    }
}

proof fn lemma_best_len_bound(data: Seq<u8>, ps: Seq<u32>, t: nat, i: int, mm: nat, w: nat)
    ensures
        best_len(data, ps, t, i, mm, w) <= mm,
    decreases t,
{
    if t > 0 {
        lemma_best_len_bound(data, ps, (t - 1) as nat, i, mm, w);
        let pos = ps[t - 1] as int;
        if !(pos >= i || i - pos > w) {
            lemma_match_len_bound(data, i, pos, 0, if i - pos < mm { (i - pos) as nat } else { mm });
        }
    }
}

proof fn lemma_match_len_bound(data: Seq<u8>, i: int, pos: int, k: nat, lim: nat)
    ensures
        match_len_from(data, i, pos, k, lim) <= if k <= lim { lim } else { k },
        match_len_from(data, i, pos, k, lim) >= k,
    decreases lim - k,
{
    if !(k >= lim || i + k >= data.len() || data[i + k] != data[pos + k]) {
        lemma_match_len_bound(data, i, pos, k + 1, lim);
    }
}

proof fn lemma_best_len_ge(data: Seq<u8>, ps: Seq<u32>, t: nat, i: int, mm: nat, w: nat)
    ensures
        forall|u: int| 0 <= u < t ==> #[trigger] cand_len(data, ps, u, i, mm, w) <= best_len(data, ps, t, i, mm, w),
    decreases t,
{
    if t > 0 {
        lemma_best_len_ge(data, ps, (t - 1) as nat, i, mm, w);
    }
}

/// Once a candidate reaches `max_match`, no later one is longer.
proof fn lemma_best_len_rest(data: Seq<u8>, ps: Seq<u32>, t: nat, u: nat, i: int, mm: nat, w: nat)
    requires
        t <= u,
        best_len(data, ps, t, i, mm, w) == mm,
    ensures
        best_len(data, ps, u, i, mm, w) == mm,
    decreases u - t,
{
    if u > t {
        lemma_best_len_rest(data, ps, t, (u - 1) as nat, i, mm, w);
        lemma_best_len_bound(data, ps, u, i, mm, w);
    }
}

/// Longest match at `i` among the chained positions for its hash (the first
/// one of that length), within `window_size` and `max_match` bytes.
fn find_match_info(
    data: &[u8],
    chain: &HashMap<u64, Vec<u32>>,
    h: u32,
    i: usize,
    max_match: usize,
    window_size: usize,
) -> (r: Option<(u32, usize, usize)>)
    requires
        max_match <= 130,
        data@.len() <= u32::MAX,
    ensures
        ({
            let ps = chain_at(chain@, h as u64);
            let b = best_len(data@, ps, ps.len(), i as int, max_match as nat, window_size as nat);
            &&& r is Some <==> i + 3 <= data@.len() && b >= 3
            &&& r matches Some(m) ==> m.1 == b && exists|t: int|
                0 <= t < ps.len() && cand_len(data@, ps, t, i as int, max_match as nat, window_size as nat) == b
                    && m.2 == ps[t] && m.0 == i - ps[t] && forall|u: int|
                    0 <= u < t ==> #[trigger] cand_len(data@, ps, u, i as int, max_match as nat, window_size as nat) < b
        }),
        r matches Some(m) ==> is_match(data@, i as int, m.0 as int, m.1 as int, m.2 as int) && m.0
            <= window_size && m.1 <= max_match,
{
    broadcast use vstd::std_specs::hash::group_hash_axioms;
    let ghost ps = chain_at(chain@, h as u64);
    let ghost mm = max_match as nat;
    let ghost w = window_size as nat;
    if i > data.len() || data.len() - i < 3 {
        return None;
    }
    let positions = match chain.get(&(h as u64)) {
        Some(p) => p,
        None => {
            assert(best_len(data@, ps, ps.len(), i as int, mm, w) == 0);
            return None;
        },
    };
    assert(positions@ == ps);
    let n = data.len();
    let mut best_offset: u32 = 0;
    let mut best_length: usize = 0;
    let mut best_pos: usize = 0;
    let mut t: usize = 0;
    let ghost mut bt: int = 0;
    while t < positions.len()
        invariant
            n == data@.len(),
            n <= u32::MAX,
            i + 3 <= n,
            max_match <= 130,
            mm == max_match,
            w == window_size,
            positions@ == ps,
            t <= ps.len(),
            best_length == 0 || (is_match(data@, i as int, best_offset as int, best_length as int, best_pos as int)
                && best_offset <= window_size && best_length <= max_match),
            best_length == (if best_len(data@, ps, t as nat, i as int, mm, w) >= 3 {
                best_len(data@, ps, t as nat, i as int, mm, w)
            } else {
                0
            }),
            best_length >= 3 ==> 0 <= bt < t && cand_len(data@, ps, bt, i as int, mm, w) == best_length && best_pos
                == ps[bt] && best_offset == i - ps[bt] && forall|u: int|
                0 <= u < bt ==> #[trigger] cand_len(data@, ps, u, i as int, mm, w) < best_length,
        ensures
            best_len(data@, ps, ps.len(), i as int, mm, w) == best_len(data@, ps, t as nat, i as int, mm, w),
            best_length >= 3 ==> 0 <= bt < ps.len(),
        decreases positions@.len() - t,
    {
        let pos = positions[t] as usize;
        let ghost tt = t as int;
        t = t + 1;
        proof {
            assert(best_len(data@, ps, t as nat, i as int, mm, w) == (if cand_len(data@, ps, tt, i as int, mm, w)
                > best_len(data@, ps, tt as nat, i as int, mm, w) {
                cand_len(data@, ps, tt, i as int, mm, w)
            } else {
                best_len(data@, ps, tt as nat, i as int, mm, w)
            }));
        }
        if pos >= i {
            continue;
        }
        let offset = i - pos;
        if offset > window_size {
            continue;
        }
        let max_len = if offset < max_match {
            offset
        } else {
            max_match
        };
        let mut length: usize = 0;
        while i + length < n && length < max_len && data[i + length] == data[pos + length]
            invariant
                n == data@.len(),
                pos < i,
                i + 3 <= n,
                length <= max_len,
                max_len <= offset,
                offset == i - pos,
                i + length <= n,
                data@.subrange(pos as int, pos + length) == data@.subrange(i as int, i + length),
                match_len_from(data@, i as int, pos as int, length as nat, max_len as nat) == match_len_from(
                    data@,
                    i as int,
                    pos as int,
                    0,
                    max_len as nat,
                ),
            decreases max_len - length,
        {
            assert(data@.subrange(pos as int, pos + length + 1) =~= data@.subrange(pos as int, pos + length).push(
                data@[pos + length],
            ));
            assert(data@.subrange(i as int, i + length + 1) =~= data@.subrange(i as int, i + length).push(
                data@[i + length],
            ));
            length = length + 1;
        }
        assert(cand_len(data@, ps, tt, i as int, mm, w) == length);
        if length >= 3 && length > best_length {
            best_offset = offset as u32;
            best_length = length;
            best_pos = pos;
            proof {
                bt = tt;
                lemma_best_len_ge(data@, ps, tt as nat, i as int, mm, w);
            }
        }
        if length >= max_match {
            proof {
                lemma_best_len_bound(data@, ps, t as nat, i as int, mm, w);
                lemma_best_len_rest(data@, ps, t as nat, ps.len(), i as int, mm, w);
            }
            break ;
        }
    }
    if best_length >= 3 {
        Some((best_offset, best_length, best_pos))
    } else {
        None
    }
}

/// A chain after `pos` is appended: its latest `max_chain` positions.
pub open spec fn chain_kept(ps: Seq<u32>, pos: u32, max_chain: nat) -> Seq<u32> {
    let t = ps.push(pos);
    if t.len() > max_chain {
        t.subrange(t.len() - max_chain, t.len() as int)
    } else {
        t
    }
}

/// The positions chained for hash key `k` (none when the key is absent).
pub open spec fn chain_at(chain: Map<u64, Vec<u32>>, k: u64) -> Seq<u32> {
    if chain.contains_key(k) {
        chain[k]@
    } else {
        Seq::empty()
    }
}

/// Append position `pos` to the chain of hash `h`, keeping its latest
/// `max_chain` positions.
fn chain_push(chain: &mut HashMap<u64, Vec<u32>>, h: u32, pos: u32, max_chain: usize)
    ensures
        final(chain)@.dom() == old(chain)@.dom().insert(h as u64),
        forall|k: u64| k != h as u64 && #[trigger] old(chain)@.contains_key(k) ==> final(chain)@[k] == old(chain)@[k],
        final(chain)@[h as u64]@ == chain_kept(chain_at(old(chain)@, h as u64), pos, max_chain as nat),
{
    broadcast use vstd::std_specs::hash::group_hash_axioms;
    let ghost ps = chain_at(chain@, h as u64);
    let mut v = match chain.remove(&(h as u64)) {
        Some(v) => v,
        None => Vec::new(),
    };
    assert(v@ == ps);
    v.push(pos);
    if v.len() > max_chain {
        let drop = v.len() - max_chain;
        let mut kept: Vec<u32> = Vec::with_capacity(max_chain);
        let mut t: usize = drop;
        while t < v.len()
            invariant
                drop <= t <= v@.len(),
                kept@ == v@.subrange(drop as int, t as int),
            decreases v@.len() - t,
        {
            kept.push(v[t]);
            t = t + 1;
            assert(kept@ =~= v@.subrange(drop as int, t as int));
        }
        v = kept;
    }
    chain.insert(h as u64, v);
}

proof fn lemma_decode_push_literal(tokens: Seq<Token>, b: u8)
    ensures
        lz_decode(tokens.push(Token::Literal(b))) == lz_decode(tokens).push(b),
{
    assert(tokens.push(Token::Literal(b)).drop_last() =~= tokens);
}

/// Copying `length` earlier bytes that equal the next `length` bytes of
/// `data` extends the decoded prefix of `data`.
proof fn lemma_copy_match(data: Seq<u8>, i: int, offset: int, length: int, pos: int, k: nat)
    requires
        is_match(data, i, offset, length, pos),
        k <= length,
    ensures
        copy_from(data.subrange(0, i), pos, k) == data.subrange(0, i + k),
    decreases k,
{
    if k > 0 {
        lemma_copy_match(data, i, offset, length, pos, (k - 1) as nat);
        let prev = data.subrange(0, i + k - 1);
        assert(prev[pos + k - 1] == data[pos + k - 1]);
        assert(data.subrange(pos, pos + length)[k - 1] == data.subrange(i, i + length)[k - 1]);
        assert(prev.push(prev[pos + k - 1]) =~= data.subrange(0, i + k));
    }
}

proof fn lemma_decode_push_match(tokens: Seq<Token>, data: Seq<u8>, i: int, offset: int, length: int, pos: int)
    requires
        lz_decode(tokens) == data.subrange(0, i),
        is_match(data, i, offset, length, pos),
        offset <= u32::MAX,
        length <= u8::MAX,
    ensures
        lz_decode(tokens.push(Token::Match { offset: offset as u32, length: length as u8 })) == data.subrange(
            0,
            i + length,
        ),
{
    let t = Token::Match { offset: offset as u32, length: length as u8 };
    assert(tokens.push(t).drop_last() =~= tokens);
    lemma_copy_match(data, i, offset, length, pos, length as nat);
}

proof fn lemma_tokens_ok_push(tokens: Seq<Token>, t: Token)
    requires
        tokens_ok(tokens),
        match t {
            Token::Literal(_) => true,
            Token::Match { offset, length } => 3 <= length <= 130 && length <= offset && offset
                <= lz_decode(tokens).len(),
        },
    ensures
        tokens_ok(tokens.push(t)),
{
    let ts = tokens.push(t);
    assert forall|j: int| 0 <= j < ts.len() implies match #[trigger] ts[j] {
        Token::Literal(_) => true,
        Token::Match { offset, length } => 3 <= length <= 130 && length <= offset && offset <= lz_decode(
            ts.subrange(0, j),
        ).len(),
    } by {
        if j < tokens.len() {
            assert(ts.subrange(0, j) =~= tokens.subrange(0, j));
            assert(ts[j] == tokens[j]);
        } else {
            assert(ts.subrange(0, j) =~= tokens);
        }
    }
}

/// Encode data with lazy LZ77 matching: a match shorter than 8 bytes is
/// deferred (a literal is emitted instead) when one of the next 3 positions has
/// a longer match.
pub fn encode(data: &[u8]) -> (tokens: Vec<Token>)
    requires
        data@.len() <= u32::MAX,
    ensures
        lz_decode(tokens@) == data@,
        tokens_ok(tokens@),
        tokens_within(tokens@, 0x40000),
{
    let n = data.len();
    let mut tokens: Vec<Token> = Vec::new();
    if n == 0 {
        assert(lz_decode(tokens@) =~= data@);
        return tokens;
    }
    let max_match: usize = 130;
    let window: usize = 256 * 1024;
    let strong: usize = 8;
    let lookahead: usize = 3;
    let max_chain: usize = 512;
    let mut chain: HashMap<u64, Vec<u32>> = HashMap::new();
    if n >= 3 {
        let h = compute_hash(data, 0);
        let mut first: Vec<u32> = Vec::new();
        first.push(0);
        chain.insert(h as u64, first);
    }
    let mut i: usize = 0;
    assert(data@.subrange(0, 0) =~= Seq::<u8>::empty());
    while i < n
        invariant
            n == data@.len(),
            n <= u32::MAX,
            i <= n,
            max_match == 130,
            lz_decode(tokens@) == data@.subrange(0, i as int),
            tokens_ok(tokens@),
            tokens_within(tokens@, window as nat),
        ensures
            i == n,
        decreases n - i,
    {
        if n - i < 3 {
            while i < n
                invariant
                    n == data@.len(),
                    i <= n,
                    lz_decode(tokens@) == data@.subrange(0, i as int),
                    tokens_ok(tokens@),
                    tokens_within(tokens@, window as nat),
            tokens_within(tokens@, window as nat),
                decreases n - i,
            {
                proof {
                    lemma_decode_push_literal(tokens@, data@[i as int]);
                    lemma_tokens_ok_push(tokens@, Token::Literal(data@[i as int]));
                lemma_within_push(tokens@, Token::Literal(data@[i as int]), window as nat);
                    assert(data@.subrange(0, i + 1) =~= data@.subrange(0, i as int).push(data@[i as int]));
                }
                tokens.push(Token::Literal(data[i]));
                i = i + 1;
            }
            break ;
        }
        let hi = compute_hash(data, i);
        let current = find_match_info(data, &chain, hi, i, max_match, window);
        let mut emit_literal = true;
        let mut best_offset: u32 = 0;
        let mut best_length: usize = 0;
        let mut best_pos: usize = 0;
        match current {
            None => {},
            Some((o, l, p)) => {
                best_offset = o;
                best_length = l;
                best_pos = p;
                if l >= strong {
                    emit_literal = false;
                } else {
                    let lookahead_end = if n - (i + 1) < lookahead {
                        n
                    } else {
                        i + 1 + lookahead
                    };
                    let mut better = false;
                    let mut better_len = l;
                    let mut j = i + 1;
                    while j < lookahead_end
                        invariant
                            n == data@.len(),
                            n <= u32::MAX,
                            lookahead_end <= n,
                            max_match == 130,
                            better_len >= l,
                            better ==> better_len > l,
                        decreases lookahead_end - j,
                    {
                        if n - j < 3 {
                            break ;
                        }
                        let hj = compute_hash(data, j);
                        match find_match_info(data, &chain, hj, j, max_match, window) {
                            Some((_, len_j, _)) => {
                                if len_j > better_len {
                                    better_len = len_j;
                                    better = true;
                                    if len_j >= strong {
                                        break ;
                                    }
                                }
                            },
                            None => {},
                        }
                        j = j + 1;
                    }
                    emit_literal = better && better_len > l;
                }
            },
        }
        if emit_literal {
            proof {
                lemma_decode_push_literal(tokens@, data@[i as int]);
                lemma_tokens_ok_push(tokens@, Token::Literal(data@[i as int]));
                lemma_within_push(tokens@, Token::Literal(data@[i as int]), window as nat);
                assert(data@.subrange(0, i + 1) =~= data@.subrange(0, i as int).push(data@[i as int]));
            }
            tokens.push(Token::Literal(data[i]));
            if n - i >= 3 {
                chain_push(&mut chain, hi, i as u32, max_chain);
            }
            i = i + 1;
        } else {
            proof {
                lemma_decode_push_match(
                    tokens@,
                    data@,
                    i as int,
                    best_offset as int,
                    best_length as int,
                    best_pos as int,
                );
                lemma_tokens_ok_push(tokens@, Token::Match { offset: best_offset, length: best_length as u8 });
                lemma_within_push(tokens@, Token::Match { offset: best_offset, length: best_length as u8 }, window as nat);
            }
            tokens.push(Token::Match { offset: best_offset, length: best_length as u8 });
            let match_end = i + best_length;
            let stop = if n - match_end < 3 {
                n
            } else {
                match_end + 3
            };
            let mut j = match_end;
            while j < stop
                invariant
                    n == data@.len(),
                    n <= u32::MAX,
                    stop <= n,
                decreases stop - j,
            {
                if n - j >= 3 {
                    let hj = compute_hash(data, j);
                    chain_push(&mut chain, hj, j as u32, max_chain);
                }
                j = j + 1;
            }
            i = i + best_length;
        }
    }
    assert(data@.subrange(0, n as int) =~= data@);
    tokens
}

/// Greedy LZ77 with 3-byte hashes, a 64 KiB window and 100-entry chains.
pub fn encode_greedy(data: &[u8]) -> (tokens: Vec<Token>)
    requires
        data@.len() <= u32::MAX,
    ensures
        lz_decode(tokens@) == data@,
        tokens_ok(tokens@),
        tokens_within(tokens@, 0x10000),
{
    let n = data.len();
    let mut tokens: Vec<Token> = Vec::new();
    if n == 0 {
        assert(lz_decode(tokens@) =~= data@);
        return tokens;
    }
    let max_match: usize = 130;
    let window: usize = 64 * 1024;
    let max_chain: usize = 100;
    let mut chain: HashMap<u64, Vec<u32>> = HashMap::new();
    if n >= 3 {
        let h = hash3(data, 0);
        let mut first: Vec<u32> = Vec::new();
        first.push(0);
        chain.insert(h as u64, first);
    }
    let mut i: usize = 0;
    assert(data@.subrange(0, 0) =~= Seq::<u8>::empty());
    while i < n
        invariant
            n == data@.len(),
            n <= u32::MAX,
            i <= n,
            max_match == 130,
            lz_decode(tokens@) == data@.subrange(0, i as int),
            tokens_ok(tokens@),
            tokens_within(tokens@, window as nat),
        ensures
            i == n,
        decreases n - i,
    {
        if n - i < 3 {
            while i < n
                invariant
                    n == data@.len(),
                    i <= n,
                    lz_decode(tokens@) == data@.subrange(0, i as int),
                    tokens_ok(tokens@),
                    tokens_within(tokens@, window as nat),
            tokens_within(tokens@, window as nat),
                decreases n - i,
            {
                proof {
                    lemma_decode_push_literal(tokens@, data@[i as int]);
                    lemma_tokens_ok_push(tokens@, Token::Literal(data@[i as int]));
                lemma_within_push(tokens@, Token::Literal(data@[i as int]), window as nat);
                    assert(data@.subrange(0, i + 1) =~= data@.subrange(0, i as int).push(data@[i as int]));
                }
                tokens.push(Token::Literal(data[i]));
                i = i + 1;
            }
            break ;
        }
        let h = hash3(data, i);
        match find_match_info(data, &chain, h, i, max_match, window) {
            Some((best_offset, best_length, best_pos)) => {
                proof {
                    lemma_decode_push_match(
                        tokens@,
                        data@,
                        i as int,
                        best_offset as int,
                        best_length as int,
                        best_pos as int,
                    );
                    lemma_tokens_ok_push(tokens@, Token::Match { offset: best_offset, length: best_length as u8 });
                lemma_within_push(tokens@, Token::Match { offset: best_offset, length: best_length as u8 }, window as nat);
                }
                tokens.push(Token::Match { offset: best_offset, length: best_length as u8 });
                let match_end = i + best_length;
                let last = if n - match_end < 2 {
                    n
                } else {
                    match_end + 2
                };
                let mut j = match_end;
                while j < last
                    invariant
                        n == data@.len(),
                        n <= u32::MAX,
                        last <= n,
                    decreases last - j,
                {
                    j = j + 1;
                    if n - j >= 3 {
                        let hj = hash3(data, j);
                        chain_push(&mut chain, hj, j as u32, max_chain);
                    }
                }
                i = i + best_length;
            },
            None => {
                proof {
                    lemma_decode_push_literal(tokens@, data@[i as int]);
                    lemma_tokens_ok_push(tokens@, Token::Literal(data@[i as int]));
                lemma_within_push(tokens@, Token::Literal(data@[i as int]), window as nat);
                    assert(data@.subrange(0, i + 1) =~= data@.subrange(0, i as int).push(data@[i as int]));
                }
                tokens.push(Token::Literal(data[i]));
                if n - i >= 3 {
                    chain_push(&mut chain, h, i as u32, max_chain);
                }
                i = i + 1;
            },
        }
    }
    assert(data@.subrange(0, n as int) =~= data@);
    tokens
}

// ───────────────────────────── serialization ─────────────────────────────

/// Marker byte of the Rice token format.
pub const RICE_FORMAT_MAGIC: u8 = 0x4c;

/// Version byte of the Rice token format.
pub const RICE_FORMAT_VERSION: u8 = 1;

/// Largest token count the serializer takes (its cost sums then fit 64 bits).
pub const MAX_TOKENS: usize = 0x8000_0000;

/// Bits of one token: a 0 tag and the byte, or a 1 tag, the Rice-coded offset
/// and the length byte.
pub open spec fn token_bits(t: Token, k: nat) -> Seq<bool> {
    match t {
        Token::Literal(b) => seq![false] + bits_of(b as nat, 8),
        Token::Match { offset, length } => seq![true] + rice_bits(offset as nat, k) + bits_of(
            length as nat,
            8,
        ),
    }
}

/// Bits of a token sequence.
pub open spec fn tokens_bits(ts: Seq<Token>, k: nat) -> Seq<bool>
    decreases ts.len(),
{
    if ts.len() == 0 {
        Seq::empty()
    } else {
        tokens_bits(ts.drop_last(), k) + token_bits(ts.last(), k)
    }
}

/// Bits the matches' offsets take with Rice parameter `k`.
pub open spec fn rice_cost(ts: Seq<Token>, k: nat) -> nat
    decreases ts.len(),
{
    if ts.len() == 0 {
        0
    } else {
        rice_cost(ts.drop_last(), k) + match ts.last() {
            Token::Literal(_) => 0nat,
            Token::Match { offset, .. } => offset as nat / pow2(k) + 1 + k,
        }
    }
}

/// Whether `ts` holds a match.
pub open spec fn has_match(ts: Seq<Token>) -> bool {
    exists|i: int| 0 <= i < ts.len() && ts[i] is Match
}

/// The cheapest Rice parameter among `0..=kk` (the smallest one on ties).
pub open spec fn best_rice_k(ts: Seq<Token>, kk: nat) -> nat
    decreases kk,
{
    if kk == 0 {
        0
    } else {
        let b = best_rice_k(ts, (kk - 1) as nat);
        if rice_cost(ts, kk) < rice_cost(ts, b) {
            kk
        } else {
            b
        }
    }
}

/// The Rice parameter used for `ts`: the cheapest in `0..=16`, or 4 without matches.
pub open spec fn rice_k(ts: Seq<Token>) -> nat {
    if has_match(ts) {
        best_rice_k(ts, 16)
    } else {
        4
    }
}

/// The bit stream of a serialized token sequence (before the final padding).
pub open spec fn tokens_stream_bits(ts: Seq<Token>) -> Seq<bool> {
    let k = rice_k(ts);
    pad_bits(bits_of(RICE_FORMAT_MAGIC as nat, 8) + bits_of(RICE_FORMAT_VERSION as nat, 8) + bits_of(k, 8))
        + bytes_bits(uleb_bytes(ts.len())) + tokens_bits(ts, k)
}

proof fn lemma_rice_cost_bound(ts: Seq<Token>, k: nat)
    requires
        k <= 16,
    ensures
        rice_cost(ts, k) <= ts.len() * 0x1_0000_0011,
    decreases ts.len(),
{
    if ts.len() > 0 {
        lemma_rice_cost_bound(ts.drop_last(), k);
        vstd::arithmetic::power2::lemma_pow2_pos(k);
        match ts.last() {
            Token::Literal(_) => {},
            Token::Match { offset, .. } => {
                vstd::arithmetic::div_mod::lemma_div_is_ordered_by_denominator(offset as int, 1, pow2(k) as int);
            },
        }
    }
}

proof fn lemma_has_match_prefix(ts: Seq<Token>, i: int)
    requires
        0 <= i < ts.len(),
    ensures
        has_match(ts.subrange(0, i + 1)) == (has_match(ts.subrange(0, i)) || ts[i] is Match),
{
    let a = ts.subrange(0, i);
    let b = ts.subrange(0, i + 1);
    if has_match(a) {
        let j = choose|j: int| 0 <= j < a.len() && a[j] is Match;
        assert(b[j] == a[j]);
    }
    if ts[i] is Match {
        assert(b[i] == ts[i]);
    }
    if has_match(b) {
        let j = choose|j: int| 0 <= j < b.len() && b[j] is Match;
        if j < i {
            assert(a[j] == b[j]);
        }
    }
}

fn offsets_cost(tokens: &[Token], k: usize) -> (c: u64)
    requires
        k <= 16,
        tokens@.len() <= MAX_TOKENS,
    ensures
        c == rice_cost(tokens@, k as nat),
{
    let mut c: u64 = 0;
    let mut t: usize = 0;
    assert(tokens@.subrange(0, 0) =~= Seq::<Token>::empty());
    while t < tokens.len()
        invariant
            k <= 16,
            tokens@.len() <= MAX_TOKENS,
            t <= tokens@.len(),
            c == rice_cost(tokens@.subrange(0, t as int), k as nat),
        decreases tokens@.len() - t,
    {
        proof {
            let ts = tokens@.subrange(0, t + 1);
            assert(ts.drop_last() =~= tokens@.subrange(0, t as int));
            lemma_rice_cost_bound(ts, k as nat);
            vstd::arithmetic::power2::lemma_pow2_pos(k as nat);
        }
        match tokens[t] {
            Token::Literal(_) => {},
            Token::Match { offset, .. } => {
                proof {
                    vstd::bits::lemma_u32_shr_is_div(offset, k as u32);
                }
                let q = offset >> (k as u32);
                c = c + q as u64 + 1 + k as u64;
            },
        }
        t = t + 1;
    }
    assert(tokens@.subrange(0, tokens@.len() as int) =~= tokens@);
    c
}

/// The Rice parameter minimizing the bits of the match offsets.
fn choose_rice_k(tokens: &[Token]) -> (k: usize)
    requires
        tokens@.len() <= MAX_TOKENS,
    ensures
        k == rice_k(tokens@),
        k <= 16,
{
    let mut any = false;
    let mut t: usize = 0;
    assert(!has_match(tokens@.subrange(0, 0)));
    while t < tokens.len()
        invariant
            t <= tokens@.len(),
            any == has_match(tokens@.subrange(0, t as int)),
        decreases tokens@.len() - t,
    {
        proof {
            lemma_has_match_prefix(tokens@, t as int);
        }
        if let Token::Match { .. } = tokens[t] {
            any = true;
        }
        t = t + 1;
    }
    assert(tokens@.subrange(0, tokens@.len() as int) =~= tokens@);
    if !any {
        return 4;
    }
    let mut best_k: usize = 0;
    let mut best_bits: u64 = u64::MAX;
    let mut k: usize = 0;
    while k <= 16
        invariant
            k <= 17,
            tokens@.len() <= MAX_TOKENS,
            k == 0 ==> best_k == 0 && best_bits == u64::MAX,
            k > 0 ==> best_k == best_rice_k(tokens@, (k - 1) as nat) && best_bits == rice_cost(
                tokens@,
                best_k as nat,
            ),
            best_k <= 16,
        decreases 17 - k,
    {
        let bits = offsets_cost(tokens, k);
        proof {
            lemma_rice_cost_bound(tokens@, k as nat);
        }
        if bits < best_bits {
            best_bits = bits;
            best_k = k;
        }
        k = k + 1;
    }
    best_k
}

proof fn lemma_tokens_bits_push(ts: Seq<Token>, t: Token, k: nat)
    ensures
        tokens_bits(ts.push(t), k) == tokens_bits(ts, k) + token_bits(t, k),
{
    assert(ts.push(t).drop_last() =~= ts);
}

/// Serialize tokens: `[magic][version][k]`, the ULEB token count, then per
/// token a tag bit and its payload (Rice-coded offsets).
pub fn tokens_to_bytes(tokens: &[Token]) -> (out: Vec<u8>)
    requires
        tokens@.len() <= MAX_TOKENS,
    ensures
        bytes_bits(out@) == pad_bits(tokens_stream_bits(tokens@)),
{
    let mut bw = BitWriter::new();
    bw.write_bits(RICE_FORMAT_MAGIC as u64, 8);
    bw.write_bits(RICE_FORMAT_VERSION as u64, 8);
    let k = choose_rice_k(tokens);
    bw.write_bits(k as u64, 8);
    bw.write_uleb(tokens.len() as u64);
    let ghost head = bw.bits();
    let mut t: usize = 0;
    assert(tokens@.subrange(0, 0) =~= Seq::<Token>::empty());
    assert(head + tokens_bits(Seq::<Token>::empty(), k as nat) =~= head);
    while t < tokens.len()
        invariant
            bw.wf(),
            k <= 16,
            t <= tokens@.len(),
            bw.bits() == head + tokens_bits(tokens@.subrange(0, t as int), k as nat),
        decreases tokens@.len() - t,
    {
        let ghost before = bw.bits();
        match tokens[t] {
            Token::Literal(b) => {
                bw.write_bit(0);
                bw.write_bits(b as u64, 8);
            },
            Token::Match { offset, length } => {
                bw.write_bit(1);
                bw.write_rice(offset as u64, k);
                bw.write_bits(length as u64, 8);
            },
        }
        proof {
            let ts = tokens@.subrange(0, t as int);
            assert(tokens@.subrange(0, t + 1) =~= ts.push(tokens@[t as int]));
            lemma_tokens_bits_push(ts, tokens@[t as int], k as nat);
            assert(bw.bits() =~= before + token_bits(tokens@[t as int], k as nat));
        }
        t = t + 1;
    }
    assert(tokens@.subrange(0, tokens@.len() as int) =~= tokens@);
    assert(bw.bits() =~= tokens_stream_bits(tokens@));
    bw.flush()
}

// ───────────────────────────── parsing ─────────────────────────────

/// Up to `n` bits from position `p` (fewer at the end) as a number, and the
/// position after them.
pub open spec fn take_bits(bits: Seq<bool>, p: int, n: nat) -> (nat, int) {
    let m = if p + n <= bits.len() { n as int } else { bits.len() - p };
    (bits_value(bits.subrange(p, p + m)), p + m)
}

/// One token read at `p`, or `None` where reading fails (no tag bit, an
/// unterminated Rice quotient, or a Rice parameter of 64 or more).
pub open spec fn parse_token(bits: Seq<bool>, p: int, k: nat) -> Option<(Token, int)> {
    if p >= bits.len() {
        None
    } else if !bits[p] {
        let v = take_bits(bits, p + 1, 8);
        Some((Token::Literal(v.0 as u8), v.1))
    } else if k >= 64 {
        None
    } else {
        let q = ones_run(bits, p + 1);
        if p + 1 + q >= bits.len() {
            None
        } else {
            let r = take_bits(bits, p + 2 + q, k);
            let len = take_bits(bits, r.1, 8);
            let off = ((q * pow2(k)) % pow2(64) + r.0) as u64 as u32;
            Some((Token::Match { offset: off, length: len.0 as u8 }, len.1))
        }
    }
}

/// `count` tokens read from `p` on.
pub open spec fn parse_tokens(bits: Seq<bool>, p: int, k: nat, count: nat) -> Option<(Seq<Token>, int)>
    decreases count,
{
    if count == 0 {
        Some((Seq::empty(), p))
    } else {
        match parse_tokens(bits, p, k, (count - 1) as nat) {
            None => None,
            Some(prev) => match parse_token(bits, prev.1, k) {
                None => None,
                Some(t) => Some((prev.0.push(t.0), t.1)),
            },
        }
    }
}

/// The first byte boundary at or after bit `p`.
pub open spec fn byte_ceil(p: int) -> int {
    if p % 8 == 0 {
        p / 8
    } else {
        p / 8 + 1
    }
}

/// Tokens of the byte-oriented legacy format, read from byte `i` on: `0x80 b`
/// is a literal, `0x81 off(4) len` a match (kept when `off > 0` and
/// `len >= 3`), any other byte a literal; a cut-off escape ends the tokens.
pub open spec fn old_tokens(d: Seq<u8>, i: int) -> Seq<Token>
    decreases d.len() - i,
{
    if i < 0 || i >= d.len() {
        Seq::empty()
    } else if d[i] == 0x80 {
        if i + 1 < d.len() {
            seq![Token::Literal(d[i + 1])] + old_tokens(d, i + 2)
        } else {
            Seq::empty()
        }
    } else if d[i] == 0x81 {
        if i + 5 < d.len() {
            let offset = le32_at(d, i + 1);
            let length = d[i + 5];
            (if offset > 0 && length >= 3 {
                seq![Token::Match { offset, length }]
            } else {
                Seq::empty()
            }) + old_tokens(d, i + 6)
        } else {
            Seq::empty()
        }
    } else {
        seq![Token::Literal(d[i])] + old_tokens(d, i + 1)
    }
}

/// Whether `d` starts with the Rice format's magic and version.
pub open spec fn rice_header_ok(d: Seq<u8>) -> bool {
    let bits = bytes_bits(d);
    let m = take_bits(bits, 0, 8);
    let v = take_bits(bits, m.1, 8);
    m.0 as u8 == RICE_FORMAT_MAGIC && v.0 as u8 == RICE_FORMAT_VERSION
}

/// Byte where the token count of a Rice stream starts.
pub open spec fn rice_count_start(d: Seq<u8>) -> int {
    let bits = bytes_bits(d);
    let m = take_bits(bits, 0, 8);
    let v = take_bits(bits, m.1, 8);
    let kb = take_bits(bits, v.1, 8);
    byte_ceil(kb.1)
}

/// Rice parameter of a Rice stream.
pub open spec fn rice_stream_k(d: Seq<u8>) -> nat {
    let bits = bytes_bits(d);
    let m = take_bits(bits, 0, 8);
    let v = take_bits(bits, m.1, 8);
    take_bits(bits, v.1, 8).0
}

/// Tokens that `bytes_to_tokens` reads from `d`, or `None` where reading fails.
pub open spec fn parsed_tokens(d: Seq<u8>) -> Option<Seq<Token>> {
    if !rice_header_ok(d) {
        Some(old_tokens(d, 0))
    } else {
        let b = rice_count_start(d);
        let s = d.subrange(b, d.len() as int);
        if !uleb_complete(s) {
            None
        } else {
            match parse_tokens(
                bytes_bits(d),
                (b + uleb_span(s)) * 8,
                rice_stream_k(d),
                uleb_value(s) as u64 as usize as nat,
            ) {
                None => None,
                Some(r) => Some(r.0),
            }
        }
    }
}

/// Inputs `bytes_to_tokens` reads without failing.
pub open spec fn tokens_readable(d: Seq<u8>) -> bool {
    &&& reader_len_ok(d.len())
    &&& rice_header_ok(d) ==> uleb_safe(d.subrange(rice_count_start(d), d.len() as int))
    &&& parsed_tokens(d) is Some
}

fn old_bytes_to_tokens(data: &[u8]) -> (tokens: Vec<Token>)
    ensures
        tokens@ == old_tokens(data@, 0),
{
    let mut tokens: Vec<Token> = Vec::new();
    let mut i: usize = 0;
    let ghost d = data@;
    loop
        invariant
            d == data@,
            tokens@ + old_tokens(d, i as int) == old_tokens(d, 0),
        ensures
            tokens@ == old_tokens(d, 0),
        decreases d.len() - i,
    {
        if i >= data.len() {
            assert(tokens@ =~= tokens@ + old_tokens(d, i as int));
            break ;
        }
        let b = data[i];
        let ghost before = tokens@;
        if b == 0x80 {
            if data.len() - i > 1 {
                tokens.push(Token::Literal(data[i + 1]));
                assert(tokens@ + old_tokens(d, i + 2) =~= before + old_tokens(d, i as int));
                i = i + 2;
            } else {
                assert(tokens@ =~= tokens@ + old_tokens(d, i as int));
                break ;
            }
        } else if b == 0x81 {
            if data.len() - i > 5 {
                let offset = crate::le::read_u32_le(data, i + 1);
                let length = data[i + 5];
                if offset > 0 && length >= 3 {
                    tokens.push(Token::Match { offset, length });
                }
                assert(tokens@ + old_tokens(d, i + 6) =~= before + old_tokens(d, i as int));
                i = i + 6;
            } else {
                assert(tokens@ =~= tokens@ + old_tokens(d, i as int));
                break ;
            }
        } else {
            tokens.push(Token::Literal(b));
            assert(tokens@ + old_tokens(d, i + 1) =~= before + old_tokens(d, i as int));
            i = i + 1;
        }
    }
    tokens
}

proof fn lemma_parse_prefix(bits: Seq<bool>, p: int, k: nat, i: nat, count: nat)
    requires
        i <= count,
        parse_tokens(bits, p, k, count) is Some,
    ensures
        parse_tokens(bits, p, k, i) is Some,
    decreases count - i,
{
    if i < count {
        lemma_parse_prefix(bits, p, k, i, (count - 1) as nat);
    }
}

/// Read one token with `br`; `None` only where `parse_token` fails.
fn read_token(br: &mut BitReader, k: usize) -> (r: Option<Token>)
    requires
        old(br).wf(),
        k < 256,
    ensures
        final(br).wf(),
        final(br).data() == old(br).data(),
        ({
            let pt = parse_token(old(br).all_bits(), old(br).pos() as int, k as nat);
            &&& pt is Some ==> r == Some(pt->Some_0.0) && final(br).pos() == pt->Some_0.1
            &&& r is Some ==> pt is Some
        }),
{
    proof {
        br.lemma_wf();
    }
    let tag = match br.read_bit() {
        Ok(t) => t,
        Err(_) => {
            return None;
        },
    };
    if tag == 0 {
        proof {
            br.lemma_wf();
        }
        let ghost p1 = br.pos();
        let v = match br.read_bits(8) {
            Ok(v) => v,
            Err(_) => {
                return None;
            },
        };
        proof {
            br.lemma_wf();
            let bits = br.all_bits();
            let m = if p1 + 8 <= bits.len() { 8int } else { bits.len() - p1 };
            crate::bit_io::lemma_bits_value_bound(bits.subrange(p1 as int, p1 + m));
            vstd::arithmetic::power2::lemma2_to64();
            if m < 8 {
                vstd::arithmetic::power2::lemma_pow2_strictly_increases(m as nat, 8);
            }
        }
        Some(Token::Literal(v as u8))
    } else {
        if k >= 64 {
            return None;
        }
        proof {
            br.lemma_wf();
        }
        let ghost p2 = br.pos();
        let off = match br.read_rice(k) {
            Ok(v) => v,
            Err(_) => {
                proof {
                    br.lemma_wf();
                }
                return None;
            },
        };
        proof {
            br.lemma_wf();
        }
        let ghost p3 = br.pos();
        let len = match br.read_bits(8) {
            Ok(v) => v,
            Err(_) => {
                return None;
            },
        };
        proof {
            br.lemma_wf();
            let bits = br.all_bits();
            let m = if p3 + 8 <= bits.len() { 8int } else { bits.len() - p3 };
            crate::bit_io::lemma_bits_value_bound(bits.subrange(p3 as int, p3 + m));
            vstd::arithmetic::power2::lemma2_to64();
            if m < 8 {
                vstd::arithmetic::power2::lemma_pow2_strictly_increases(m as nat, 8);
            }
        }
        Some(Token::Match { offset: off as u32, length: len as u8 })
    }
}

/// Read one header byte (fewer bits at the end of the data).
fn read_header_byte(br: &mut BitReader) -> (r: u64)
    requires
        old(br).wf(),
    ensures
        final(br).wf(),
        final(br).data() == old(br).data(),
        r as nat == take_bits(old(br).all_bits(), old(br).pos() as int, 8).0,
        final(br).pos() == take_bits(old(br).all_bits(), old(br).pos() as int, 8).1,
        r < 256,
{
    proof {
        br.lemma_wf();
    }
    let ghost p = br.pos();
    let v = match br.read_bits(8) {
        Ok(v) => v,
        Err(_) => 0,
    };
    proof {
        br.lemma_wf();
        let bits = br.all_bits();
        let m = if p + 8 <= bits.len() { 8int } else { bits.len() - p };
        crate::bit_io::lemma_bits_value_bound(bits.subrange(p as int, p + m));
        vstd::arithmetic::power2::lemma2_to64();
        if m < 8 {
            vstd::arithmetic::power2::lemma_pow2_strictly_increases(m as nat, 8);
        }
    }
    v
}

/// Deserialize tokens; data without the Rice header is read in the legacy
/// byte format.
pub fn bytes_to_tokens(data: &[u8]) -> (tokens: Vec<Token>)
    requires
        tokens_readable(data@),
    ensures
        tokens@ == parsed_tokens(data@)->Some_0,
{
    let mut br = BitReader::new(data);
    let ghost bits = bytes_bits(data@);
    proof {
        br.lemma_wf();
    }
    let magic = read_header_byte(&mut br);
    if magic as u8 != RICE_FORMAT_MAGIC {
        return old_bytes_to_tokens(data);
    }
    proof {
        br.lemma_wf();
    }
    let version = read_header_byte(&mut br);
    if version as u8 != RICE_FORMAT_VERSION {
        return old_bytes_to_tokens(data);
    }
    proof {
        br.lemma_wf();
    }
    let k = read_header_byte(&mut br) as usize;
    proof {
        br.lemma_wf();
    }
    let count = match br.read_uleb() {
        Ok(v) => v as usize,
        Err(_) => {
            return Vec::new();
        },
    };
    let ghost p0 = br.pos() as int;
    let mut tokens: Vec<Token> = Vec::new();
    let mut i: usize = 0;
    proof {
        lemma_parse_prefix(bits, p0, k as nat, 0, count as nat);
        br.lemma_wf();
    }
    while i < count
        invariant
            br.wf(),
            br.data() == data@,
            bits == bytes_bits(data@),
            br.all_bits() == bits,
            k < 256,
            i <= count,
            parse_tokens(bits, p0, k as nat, count as nat) is Some,
            parse_tokens(bits, p0, k as nat, i as nat) == Some((tokens@, br.pos() as int)),
        decreases count - i,
    {
        proof {
            lemma_parse_prefix(bits, p0, k as nat, (i + 1) as nat, count as nat);
        }
        proof {
            br.lemma_wf();
        }
        let t = match read_token(&mut br, k) {
            Some(t) => t,
            None => {
                return tokens;
            },
        };
        tokens.push(t);
        i = i + 1;
        proof {
            br.lemma_wf();
        }
    }
    tokens
}


/// Deserialize tokens when `data` reads without failing (`None` otherwise).
pub fn bytes_to_tokens_checked(data: &[u8]) -> (r: Option<Vec<Token>>)
    ensures
        r is Some <==> tokens_readable(data@),
        r is Some ==> r->Some_0@ == parsed_tokens(data@)->Some_0,
{
    if data.len() as u64 >= 0x1000_0000_0000_0000 {
        return None;
    }
    let mut br = BitReader::new(data);
    let ghost bits = bytes_bits(data@);
    proof {
        br.lemma_wf();
    }
    let magic = read_header_byte(&mut br);
    if magic as u8 != RICE_FORMAT_MAGIC {
        return Some(old_bytes_to_tokens(data));
    }
    proof {
        br.lemma_wf();
    }
    let version = read_header_byte(&mut br);
    if version as u8 != RICE_FORMAT_VERSION {
        return Some(old_bytes_to_tokens(data));
    }
    proof {
        br.lemma_wf();
    }
    let k = read_header_byte(&mut br) as usize;
    proof {
        br.lemma_wf();
    }
    if !br.uleb_ahead_ok() {
        return None;
    }
    let count = match br.read_uleb() {
        Ok(v) => v as usize,
        Err(_) => {
            return None;
        },
    };
    let ghost p0 = br.pos() as int;
    let mut tokens: Vec<Token> = Vec::new();
    let mut i: usize = 0;
    proof {
        br.lemma_wf();
    }
    while i < count
        invariant
            br.wf(),
            br.data() == data@,
            bits == bytes_bits(data@),
            br.all_bits() == bits,
            k < 256,
            i <= count,
            parse_tokens(bits, p0, k as nat, i as nat) == Some((tokens@, br.pos() as int)),
            rice_header_ok(data@),
            uleb_complete(data@.subrange(rice_count_start(data@), data@.len() as int)),
            p0 == (rice_count_start(data@) + uleb_span(data@.subrange(rice_count_start(data@), data@.len() as int)))
                * 8,
            k == rice_stream_k(data@),
            count as nat == uleb_value(data@.subrange(rice_count_start(data@), data@.len() as int)) as u64 as usize
                as nat,
        decreases count - i,
    {
        proof {
            br.lemma_wf();
        }
        let t = match read_token(&mut br, k) {
            Some(t) => t,
            None => {
                proof {
                    let ghost n = (i + 1) as nat;
                    assert(parse_tokens(bits, p0, k as nat, n) is None);
                    if parse_tokens(bits, p0, k as nat, count as nat) is Some {
                        lemma_parse_prefix(bits, p0, k as nat, n, count as nat);
                    }
                    assert(parse_tokens(bits, p0, k as nat, count as nat) is None);
                    assert(rice_header_ok(data@));
                    let b = rice_count_start(data@);
                    let s = data@.subrange(b, data@.len() as int);
                    assert(uleb_complete(s));
                    assert(p0 == (b + uleb_span(s)) * 8);
                    assert(k == rice_stream_k(data@));
                    assert(count as nat == uleb_value(s) as u64 as usize as nat);
                    assert(parsed_tokens(data@) is None);
                }
                return None;
            },
        };
        tokens.push(t);
        i = i + 1;
        proof {
            br.lemma_wf();
        }
    }
    Some(tokens)
}

// ───────────────────────────── serialization roundtrip ─────────────────────────────

proof fn lemma_best_rice_k_bound(ts: Seq<Token>, kk: nat)
    ensures
        best_rice_k(ts, kk) <= kk,
    decreases kk,
{
    if kk > 0 {
        lemma_best_rice_k_bound(ts, (kk - 1) as nat);
    }
}

/// The bits of a byte below `2^n` read back as the byte.
pub proof fn lemma_take_field(bits: Seq<bool>, p: int, v: nat, n: nat)
    requires
        0 <= p,
        p + n <= bits.len(),
        bits.subrange(p, p + n) == bits_of(v, n),
        v < pow2(n),
    ensures
        take_bits(bits, p, n) == (v, p + n),
{
    lemma_bits_of_small(v, n);
}

/// One token is read back from its bits.
proof fn lemma_parse_token_at(x: Seq<bool>, t: Token, y: Seq<bool>, k: nat)
    requires
        k <= 16,
    ensures
        parse_token(x + token_bits(t, k) + y, x.len() as int, k) == Some(
            (t, (x.len() + token_bits(t, k).len()) as int),
        ),
{
    lemma2_to64();
    let bits = x + token_bits(t, k) + y;
    let p = x.len() as int;
    assert(bits[p] == token_bits(t, k)[0]);
    match t {
        Token::Literal(b) => {
            assert(bits.subrange(p + 1, p + 9) =~= bits_of(b as nat, 8));
            lemma_take_field(bits, p + 1, b as nat, 8);
        },
        Token::Match { offset, length } => {
            let pk = pow2(k);
            lemma_pow2_pos(k);
            let q = offset as nat / pk;
            let r = offset as nat % pk;
            lemma_fundamental_div_mod(offset as int, pk as int);
            let rb = rice_bits(offset as nat, k);
            assert(token_bits(t, k) =~= seq![true] + rb + bits_of(length as nat, 8));
            assert(rb.len() == q + 1 + k);
            assert forall|j: int| p + 1 <= j < p + 1 + q implies bits[j] by {
                assert(bits[j] == rb[j - p - 1]);
            }
            assert(!bits[p + 1 + q]) by {
                assert(bits[p + 1 + q] == rb[q as int]);
            }
            lemma_ones_run(bits, p + 1, q);
            assert(bits.subrange(p + 2 + q, p + 2 + q + k) =~= bits_of(r, k));
            lemma_take_field(bits, p + 2 + q, r, k);
            assert(bits.subrange(p + 2 + q + k, p + 2 + q + k + 8) =~= bits_of(length as nat, 8));
            lemma_take_field(bits, p + 2 + q + k, length as nat, 8);
            assert(q * pk <= offset);
            lemma_small_mod(q * pk, pow2(64));
        },
    }
}

/// A run of tokens is read back from its bits.
proof fn lemma_parse_tokens_at(x: Seq<bool>, ts: Seq<Token>, y: Seq<bool>, k: nat)
    requires
        k <= 16,
    ensures
        parse_tokens(x + tokens_bits(ts, k) + y, x.len() as int, k, ts.len()) == Some(
            (ts, (x.len() + tokens_bits(ts, k).len()) as int),
        ),
    decreases ts.len(),
{
    let bits = x + tokens_bits(ts, k) + y;
    if ts.len() == 0 {
        assert(ts =~= Seq::<Token>::empty());
    } else {
        let init = ts.drop_last();
        let t = ts.last();
        assert(tokens_bits(ts, k) == tokens_bits(init, k) + token_bits(t, k));
        assert(bits =~= x + tokens_bits(init, k) + (token_bits(t, k) + y));
        lemma_parse_tokens_at(x, init, token_bits(t, k) + y, k);
        let x2 = x + tokens_bits(init, k);
        assert(bits =~= x2 + token_bits(t, k) + y);
        lemma_parse_token_at(x2, t, y, k);
        assert(init.push(t) =~= ts);
    }
}

/// Bytes whose bits begin, at byte `b0`, with the bits of `u`, hold `u` there.
pub proof fn lemma_bytes_from_bits(d: Seq<u8>, b0: int, u: Seq<u8>)
    requires
        0 <= b0,
        b0 + u.len() <= d.len(),
        bytes_bits(d).subrange(8 * b0, 8 * (b0 + u.len())) == bytes_bits(u),
    ensures
        d.subrange(b0, b0 + u.len()) == u,
{
    assert forall|i: int| 0 <= i < u.len() implies d[b0 + i] == u[i] by {
        lemma_bytes_bits_byte(d, b0 + i);
        lemma_bytes_bits_byte(u, i);
        assert(bytes_bits(d).subrange(8 * (b0 + i), 8 * (b0 + i) + 8) =~= bytes_bits(u).subrange(
            8 * i,
            8 * i + 8,
        ));
    }
    assert(d.subrange(b0, b0 + u.len()) =~= u);
}

/// Reading serialized tokens gives them back: bytes carrying the serialized bit
/// stream of `ts` parse to `ts`, and a reader takes them whole where their
/// length fits its bit counter.
pub proof fn law_tokens_roundtrip(ts: Seq<Token>, d: Seq<u8>)
    requires
        ts.len() <= MAX_TOKENS,
        bytes_bits(d) == pad_bits(tokens_stream_bits(ts)),
    ensures
        parsed_tokens(d) == Some(ts),
        reader_len_ok(d.len()) ==> tokens_readable(d),
{
    lemma2_to64();
    let k = rice_k(ts);
    lemma_best_rice_k_bound(ts, 16);
    assert(k <= 16);
    let h = bits_of(RICE_FORMAT_MAGIC as nat, 8) + bits_of(RICE_FORMAT_VERSION as nat, 8) + bits_of(k, 8);
    assert(pad_bits(h) =~= h);
    let ub = uleb_bytes(ts.len());
    let u = bytes_bits(ub);
    let tb = tokens_bits(ts, k);
    let st = tokens_stream_bits(ts);
    assert(st == h + u + tb);
    let bits = bytes_bits(d);
    let z = zero_bits(((8 - st.len() % 8) % 8) as nat);
    assert(bits == st + z);
    // header
    assert(bits.subrange(0, 8) =~= bits_of(RICE_FORMAT_MAGIC as nat, 8));
    lemma_take_field(bits, 0, RICE_FORMAT_MAGIC as nat, 8);
    assert(bits.subrange(8, 16) =~= bits_of(RICE_FORMAT_VERSION as nat, 8));
    lemma_take_field(bits, 8, RICE_FORMAT_VERSION as nat, 8);
    assert(bits.subrange(16, 24) =~= bits_of(k, 8));
    lemma_take_field(bits, 16, k, 8);
    assert(rice_header_ok(d));
    assert(rice_stream_k(d) == k);
    assert(rice_count_start(d) == 3);
    // token count
    assert(u.len() == ub.len() * 8);
    assert(bits.len() == d.len() * 8);
    assert(d.len() >= 3 + ub.len());
    assert(bits.subrange(24int, 8 * (3 + ub.len() as int)) =~= u);
    lemma_bytes_from_bits(d, 3, ub);
    let s = d.subrange(3, d.len() as int);
    let rest = d.subrange(3 + ub.len() as int, d.len() as int);
    assert(s =~= ub + rest);
    lemma_uleb_roundtrip(ts.len(), rest);
    lemma_small_mod(ts.len(), pow2(64));
    assert(uleb_value(s) == ts.len());
    // tokens
    let x = h + u;
    assert(bits =~= x + tb + z);
    lemma_parse_tokens_at(x, ts, z, k);
    assert((3 + uleb_span(s)) * 8 == x.len());
    if reader_len_ok(d.len()) {
        lemma_uleb_len(ts.len());
    }
}

} // verus!
