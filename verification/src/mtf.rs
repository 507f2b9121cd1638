//! Move-To-Front transform, its chunked forms, and the bit-plane variant.
//!
//! The MTF alphabet starts as `[0, 1, ..., 255]`; each byte is replaced by its
//! current position in the alphabet and then moved to the front.
use crate::le::{le32_at, le32_bytes, lemma_le32_at_suffix, lemma_le32_roundtrip, push_u32_le, read_u32_le};
use vstd::prelude::*;

verus! {

/// Default alphabet size (256 byte values).
pub const ALPHABET_SIZE: usize = 256;

// ───────────────────────────── model ─────────────────────────────

/// The initial alphabet `[0, 1, ..., 255]`.
pub open spec fn initial_alphabet() -> Seq<u8> {
    Seq::new(256, |i: int| i as u8)
}

/// Position of `b` in `alpha` (first occurrence), or 0 when absent.
#[verifier::opaque]
pub open spec fn index_in(alpha: Seq<u8>, b: u8) -> int {
    if exists|i: int| 0 <= i < alpha.len() && alpha[i] == b {
        choose|i: int| 0 <= i < alpha.len() && alpha[i] == b && forall|t: int| 0 <= t < i ==> alpha[t] != b
    } else {
        0
    }
}

/// `alpha` with the element at `pos` moved to the front.
pub open spec fn move_front(alpha: Seq<u8>, pos: int) -> Seq<u8> {
    if pos > 0 {
        seq![alpha[pos]] + alpha.remove(pos)
    } else {
        alpha
    }
}

/// The alphabet after encoding `data`.
pub open spec fn enc_alphabet(data: Seq<u8>) -> Seq<u8>
    decreases data.len(),
{
    if data.len() == 0 {
        initial_alphabet()
    } else {
        let a = enc_alphabet(data.drop_last());
        move_front(a, index_in(a, data.last()))
    }
}

/// MTF indices of `data`.
pub open spec fn mtf_spec(data: Seq<u8>) -> Seq<u8>
    decreases data.len(),
{
    if data.len() == 0 {
        Seq::empty()
    } else {
        mtf_spec(data.drop_last()).push(
            index_in(enc_alphabet(data.drop_last()), data.last()) as u8,
        )
    }
}

/// The alphabet after decoding `idx`.
pub open spec fn dec_alphabet(idx: Seq<u8>) -> Seq<u8>
    decreases idx.len(),
{
    if idx.len() == 0 {
        initial_alphabet()
    } else {
        let a = dec_alphabet(idx.drop_last());
        let p = idx.last() as int;
        if p < a.len() {
            move_front(a, p)
        } else {
            a
        }
    }
}

/// Bytes that MTF indices `idx` decode to.
pub open spec fn unmtf_spec(idx: Seq<u8>) -> Seq<u8>
    decreases idx.len(),
{
    if idx.len() == 0 {
        Seq::empty()
    } else {
        let a = dec_alphabet(idx.drop_last());
        let p = idx.last() as int;
        unmtf_spec(idx.drop_last()).push(if p < a.len() { a[p] } else { 0 })
    }
}

/// An alphabet holding every byte, 256 entries long.
pub open spec fn full_alphabet(a: Seq<u8>) -> bool {
    a.len() == 256 && forall|b: u8| #[trigger] a.contains(b)
}

pub proof fn lemma_initial_full()
    ensures
        full_alphabet(initial_alphabet()),
{
    assert forall|b: u8| #[trigger] initial_alphabet().contains(b) by {
        assert(initial_alphabet()[b as int] == b);
    }
}

pub proof fn lemma_index_in(alpha: Seq<u8>, b: u8)
    requires
        alpha.contains(b),
    ensures
        0 <= index_in(alpha, b) < alpha.len(),
        alpha[index_in(alpha, b)] == b,
        forall|t: int| 0 <= t < index_in(alpha, b) ==> alpha[t] != b,
{
    reveal(index_in);
    let w = choose|i: int| 0 <= i < alpha.len() && alpha[i] == b;
    lemma_first_occurrence(alpha, b, w);
}

proof fn lemma_first_occurrence(alpha: Seq<u8>, b: u8, w: int)
    requires
        0 <= w < alpha.len(),
        alpha[w] == b,
    ensures
        exists|i: int| 0 <= i < alpha.len() && alpha[i] == b && forall|t: int| 0 <= t < i ==> alpha[t] != b,
    decreases w,
{
    if exists|t: int| 0 <= t < w && alpha[t] == b {
        let t = choose|t: int| 0 <= t < w && alpha[t] == b;
        lemma_first_occurrence(alpha, b, t);
    } else {
        assert(0 <= w < alpha.len() && alpha[w] == b && forall|t: int| 0 <= t < w ==> alpha[t] != b);
    }
}

pub proof fn lemma_move_front_full(a: Seq<u8>, pos: int)
    requires
        full_alphabet(a),
        0 <= pos < 256,
    ensures
        full_alphabet(move_front(a, pos)),
        move_front(a, pos)[0] == a[pos],
{
    if pos > 0 {
        let m = move_front(a, pos);
        let r = a.remove(pos);
        assert(m.len() == 256);
        assert forall|b: u8| #[trigger] m.contains(b) by {
            assert(a.contains(b));
            let i = choose|i: int| 0 <= i < a.len() && a[i] == b;
            if i == pos {
                assert(m[0] == b);
            } else if i < pos {
                assert(r[i] == a[i]);
                assert(m[i + 1] == r[i]);
            } else {
                assert(r[i - 1] == a[i]);
                assert(m[i] == r[i - 1]);
            }
        }
    }
}

pub proof fn lemma_enc_alphabet_full(data: Seq<u8>)
    ensures
        full_alphabet(enc_alphabet(data)),
    decreases data.len(),
{
    if data.len() == 0 {
        lemma_initial_full();
    } else {
        let a = enc_alphabet(data.drop_last());
        lemma_enc_alphabet_full(data.drop_last());
        lemma_index_in(a, data.last());
        lemma_move_front_full(a, index_in(a, data.last()));
    }
}

pub proof fn lemma_dec_alphabet_full(idx: Seq<u8>)
    ensures
        full_alphabet(dec_alphabet(idx)),
    decreases idx.len(),
{
    if idx.len() == 0 {
        lemma_initial_full();
    } else {
        lemma_dec_alphabet_full(idx.drop_last());
        let a = dec_alphabet(idx.drop_last());
        lemma_move_front_full(a, idx.last() as int);
    }
}

proof fn lemma_move_front_nodup(a: Seq<u8>, pos: int)
    requires
        a.no_duplicates(),
        0 <= pos < a.len(),
    ensures
        move_front(a, pos).no_duplicates(),
        move_front(a, pos).len() == a.len(),
{
    if pos > 0 {
        let m = move_front(a, pos);
        let r = a.remove(pos);
        assert forall|i: int, j: int| 0 <= i < m.len() && 0 <= j < m.len() && i != j implies m[i] != m[j] by {
            let fi = if i == 0 { pos } else if i - 1 < pos { i - 1 } else { i };
            let fj = if j == 0 { pos } else if j - 1 < pos { j - 1 } else { j };
            assert(m[i] == a[fi]);
            assert(m[j] == a[fj]);
            assert(fi != fj);
        }
    }
}

proof fn lemma_dec_alphabet_nodup(idx: Seq<u8>)
    ensures
        dec_alphabet(idx).no_duplicates(),
        dec_alphabet(idx).len() == 256,
    decreases idx.len(),
{
    if idx.len() == 0 {
        let a = initial_alphabet();
        assert forall|i: int, j: int| 0 <= i < a.len() && 0 <= j < a.len() && i != j implies a[i] != a[j] by {
            assert(a[i] == i as u8 && a[j] == j as u8);
        }
    } else {
        lemma_dec_alphabet_nodup(idx.drop_last());
        let a = dec_alphabet(idx.drop_last());
        lemma_move_front_nodup(a, idx.last() as int);
    }
}

/// MTF round trip the other way: encoding what MTF indices `idx` decode to
/// gives `idx` back, and both sides end with the same alphabet.
pub proof fn law_unmtf_roundtrip(idx: Seq<u8>)
    ensures
        mtf_spec(unmtf_spec(idx)) == idx,
        enc_alphabet(unmtf_spec(idx)) == dec_alphabet(idx),
        unmtf_spec(idx).len() == idx.len(),
    decreases idx.len(),
{
    if idx.len() > 0 {
        let x0 = idx.drop_last();
        law_unmtf_roundtrip(x0);
        lemma_dec_alphabet_nodup(x0);
        let a = dec_alphabet(x0);
        let p = idx.last() as int;
        let b = a[p];
        let d = unmtf_spec(idx);
        assert(d.drop_last() =~= unmtf_spec(x0));
        assert(d.last() == b);
        assert(a.contains(b));
        lemma_index_in(a, b);
        let q = index_in(a, b);
        if q < p {
            assert(a[q] == a[p]);
        }
        assert(q == p);
        assert(mtf_spec(d) =~= idx);
    } else {
        assert(mtf_spec(unmtf_spec(idx)) =~= idx);
    }
}

/// MTF round trip: decoding the MTF indices of `data` gives `data` back, and
/// both sides end with the same alphabet.
pub proof fn law_mtf_roundtrip(data: Seq<u8>)
    ensures
        unmtf_spec(mtf_spec(data)) == data,
        dec_alphabet(mtf_spec(data)) == enc_alphabet(data),
        mtf_spec(data).len() == data.len(),
    decreases data.len(),
{
    if data.len() > 0 {
        let d0 = data.drop_last();
        law_mtf_roundtrip(d0);
        lemma_enc_alphabet_full(d0);
        let a = enc_alphabet(d0);
        lemma_index_in(a, data.last());
        let m = mtf_spec(data);
        assert(m.drop_last() =~= mtf_spec(d0));
        assert(unmtf_spec(m) =~= data);
    } else {
        assert(unmtf_spec(mtf_spec(data)) =~= data);
    }
}

// ───────────────────────────── exec ─────────────────────────────

fn new_alphabet() -> (a: Vec<u8>)
    ensures
        a@ == initial_alphabet(),
{
    let mut a: Vec<u8> = Vec::with_capacity(256);
    let mut i: usize = 0;
    while i < 256
        invariant
            i <= 256,
            a@ == Seq::new(i as nat, |t: int| t as u8),
        decreases 256 - i,
    {
        a.push(i as u8);
        i = i + 1;
        assert(a@ =~= Seq::new(i as nat, |t: int| t as u8));
    }
    a
}

/// Move the entry at `pos` to the front.
fn to_front(a: &mut Vec<u8>, pos: usize)
    requires
        pos < old(a)@.len(),
    ensures
        final(a)@ == move_front(old(a)@, pos as int),
{
    if pos > 0 {
        let b = a.remove(pos);
        a.insert(0, b);
        assert(final(a)@ =~= move_front(old(a)@, pos as int));
    }
}

fn find_pos(a: &Vec<u8>, b: u8) -> (r: usize)
    requires
        full_alphabet(a@),
    ensures
        r == index_in(a@, b),
        r < 256,
{
    proof {
        lemma_index_in(a@, b);
    }
    let mut i: usize = 0;
    while i < a.len()
        invariant
            full_alphabet(a@),
            i <= index_in(a@, b),
            forall|t: int| 0 <= t < i ==> a@[t] != b,
        decreases a@.len() - i,
    {
        proof {
            lemma_index_in(a@, b);
        }
        if a[i] == b {
            return i;
        }
        i = i + 1;
    }
    0
}

/// Encode data using the Move-To-Front transform.
pub fn mtf_encode(data: &[u8]) -> (out: Vec<u8>)
    ensures
        out@ == mtf_spec(data@),
{
    let mut alphabet = new_alphabet();
    let mut out: Vec<u8> = Vec::with_capacity(data.len());
    let mut i: usize = 0;
    proof {
        assert(data@.subrange(0, 0) =~= Seq::<u8>::empty());
    }
    while i < data.len()
        invariant
            i <= data@.len(),
            alphabet@ == enc_alphabet(data@.subrange(0, i as int)),
            out@ == mtf_spec(data@.subrange(0, i as int)),
        decreases data@.len() - i,
    {
        let b = data[i];
        let ghost pre = data@.subrange(0, i as int);
        proof {
            lemma_enc_alphabet_full(pre);
            assert(data@.subrange(0, i + 1).drop_last() =~= pre);
        }
        let pos = find_pos(&alphabet, b);
        out.push(pos as u8);
        to_front(&mut alphabet, pos);
        proof {
            let cur = data@.subrange(0, i + 1);
            assert(cur.last() == b);
            assert(mtf_spec(cur) == mtf_spec(pre).push(index_in(enc_alphabet(pre), b) as u8));
            assert(enc_alphabet(cur) == move_front(enc_alphabet(pre), index_in(enc_alphabet(pre), b)));
        }
        i = i + 1;
    }
    assert(data@.subrange(0, data@.len() as int) =~= data@);
    out
}

/// Decode MTF indices back to bytes.
pub fn mtf_decode(mtf_indices: &[u8]) -> (out: Vec<u8>)
    ensures
        out@ == unmtf_spec(mtf_indices@),
{
    let mut alphabet = new_alphabet();
    let mut out: Vec<u8> = Vec::with_capacity(mtf_indices.len());
    let mut i: usize = 0;
    proof {
        assert(mtf_indices@.subrange(0, 0) =~= Seq::<u8>::empty());
    }
    while i < mtf_indices.len()
        invariant
            i <= mtf_indices@.len(),
            alphabet@ == dec_alphabet(mtf_indices@.subrange(0, i as int)),
            out@ == unmtf_spec(mtf_indices@.subrange(0, i as int)),
        decreases mtf_indices@.len() - i,
    {
        let idx = mtf_indices[i] as usize;
        let ghost pre = mtf_indices@.subrange(0, i as int);
        proof {
            lemma_dec_alphabet_full(pre);
            assert(mtf_indices@.subrange(0, i + 1).drop_last() =~= pre);
        }
        let b = if idx < alphabet.len() {
            alphabet[idx]
        } else {
            0
        };
        out.push(b);
        if idx > 0 && idx < alphabet.len() {
            to_front(&mut alphabet, idx);
        }
        i = i + 1;
    }
    assert(mtf_indices@.subrange(0, mtf_indices@.len() as int) =~= mtf_indices@);
    out
}

// ───────────────────────────── chunked forms ─────────────────────────────

/// Bytes of a chunk stream `[len(4)][indices]...` decoded chunk by chunk with a
/// fresh alphabet; a truncated header or chunk ends the stream.
pub open spec fn chunked_unmtf(d: Seq<u8>) -> Seq<u8>
    decreases d.len(),
{
    if d.len() < 4 {
        Seq::empty()
    } else {
        let l = le32_at(d, 0) as int;
        if 4 + l > d.len() {
            Seq::empty()
        } else {
            unmtf_spec(d.subrange(4, 4 + l)) + chunked_unmtf(d.subrange(4 + l, d.len() as int))
        }
    }
}

/// Decode MTF indices chunk by chunk, resetting the alphabet per chunk.
/// Chunk format: [chunk_len(4)][mtf_indices...] repeated.
pub fn mtf_decode_chunked(data: &[u8], _chunk_size: usize) -> (out: Vec<u8>)
    ensures
        out@ == chunked_unmtf(data@),
{
    let mut out: Vec<u8> = Vec::with_capacity(data.len());
    let mut offset: usize = 0;
    assert(data@.subrange(0, data@.len() as int) =~= data@);
    assert(out@ + chunked_unmtf(data@) =~= chunked_unmtf(data@));
    loop
        invariant
            offset <= data@.len(),
            out@ + chunked_unmtf(data@.subrange(offset as int, data@.len() as int)) == chunked_unmtf(
                data@,
            ),
        ensures
            out@ == chunked_unmtf(data@),
        decreases data@.len() - offset,
    {
        let ghost rest = data@.subrange(offset as int, data@.len() as int);
        if data.len() - offset < 4 {
            assert(out@ =~= out@ + chunked_unmtf(rest));
            break ;
        }
        let chunk_len = read_u32_le(data, offset) as usize;
        proof {
            lemma_le32_at_suffix(data@, offset as int);
        }
        if data.len() - offset - 4 < chunk_len {
            assert(out@ =~= out@ + chunked_unmtf(rest));
            break ;
        }
        let start = offset + 4;
        let chunk = slice_range(data, start, start + chunk_len);
        let dec = mtf_decode(chunk);
        assert(chunk@ =~= rest.subrange(4, 4 + chunk_len));
        assert(data@.subrange(start + chunk_len, data@.len() as int) =~= rest.subrange(
            4 + chunk_len,
            rest.len() as int,
        ));
        let ghost old_out = out@;
        out.extend_from_slice(dec.as_slice());
        offset = start + chunk_len;
        assert(chunked_unmtf(rest) == dec@ + chunked_unmtf(data@.subrange(offset as int, data@.len() as int)));
        assert(out@ + chunked_unmtf(data@.subrange(offset as int, data@.len() as int)) =~= old_out + chunked_unmtf(rest));
    }
    out
}

/// A sub-slice `d[start..end]`.
pub fn slice_range(d: &[u8], start: usize, end: usize) -> (r: &[u8])
    requires
        start <= end <= d@.len(),
    ensures
        r@ == d@.subrange(start as int, end as int),
{
    &d[start..end]
}

/// Encode `data` in chunks of `chunk_size` bytes, each with a fresh alphabet:
/// `[len(4)][indices]` per chunk.
pub open spec fn adaptive_spec(d: Seq<u8>, cs: nat) -> Seq<u8>
    decreases d.len(),
{
    if d.len() == 0 || cs == 0 {
        Seq::empty()
    } else {
        let n = if cs < d.len() { cs } else { d.len() };
        le32_bytes(n as u32) + mtf_spec(d.subrange(0, n as int)) + adaptive_spec(
            d.subrange(n as int, d.len() as int),
            cs,
        )
    }
}

/// Unpacking a packed BiT-MTF stream gives back its primary index and MTF
/// indices.
pub proof fn law_bit_mtf_pack_roundtrip(primary: u32, m: Seq<u8>)
    requires
        m.len() < 0x1000_0000,
    ensures
        ({
            let d = bit_mtf_packed(primary, m);
            &&& d.len() >= 8
            &&& d.len() >= 8 + 8 * le32_at(d, 4)
            &&& le32_at(d, 0) == primary
            &&& bit_mtf_unpacked(d) == m
        }),
{
    let d = bit_mtf_packed(primary, m);
    let l = m.len() as int;
    let rest = plane_spec(m, 0) + plane_spec(m, 1) + plane_spec(m, 2) + plane_spec(m, 3) + plane_spec(m, 4)
        + plane_spec(m, 5) + plane_spec(m, 6) + plane_spec(m, 7);
    lemma_le32_roundtrip(primary, Seq::empty(), le32_bytes(m.len() as u32) + rest);
    assert(Seq::<u8>::empty() + le32_bytes(primary) + (le32_bytes(m.len() as u32) + rest) =~= d);
    lemma_le32_roundtrip(m.len() as u32, le32_bytes(primary), rest);
    assert(le32_bytes(primary) + le32_bytes(m.len() as u32) + rest =~= d);
    assert(le32_at(d, 4) == l);
    assert(d.len() == 8 + 8 * l);
    assert forall|b: int| 0 <= b < 8 implies #[trigger] d.subrange(8 + b * l, 8 + (b + 1) * l) == plane_spec(m, b as nat) by {
        if b == 0 {
            assert(d.subrange(8, 8 + l) =~= plane_spec(m, 0));
        } else if b == 1 {
            assert(b * l == l && (b + 1) * l == 2 * l) by (nonlinear_arith) requires b == 1;
            assert(d.subrange(8 + l, 8 + 2 * l) =~= plane_spec(m, 1));
        } else if b == 2 {
            assert(b * l == 2 * l && (b + 1) * l == 3 * l) by (nonlinear_arith) requires b == 2;
            assert(d.subrange(8 + 2 * l, 8 + 3 * l) =~= plane_spec(m, 2));
        } else if b == 3 {
            assert(b * l == 3 * l && (b + 1) * l == 4 * l) by (nonlinear_arith) requires b == 3;
            assert(d.subrange(8 + 3 * l, 8 + 4 * l) =~= plane_spec(m, 3));
        } else if b == 4 {
            assert(b * l == 4 * l && (b + 1) * l == 5 * l) by (nonlinear_arith) requires b == 4;
            assert(d.subrange(8 + 4 * l, 8 + 5 * l) =~= plane_spec(m, 4));
        } else if b == 5 {
            assert(b * l == 5 * l && (b + 1) * l == 6 * l) by (nonlinear_arith) requires b == 5;
            assert(d.subrange(8 + 5 * l, 8 + 6 * l) =~= plane_spec(m, 5));
        } else if b == 6 {
            assert(b * l == 6 * l && (b + 1) * l == 7 * l) by (nonlinear_arith) requires b == 6;
            assert(d.subrange(8 + 6 * l, 8 + 7 * l) =~= plane_spec(m, 6));
        } else {
            assert(b * l == 7 * l && (b + 1) * l == 8 * l) by (nonlinear_arith) requires b == 7;
            assert(d.subrange(8 + 7 * l, 8 + 8 * l) =~= plane_spec(m, 7));
        }
    }
    assert(Seq::new(8, |b: int| unplane_spec(d.subrange(8 + b * l, 8 + (b + 1) * l))) =~= Seq::new(
        8,
        |b: int| unplane_spec(plane_spec(m, b as nat)),
    ));
    law_bit_mtf_roundtrip(m);
}

/// Pack MTF output: [u32 original_len][mtf_indices].
pub open spec fn pack_mtf_spec(data_len: nat, mtf: Seq<u8>) -> Seq<u8> {
    le32_bytes(data_len as u32) + mtf
}

/// Encode data in chunks with a fresh MTF alphabet per chunk.
/// Returns: [chunk1_len(4)][mtf1...][chunk2_len(4)][mtf2...]...; empty input or
/// a zero chunk size give a single packed block instead.
pub fn mtf_encode_adaptive(data: &[u8], chunk_size: usize) -> (out: Vec<u8>)
    ensures
        data@.len() == 0 || chunk_size == 0 ==> out@ == pack_mtf_spec(data@.len(), mtf_spec(data@)),
        data@.len() > 0 && chunk_size > 0 ==> out@ == adaptive_spec(data@, chunk_size as nat),
{
    if data.len() == 0 || chunk_size == 0 {
        let m = mtf_encode(data);
        return pack_mtf(data, m.as_slice());
    }
    let ghost cs = chunk_size as nat;
    let mut out: Vec<u8> = Vec::new();
    let mut start: usize = 0;
    assert(data@.subrange(0, data@.len() as int) =~= data@);
    assert(out@ + adaptive_spec(data@, cs) =~= adaptive_spec(data@, cs));
    while start < data.len()
        invariant
            start <= data@.len(),
            chunk_size > 0,
            cs == chunk_size as nat,
            out@ + adaptive_spec(data@.subrange(start as int, data@.len() as int), cs)
                == adaptive_spec(data@, cs),
        decreases data@.len() - start,
    {
        let ghost rest = data@.subrange(start as int, data@.len() as int);
        let n = if chunk_size < data.len() - start {
            chunk_size
        } else {
            data.len() - start
        };
        let chunk = slice_range(data, start, start + n);
        let m = mtf_encode(chunk);
        proof {
            law_mtf_roundtrip(chunk@);
        }
        let ghost old_out = out@;
        push_u32_le(&mut out, m.len() as u32);
        out.extend_from_slice(m.as_slice());
        proof {
            let tail = data@.subrange(start + n, data@.len() as int);
            assert(chunk@ =~= rest.subrange(0, n as int));
            assert(tail =~= rest.subrange(n as int, rest.len() as int));
            lemma_adaptive_step(rest, cs);
            let a = le32_bytes(n as u32);
            assert(out@ =~= old_out + a + m@);
            assert(old_out + a + m@ + adaptive_spec(tail, cs) =~= old_out + (a + m@ + adaptive_spec(tail, cs)));
        }
        start = start + n;
    }
    assert(data@.subrange(start as int, data@.len() as int) =~= Seq::<u8>::empty());
    assert(out@ =~= out@ + adaptive_spec(Seq::<u8>::empty(), cs));
    out
}

proof fn lemma_adaptive_step(d: Seq<u8>, cs: nat)
    requires
        d.len() > 0,
        cs > 0,
    ensures
        ({
            let n = if cs < d.len() { cs } else { d.len() };
            adaptive_spec(d, cs) == le32_bytes(n as u32) + mtf_spec(d.subrange(0, n as int))
                + adaptive_spec(d.subrange(n as int, d.len() as int), cs)
        }),
{
}

/// Chunked MTF round trip: decoding the adaptive encoding gives the data back
/// (chunk sizes fit the 4-byte length field).
pub proof fn law_adaptive_roundtrip(d: Seq<u8>, cs: nat)
    requires
        0 < cs < 0x1_0000_0000,
    ensures
        chunked_unmtf(adaptive_spec(d, cs)) == d,
    decreases d.len(),
{
    if d.len() == 0 {
        assert(chunked_unmtf(Seq::<u8>::empty()) =~= Seq::<u8>::empty());
        assert(d =~= Seq::<u8>::empty());
    } else {
        let n = if cs < d.len() { cs } else { d.len() };
        let c = d.subrange(0, n as int);
        let m = mtf_spec(c);
        law_mtf_roundtrip(c);
        let tail = adaptive_spec(d.subrange(n as int, d.len() as int), cs);
        law_adaptive_roundtrip(d.subrange(n as int, d.len() as int), cs);
        let e = adaptive_spec(d, cs);
        assert(e =~= le32_bytes(n as u32) + (m + tail));
        lemma_le32_roundtrip(n as u32, Seq::<u8>::empty(), m + tail);
        assert(Seq::<u8>::empty() + le32_bytes(n as u32) + (m + tail) =~= e);
        assert(e.subrange(4, 4 + n as int) =~= m);
        assert(e.subrange(4 + n as int, e.len() as int) =~= tail);
        assert(c + d.subrange(n as int, d.len() as int) =~= d);
    }
}

/// MTF over the chunks of a chunked BWT stream (`count` chunks left, each
/// `[len(4)][primary(4)][last(len)]`): `[mtf_len(4)][mtf(primary ++ last)]` per
/// chunk; a truncated chunk ends the output.
pub open spec fn bwt_chunks_mtf(d: Seq<u8>, count: nat) -> Seq<u8>
    decreases count,
{
    if count == 0 || d.len() < 8 {
        Seq::empty()
    } else {
        let l = le32_at(d, 0) as int;
        if 4 + 4 + l > d.len() {
            Seq::empty()
        } else {
            let pal = d.subrange(4, 8 + l);
            le32_bytes(pal.len() as u32) + mtf_spec(pal) + bwt_chunks_mtf(
                d.subrange(8 + l, d.len() as int),
                (count - 1) as nat,
            )
        }
    }
}

proof fn lemma_bwt_chunks_mtf_step(d: Seq<u8>, count: nat)
    requires
        count > 0,
        d.len() >= 8,
        8 + le32_at(d, 0) <= d.len(),
    ensures
        ({
            let l = le32_at(d, 0) as int;
            bwt_chunks_mtf(d, count) == le32_bytes((4 + l) as u32) + mtf_spec(d.subrange(4, 8 + l))
                + bwt_chunks_mtf(d.subrange(8 + l, d.len() as int), (count - 1) as nat)
        }),
{
}

/// MTF of a chunked BWT stream, chunk by chunk with a fresh alphabet: each
/// chunk becomes `[len(4)][MTF of primary and last column]`; a stream with no
/// plausible chunk count is packed whole.
pub open spec fn bwt_chunked_mtf_bytes(d: Seq<u8>) -> Seq<u8> {
    if d.len() < 4 || le32_at(d, 0) == 0 || le32_at(d, 0) > 1_000_000 {
        pack_mtf_spec(d.len(), mtf_spec(d))
    } else {
        bwt_chunks_mtf(d.subrange(4, d.len() as int), le32_at(d, 0) as nat)
    }
}

/// Apply MTF to each BWT chunk of a chunked BWT stream with a fresh alphabet.
pub fn mtf_encode_bwt_chunked(bwt_packed: &[u8], _chunk_size: usize) -> (out: Vec<u8>)
    ensures
        out@ == bwt_chunked_mtf_bytes(bwt_packed@),
{
    if bwt_packed.len() < 4 {
        let m = mtf_encode(bwt_packed);
        return pack_mtf(bwt_packed, m.as_slice());
    }
    let num_chunks = read_u32_le(bwt_packed, 0) as usize;
    if num_chunks == 0 || num_chunks > 1_000_000 {
        let m = mtf_encode(bwt_packed);
        return pack_mtf(bwt_packed, m.as_slice());
    }
    let ghost d = bwt_packed@;
    let ghost full = d.subrange(4, d.len() as int);
    let mut out: Vec<u8> = Vec::new();
    let mut offset: usize = 4;
    let mut c: usize = 0;
    assert(out@ + bwt_chunks_mtf(full, num_chunks as nat) =~= bwt_chunks_mtf(full, num_chunks as nat));
    loop
        invariant
            4 <= offset <= d.len(),
            d == bwt_packed@,
            full == d.subrange(4, d.len() as int),
            c <= num_chunks,
            out@ + bwt_chunks_mtf(d.subrange(offset as int, d.len() as int), (num_chunks - c) as nat)
                == bwt_chunks_mtf(full, num_chunks as nat),
        ensures
            out@ == bwt_chunks_mtf(full, num_chunks as nat),
        decreases num_chunks - c,
    {
        let ghost rest = d.subrange(offset as int, d.len() as int);
        if c >= num_chunks {
            assert(out@ =~= out@ + bwt_chunks_mtf(rest, 0));
            break ;
        }
        if bwt_packed.len() - offset < 8 {
            assert(out@ =~= out@ + bwt_chunks_mtf(rest, (num_chunks - c) as nat));
            break ;
        }
        let chunk_len = read_u32_le(bwt_packed, offset) as usize;
        proof {
            lemma_le32_at_suffix(d, offset as int);
        }
        if bwt_packed.len() - offset - 8 < chunk_len {
            assert(out@ =~= out@ + bwt_chunks_mtf(rest, (num_chunks - c) as nat));
            break ;
        }
        let pal = slice_range(bwt_packed, offset + 4, offset + 8 + chunk_len);
        let m = mtf_encode(pal);
        let ghost old_out = out@;
        push_u32_le(&mut out, m.len() as u32);
        out.extend_from_slice(m.as_slice());
        proof {
            law_mtf_roundtrip(pal@);
            let tail = d.subrange(offset + 8 + chunk_len, d.len() as int);
            assert(pal@ =~= rest.subrange(4, 8 + chunk_len));
            assert(tail =~= rest.subrange(8 + chunk_len, rest.len() as int));
            lemma_bwt_chunks_mtf_step(rest, (num_chunks - c) as nat);
            let a = le32_bytes(m.len() as u32);
            let t = bwt_chunks_mtf(tail, (num_chunks - c - 1) as nat);
            assert(out@ =~= old_out + a + m@);
            assert(old_out + a + m@ + t =~= old_out + (a + m@ + t));
        }
        offset = offset + 8 + chunk_len;
        c = c + 1;
    }
    out
}

/// The (primary, last column) chunks recovered from a chunk stream
/// `[mtf_len(4)][mtf...]`: each decoded chunk must hold the 4 primary bytes.
pub open spec fn mtf_bwt_chunks(d: Seq<u8>) -> Seq<(u32, Seq<u8>)>
    decreases d.len(),
{
    if d.len() < 4 {
        Seq::empty()
    } else {
        let l = le32_at(d, 0) as int;
        if 4 + l > d.len() {
            Seq::empty()
        } else {
            let dec = unmtf_spec(d.subrange(4, 4 + l));
            if dec.len() < 4 {
                Seq::empty()
            } else {
                seq![(le32_at(dec, 0), dec.subrange(4, dec.len() as int))] + mtf_bwt_chunks(
                    d.subrange(4 + l, d.len() as int),
                )
            }
        }
    }
}

/// A chunked BWT stream: [count(4)] then [len(4)][primary(4)][last] per chunk.
pub open spec fn bwt_chunks_bytes(chunks: Seq<(u32, Seq<u8>)>) -> Seq<u8>
    decreases chunks.len(),
{
    if chunks.len() == 0 {
        Seq::empty()
    } else {
        bwt_chunks_bytes(chunks.drop_last()) + le32_bytes(chunks.last().1.len() as u32) + le32_bytes(
            chunks.last().0,
        ) + chunks.last().1
    }
}

proof fn lemma_mtf_bwt_chunks_step(d: Seq<u8>)
    requires
        d.len() >= 4,
        4 + le32_at(d, 0) <= d.len(),
        unmtf_spec(d.subrange(4, 4 + le32_at(d, 0) as int)).len() >= 4,
    ensures
        ({
            let l = le32_at(d, 0) as int;
            let dec = unmtf_spec(d.subrange(4, 4 + l));
            mtf_bwt_chunks(d) == seq![(le32_at(dec, 0), dec.subrange(4, dec.len() as int))]
                + mtf_bwt_chunks(d.subrange(4 + l, d.len() as int))
        }),
{
}

proof fn lemma_bwt_chunks_bytes_push(done: Seq<(u32, Seq<u8>)>, item: (u32, Seq<u8>))
    ensures
        bwt_chunks_bytes(done.push(item)) == bwt_chunks_bytes(done) + le32_bytes(item.1.len() as u32)
            + le32_bytes(item.0) + item.1,
{
    assert(done.push(item).drop_last() =~= done);
}

/// Decode MTF data produced by `mtf_encode_bwt_chunked`, rebuilding the chunked
/// BWT stream [num_chunks(4)][chunk: [len(4)][primary(4)][last...]]...
pub fn mtf_decode_bwt_chunked(mtf_data: &[u8]) -> (out: Vec<u8>)
    ensures
        mtf_data@.len() == 0 ==> out@ == Seq::<u8>::empty(),
        mtf_data@.len() > 0 ==> ({
            let ch = mtf_bwt_chunks(mtf_data@);
            out@ == le32_bytes(ch.len() as u32) + bwt_chunks_bytes(ch)
        }),
{
    if mtf_data.len() == 0 {
        return Vec::new();
    }
    let ghost d = mtf_data@;
    let mut body: Vec<u8> = Vec::new();
    let mut count: usize = 0;
    let ghost mut done: Seq<(u32, Seq<u8>)> = Seq::empty();
    let mut offset: usize = 0;
    assert(d.subrange(0, d.len() as int) =~= d);
    assert(done + mtf_bwt_chunks(d) =~= mtf_bwt_chunks(d));
    loop
        invariant
            offset <= d.len(),
            d == mtf_data@,
            count == done.len(),
            count <= offset,
            body@ == bwt_chunks_bytes(done),
            done + mtf_bwt_chunks(d.subrange(offset as int, d.len() as int)) == mtf_bwt_chunks(d),
        ensures
            count == done.len(),
            body@ == bwt_chunks_bytes(done),
            done == mtf_bwt_chunks(d),
        decreases d.len() - offset,
    {
        let ghost rest = d.subrange(offset as int, d.len() as int);
        if mtf_data.len() - offset < 4 {
            assert(done =~= done + mtf_bwt_chunks(rest));
            break ;
        }
        let l = read_u32_le(mtf_data, offset) as usize;
        proof {
            lemma_le32_at_suffix(d, offset as int);
        }
        if mtf_data.len() - offset - 4 < l {
            assert(done =~= done + mtf_bwt_chunks(rest));
            break ;
        }
        let chunk = slice_range(mtf_data, offset + 4, offset + 4 + l);
        assert(chunk@ =~= rest.subrange(4, 4 + l));
        let dec = mtf_decode(chunk);
        if dec.len() < 4 {
            assert(done =~= done + mtf_bwt_chunks(rest));
            break ;
        }
        let primary = read_u32_le(dec.as_slice(), 0);
        let last = slice_range(dec.as_slice(), 4, dec.len());
        let ghost item = (primary, last@);
        push_u32_le(&mut body, last.len() as u32);
        push_u32_le(&mut body, primary);
        body.extend_from_slice(last);
        proof {
            let nd = done.push(item);
            lemma_bwt_chunks_bytes_push(done, item);
            assert(body@ =~= bwt_chunks_bytes(nd));
            let tail = d.subrange(offset + 4 + l, d.len() as int);
            assert(tail =~= rest.subrange(4 + l, rest.len() as int));
            lemma_mtf_bwt_chunks_step(rest);
            assert(nd + mtf_bwt_chunks(tail) =~= done + mtf_bwt_chunks(rest));
            done = nd;
        }
        count = count + 1;
        offset = offset + 4 + l;
    }
    let mut out: Vec<u8> = Vec::new();
    push_u32_le(&mut out, count as u32);
    out.extend_from_slice(body.as_slice());
    out
}

// ───────────────────────────── BiT-MTF ─────────────────────────────

/// Bit `b` of byte `x`.
pub open spec fn bit_at(x: u8, b: nat) -> u8 {
    ((x as nat / vstd::arithmetic::power2::pow2(b)) % 2) as u8
}

/// Two-symbol MTF of bit plane `b`: 1 where the bit differs from the
/// previous one (the first compared against 0), else 0.
pub open spec fn plane_spec(idx: Seq<u8>, b: nat) -> Seq<u8> {
    Seq::new(
        idx.len(),
        |t: int|
            if bit_at(idx[t], b) != (if t == 0 { 0u8 } else { bit_at(idx[t - 1], b) }) {
                1u8
            } else {
                0u8
            },
    )
}

proof fn lemma_bit_at(x: u8, b: u8)
    requires
        b < 8,
    ensures
        ((x >> b) & 1) as nat == bit_at(x, b as nat),
        bit_at(x, b as nat) <= 1,
{
    vstd::bits::lemma_u8_shr_is_div(x, b);
    let s = x >> b;
    assert(s & 1 == s % 2) by (bit_vector);
}

fn bit_plane_mtf(mtf_indices: &[u8], b: u8) -> (out: Vec<u8>)
    requires
        b < 8,
    ensures
        out@ == plane_spec(mtf_indices@, b as nat),
{
    let mut out: Vec<u8> = Vec::with_capacity(mtf_indices.len());
    let mut front: u8 = 0;
    let mut t: usize = 0;
    while t < mtf_indices.len()
        invariant
            t <= mtf_indices@.len(),
            b < 8,
            front == (if t == 0 { 0u8 } else { bit_at(mtf_indices@[t - 1], b as nat) }),
            out@ == plane_spec(mtf_indices@, b as nat).subrange(0, t as int),
        decreases mtf_indices@.len() - t,
    {
        let x = (mtf_indices[t] >> b) & 1;
        proof {
            lemma_bit_at(mtf_indices@[t as int], b);
        }
        out.push(if x != front { 1 } else { 0 });
        front = x;
        t = t + 1;
        assert(out@ =~= plane_spec(mtf_indices@, b as nat).subrange(0, t as int));
    }
    assert(plane_spec(mtf_indices@, b as nat).subrange(0, t as int) =~= plane_spec(mtf_indices@, b as nat));
    out
}

/// Encode MTF indices with BiT-MTF: 8 bit planes (LSB first), each passed
/// through a two-symbol MTF.
pub fn bit_mtf_encode(mtf_indices: &[u8]) -> (r: [Vec<u8>; 8])
    ensures
        forall|b: int| 0 <= b < 8 ==> #[trigger] r[b]@ == plane_spec(mtf_indices@, b as nat),
{
    [
        bit_plane_mtf(mtf_indices, 0),
        bit_plane_mtf(mtf_indices, 1),
        bit_plane_mtf(mtf_indices, 2),
        bit_plane_mtf(mtf_indices, 3),
        bit_plane_mtf(mtf_indices, 4),
        bit_plane_mtf(mtf_indices, 5),
        bit_plane_mtf(mtf_indices, 6),
        bit_plane_mtf(mtf_indices, 7),
    ]
}

/// Inverse two-symbol MTF of a plane: the current front bit is output for 0,
/// the other bit for 1 (which then moves to the front), and 0 for anything else.
pub open spec fn unplane_front(p: Seq<u8>) -> u8
    decreases p.len(),
{
    if p.len() == 0 {
        0
    } else {
        let f = unplane_front(p.drop_last());
        if p.last() == 1 {
            (1 - f) as u8
        } else {
            f
        }
    }
}

pub open spec fn unplane_spec(p: Seq<u8>) -> Seq<u8> {
    Seq::new(
        p.len(),
        |t: int|
            {
                let f = unplane_front(p.subrange(0, t));
                if p[t] == 0 {
                    f
                } else if p[t] == 1 {
                    (1 - f) as u8
                } else {
                    0u8
                }
            },
    )
}

pub proof fn lemma_unplane_front_bit(p: Seq<u8>)
    ensures
        unplane_front(p) <= 1,
    decreases p.len(),
{
    if p.len() > 0 {
        lemma_unplane_front_bit(p.drop_last());
    }
}

fn bit_plane_unmtf(p: &[u8]) -> (out: Vec<u8>)
    ensures
        out@ == unplane_spec(p@),
        forall|t: int| 0 <= t < out@.len() ==> out@[t] <= 1,
{
    let mut out: Vec<u8> = Vec::with_capacity(p.len());
    let mut front: u8 = 0;
    let mut t: usize = 0;
    while t < p.len()
        invariant
            t <= p@.len(),
            front == unplane_front(p@.subrange(0, t as int)),
            front <= 1,
            out@ == unplane_spec(p@).subrange(0, t as int),
            forall|i: int| 0 <= i < out@.len() ==> out@[i] <= 1,
        decreases p@.len() - t,
    {
        let v = p[t];
        proof {
            assert(p@.subrange(0, t + 1).drop_last() =~= p@.subrange(0, t as int));
        }
        let b = if v == 0 {
            front
        } else if v == 1 {
            1 - front
        } else {
            0
        };
        out.push(b);
        if v == 1 {
            front = 1 - front;
        }
        t = t + 1;
        assert(out@ =~= unplane_spec(p@).subrange(0, t as int));
    }
    assert(unplane_spec(p@).subrange(0, t as int) =~= unplane_spec(p@));
    out
}

/// Byte `t` rebuilt from 8 recovered bit planes.
pub open spec fn join_bits(planes: Seq<Seq<u8>>, t: int) -> u8 {
    (planes[0][t] + 2 * planes[1][t] + 4 * planes[2][t] + 8 * planes[3][t] + 16 * planes[4][t] + 32
        * planes[5][t] + 64 * planes[6][t] + 128 * planes[7][t]) as u8
}

/// Decode BiT-MTF planes back to `original_len` MTF indices.
pub fn bit_mtf_decode(bit_streams: &[Vec<u8>; 8], original_len: usize) -> (out: Vec<u8>)
    requires
        forall|b: int| 0 <= b < 8 ==> original_len <= #[trigger] bit_streams[b]@.len(),
    ensures
        out@ == Seq::new(
            original_len as nat,
            |t: int|
                join_bits(
                    Seq::new(8, |b: int| unplane_spec(bit_streams[b]@)),
                    t,
                ),
        ),
{
    let r0 = bit_plane_unmtf(bit_streams[0].as_slice());
    let r1 = bit_plane_unmtf(bit_streams[1].as_slice());
    let r2 = bit_plane_unmtf(bit_streams[2].as_slice());
    let r3 = bit_plane_unmtf(bit_streams[3].as_slice());
    let r4 = bit_plane_unmtf(bit_streams[4].as_slice());
    let r5 = bit_plane_unmtf(bit_streams[5].as_slice());
    let r6 = bit_plane_unmtf(bit_streams[6].as_slice());
    let r7 = bit_plane_unmtf(bit_streams[7].as_slice());
    let ghost planes = Seq::new(8, |b: int| unplane_spec(bit_streams[b]@));
    assert(planes[0] == r0@ && planes[1] == r1@ && planes[2] == r2@ && planes[3] == r3@);
    assert(planes[4] == r4@ && planes[5] == r5@ && planes[6] == r6@ && planes[7] == r7@);
    let mut out: Vec<u8> = Vec::with_capacity(original_len);
    let mut t: usize = 0;
    while t < original_len
        invariant
            t <= original_len,
            original_len <= r0@.len() && original_len <= r1@.len() && original_len <= r2@.len()
                && original_len <= r3@.len(),
            original_len <= r4@.len() && original_len <= r5@.len() && original_len <= r6@.len()
                && original_len <= r7@.len(),
            forall|i: int| 0 <= i < r0@.len() ==> r0@[i] <= 1,
            forall|i: int| 0 <= i < r1@.len() ==> r1@[i] <= 1,
            forall|i: int| 0 <= i < r2@.len() ==> r2@[i] <= 1,
            forall|i: int| 0 <= i < r3@.len() ==> r3@[i] <= 1,
            forall|i: int| 0 <= i < r4@.len() ==> r4@[i] <= 1,
            forall|i: int| 0 <= i < r5@.len() ==> r5@[i] <= 1,
            forall|i: int| 0 <= i < r6@.len() ==> r6@[i] <= 1,
            forall|i: int| 0 <= i < r7@.len() ==> r7@[i] <= 1,
            planes[0] == r0@ && planes[1] == r1@ && planes[2] == r2@ && planes[3] == r3@,
            planes[4] == r4@ && planes[5] == r5@ && planes[6] == r6@ && planes[7] == r7@,
            out@ == Seq::new(t as nat, |i: int| join_bits(planes, i)),
        decreases original_len - t,
    {
        let v = r0[t] + 2 * r1[t] + 4 * r2[t] + 8 * r3[t] + 16 * r4[t] + 32 * r5[t] + 64 * r6[t] + 128
            * r7[t];
        out.push(v);
        t = t + 1;
        assert(out@ =~= Seq::new(t as nat, |i: int| join_bits(planes, i)));
    }
    out
}

/// BiT-MTF round trip: the planes of `x` decode back to `x`.
pub proof fn law_bit_mtf_roundtrip(x: Seq<u8>)
    ensures
        Seq::new(
            x.len(),
            |t: int| join_bits(Seq::new(8, |b: int| unplane_spec(plane_spec(x, b as nat))), t),
        ) == x,
{
    let planes = Seq::new(8, |b: int| unplane_spec(plane_spec(x, b as nat)));
    assert forall|b: int, t: int| 0 <= b < 8 && 0 <= t < x.len() implies #[trigger] planes[b][t]
        == bit_at(x[t], b as nat) by {
        lemma_unplane_plane(x, b as nat, t);
    }
    assert forall|t: int| 0 <= t < x.len() implies join_bits(planes, t) == x[t] by {
        lemma_join_bits(x[t]);
        assert(planes[0][t] == bit_at(x[t], 0));
        assert(planes[1][t] == bit_at(x[t], 1));
        assert(planes[2][t] == bit_at(x[t], 2));
        assert(planes[3][t] == bit_at(x[t], 3));
        assert(planes[4][t] == bit_at(x[t], 4));
        assert(planes[5][t] == bit_at(x[t], 5));
        assert(planes[6][t] == bit_at(x[t], 6));
        assert(planes[7][t] == bit_at(x[t], 7));
    }
    assert(Seq::new(x.len(), |t: int| join_bits(planes, t)) =~= x);
}

proof fn lemma_join_bits(x: u8)
    ensures
        x == bit_at(x, 0) + 2 * bit_at(x, 1) + 4 * bit_at(x, 2) + 8 * bit_at(x, 3) + 16 * bit_at(x, 4)
            + 32 * bit_at(x, 5) + 64 * bit_at(x, 6) + 128 * bit_at(x, 7),
{
    vstd::arithmetic::power2::lemma2_to64();
    let v = x as nat;
    assert(v == v % 2 + 2 * ((v / 2) % 2) + 4 * ((v / 4) % 2) + 8 * ((v / 8) % 2) + 16 * ((v / 16) % 2)
        + 32 * ((v / 32) % 2) + 64 * ((v / 64) % 2) + 128 * ((v / 128) % 2)) by (nonlinear_arith)
        requires
            v < 256,
    ;
    assert(v / 1 == v);
}

/// The recovered front bit after `t` plane symbols is the previous data bit.
proof fn lemma_unplane_plane(x: Seq<u8>, b: nat, t: int)
    requires
        0 <= t < x.len(),
        b < 8,
    ensures
        unplane_spec(plane_spec(x, b))[t] == bit_at(x[t], b),
    decreases t,
{
    let p = plane_spec(x, b);
    lemma_front_is_prev(x, b, t);
    lemma_bit_le1(x[t], b);
    if t > 0 {
        lemma_bit_le1(x[t - 1], b);
    }
}

proof fn lemma_bit_le1(x: u8, b: nat)
    ensures
        bit_at(x, b) <= 1,
{
}

proof fn lemma_front_is_prev(x: Seq<u8>, b: nat, t: int)
    requires
        0 <= t <= x.len(),
    ensures
        unplane_front(plane_spec(x, b).subrange(0, t)) == (if t == 0 { 0u8 } else { bit_at(
            x[t - 1],
            b,
        ) }),
    decreases t,
{
    let p = plane_spec(x, b);
    if t > 0 {
        lemma_front_is_prev(x, b, t - 1);
        assert(p.subrange(0, t).drop_last() =~= p.subrange(0, t - 1));
        lemma_bit_le1(x[t - 1], b);
        if t > 1 {
            lemma_bit_le1(x[t - 2], b);
        }
    }
}

/// Packed BiT-MTF layout: [primary(4)][orig_len(4)][bit0 plane]...[bit7 plane].
pub open spec fn bit_mtf_packed(primary: u32, m: Seq<u8>) -> Seq<u8> {
    le32_bytes(primary) + le32_bytes(m.len() as u32) + plane_spec(m, 0) + plane_spec(m, 1) + plane_spec(m, 2)
        + plane_spec(m, 3) + plane_spec(m, 4) + plane_spec(m, 5) + plane_spec(m, 6) + plane_spec(m, 7)
}

/// The MTF indices that the eight planes of a packed BiT-MTF stream `d`
/// give, each plane as long as the recorded length.
pub open spec fn bit_mtf_unpacked(d: Seq<u8>) -> Seq<u8> {
    let l = le32_at(d, 4) as int;
    Seq::new(l as nat, |t: int| join_bits(Seq::new(8, |b: int| unplane_spec(d.subrange(8 + b * l, 8 + (b + 1) * l))), t))
}

/// Pack BiT-MTF: [primary(4)][orig_len(4)][bit0 plane]...[bit7 plane].
pub fn bit_mtf_pack(primary: u32, mtf_indices: &[u8]) -> (out: Vec<u8>)
    ensures
        out@ == bit_mtf_packed(primary, mtf_indices@),
{
    let planes = bit_mtf_encode(mtf_indices);
    let mut out: Vec<u8> = Vec::new();
    push_u32_le(&mut out, primary);
    push_u32_le(&mut out, mtf_indices.len() as u32);
    out.extend_from_slice(planes[0].as_slice());
    out.extend_from_slice(planes[1].as_slice());
    out.extend_from_slice(planes[2].as_slice());
    out.extend_from_slice(planes[3].as_slice());
    out.extend_from_slice(planes[4].as_slice());
    out.extend_from_slice(planes[5].as_slice());
    out.extend_from_slice(planes[6].as_slice());
    out.extend_from_slice(planes[7].as_slice());
    out
}

/// Unpack BiT-MTF: None when the header or the planes are cut short.
pub fn bit_mtf_unpack(data: &[u8]) -> (r: Option<(u32, Vec<u8>)>)
    ensures
        ({
            let d = data@;
            let l = if d.len() >= 8 { le32_at(d, 4) as int } else { 0 };
            if d.len() < 8 || d.len() < 8 + 8 * l {
                r is None
            } else {
                &&& r is Some
                &&& r->Some_0.0 == le32_at(d, 0)
                &&& r->Some_0.1@ == bit_mtf_unpacked(d)
            }
        }),
{
    if data.len() < 8 {
        return None;
    }
    let primary = read_u32_le(data, 0);
    let orig_len = read_u32_le(data, 4) as usize;
    if (data.len() as u64) < 8 + 8 * (orig_len as u64) {
        return None;
    }
    let l = orig_len;
    let p0 = vstd::slice::slice_to_vec(slice_range(data, 8, 8 + l));
    let p1 = vstd::slice::slice_to_vec(slice_range(data, 8 + l, 8 + 2 * l));
    let p2 = vstd::slice::slice_to_vec(slice_range(data, 8 + 2 * l, 8 + 3 * l));
    let p3 = vstd::slice::slice_to_vec(slice_range(data, 8 + 3 * l, 8 + 4 * l));
    let p4 = vstd::slice::slice_to_vec(slice_range(data, 8 + 4 * l, 8 + 5 * l));
    let p5 = vstd::slice::slice_to_vec(slice_range(data, 8 + 5 * l, 8 + 6 * l));
    let p6 = vstd::slice::slice_to_vec(slice_range(data, 8 + 6 * l, 8 + 7 * l));
    let p7 = vstd::slice::slice_to_vec(slice_range(data, 8 + 7 * l, 8 + 8 * l));
    let planes: [Vec<u8>; 8] = [p0, p1, p2, p3, p4, p5, p6, p7];
    let ghost d = data@;
    assert forall|b: int| 0 <= b < 8 implies #[trigger] planes[b]@ == d.subrange(8 + b * l, 8 + (b + 1) * l) by {
        if b == 0 {
        } else if b == 1 {
            assert(b * l == l && (b + 1) * l == 2 * l) by (nonlinear_arith) requires b == 1;
        } else if b == 2 {
            assert(b * l == 2 * l && (b + 1) * l == 3 * l) by (nonlinear_arith) requires b == 2;
        } else if b == 3 {
            assert(b * l == 3 * l && (b + 1) * l == 4 * l) by (nonlinear_arith) requires b == 3;
        } else if b == 4 {
            assert(b * l == 4 * l && (b + 1) * l == 5 * l) by (nonlinear_arith) requires b == 4;
        } else if b == 5 {
            assert(b * l == 5 * l && (b + 1) * l == 6 * l) by (nonlinear_arith) requires b == 5;
        } else if b == 6 {
            assert(b * l == 6 * l && (b + 1) * l == 7 * l) by (nonlinear_arith) requires b == 6;
        } else {
            assert(b * l == 7 * l && (b + 1) * l == 8 * l) by (nonlinear_arith) requires b == 7;
        }
    }
    assert(Seq::new(8, |b: int| unplane_spec(planes[b]@)) =~= Seq::new(
        8,
        |b: int| unplane_spec(d.subrange(8 + b * l, 8 + (b + 1) * l)),
    ));
    let m = bit_mtf_decode(&planes, l);
    assert(m@ =~= bit_mtf_unpacked(d));
    Some((primary, m))
}

/// Pack MTF output: [u32 original_len][mtf_indices].
pub fn pack_mtf(data: &[u8], mtf_data: &[u8]) -> (out: Vec<u8>)
    ensures
        out@ == pack_mtf_spec(data@.len(), mtf_data@),
{
    let mut out: Vec<u8> = Vec::new();
    push_u32_le(&mut out, data.len() as u32);
    out.extend_from_slice(mtf_data);
    assert(out@ =~= pack_mtf_spec(data@.len(), mtf_data@));
    out
}

/// Unpack MTF: (original_len, mtf_indices); (0, empty) when shorter than 4 bytes.
pub fn unpack_mtf(data: &[u8]) -> (r: (usize, &[u8]))
    ensures
        data@.len() < 4 ==> r.0 == 0 && r.1@ == Seq::<u8>::empty(),
        data@.len() >= 4 ==> r.0 == le32_at(data@, 0) && r.1@ == data@.subrange(4, data@.len() as int),
{
    if data.len() < 4 {
        return (0, slice_range(data, 0, 0));
    }
    let orig_len = read_u32_le(data, 0) as usize;
    (orig_len, slice_range(data, 4, data.len()))
}

} // verus!
