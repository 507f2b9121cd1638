//! Text pipeline: BWT of the data, MTF of the last column, optional run-length
//! coding of the MTF indices, then the SSP codec.
//!
//! Archive: `"SSP5"`, version, sequence length (one byte) and sequence
//! (u64 LE each), block bits, BWT primary (u32 LE), run-length flag, ULEB
//! length of the coded stream, then its SSP archive.
use crate::bit_io::{read_uleb_at, uleb_bytes, uleb_complete, uleb_fits_at, uleb_safe, uleb_span, uleb_value};
use crate::bwt::{bwt_decode, bwt_encode, bwt_inverse, bwt_last, bwt_primary, count_eq};
use crate::le::{le32_at, le32_bytes, push_u32_le, read_u32_le};
use crate::mtf::{mtf_decode, mtf_encode, mtf_spec, slice_range, unmtf_spec};
use crate::ssp5_pipeline::{u64s_at, u64s_bytes};
use crate::ssp_codec::{ssp_decoded_as, MAX_S_LEN, SSP5_MAGIC, SSP5_VERSION};
use crate::symbols::sums_fit;
use vstd::prelude::*;

verus! {

/// Shortest run that the run-length codes write as a run.
pub const RLE_MIN_RUN: usize = 3;

/// Escape byte of the second run-length code.
pub const RLE_ESCAPE: u8 = 0xFF;

/// Length of the run of bytes equal to `d[i]` at `i`, counting from `r`.
pub open spec fn run_from(d: Seq<u8>, i: int, r: nat) -> nat
    decreases d.len() - i - r,
{
    if i + r < d.len() && d[i + r] == d[i] {
        run_from(d, i, r + 1)
    } else {
        r
    }
}

pub proof fn lemma_run_from(d: Seq<u8>, i: int, r: nat)
    requires
        0 <= i < d.len(),
        1 <= r,
        i + r <= d.len(),
        forall|t: int| 0 <= t < r ==> #[trigger] d[i + t] == d[i],
    ensures
        r <= run_from(d, i, r),
        i + run_from(d, i, r) <= d.len(),
        forall|t: int| 0 <= t < run_from(d, i, r) ==> #[trigger] d[i + t] == d[i],
    decreases d.len() - i - r,
{
    if i + r < d.len() && d[i + r] == d[i] {
        assert forall|t: int| 0 <= t < r + 1 implies #[trigger] d[i + t] == d[i] by {
            if t < r {
                assert(d[i + t] == d[i]);
            }
        }
        lemma_run_from(d, i, r + 1);
    }
}

/// Length of the maximal run at `i`, computed.
fn run_length(data: &[u8], i: usize) -> (r: usize)
    requires
        i < data@.len(),
    ensures
        r == run_from(data@, i as int, 1),
        1 <= r,
        i + r <= data@.len(),
        forall|t: int| 0 <= t < r ==> #[trigger] data@[i + t] == data@[i as int],
{
    let n = data.len();
    let v = data[i];
    let mut run: usize = 1;
    proof {
        lemma_run_from(data@, i as int, 1);
    }
    while i + run < n && data[i + run] == v
        invariant
            n == data@.len(),
            i < n,
            1 <= run,
            i + run <= n,
            v == data@[i as int],
            run_from(data@, i as int, 1) == run_from(data@, i as int, run as nat),
            forall|t: int| 0 <= t < run ==> #[trigger] data@[i + t] == data@[i as int],
        decreases n - i - run,
    {
        proof {
            assert forall|t: int| 0 <= t < run + 1 implies #[trigger] data@[i + t] == data@[i as int] by {
                if t < run {
                    assert(data@[i + t] == data@[i as int]);
                }
            }
        }
        run = run + 1;
    }
    run
}

fn push_uleb(out: &mut Vec<u8>, x: u64)
    ensures
        final(out)@ == old(out)@ + uleb_bytes(x as nat),
{
    let v = crate::bit_io::uleb_encode(x);
    out.extend_from_slice(v.as_slice());
}

// ───────────────────────────── first run-length code ─────────────────────────────

/// First run-length code from `i`: a run of three or more as the byte and
/// the ULEB run length, shorter runs as they are.
pub open spec fn rle1_spec(d: Seq<u8>, i: int) -> Seq<u8>
    decreases d.len() - i,
{
    if i < 0 || i >= d.len() {
        Seq::empty()
    } else {
        let v = d[i];
        let r = run_from(d, i, 1);
        proof {
            lemma_run_from(d, i, 1);
        }
        (if r >= 3 {
            seq![v] + uleb_bytes(r)
        } else {
            Seq::new(r, |t: int| v)
        }) + rle1_spec(d, i + r)
    }
}

/// No three bytes in a row of `d` are equal.
pub open spec fn no_long_runs(d: Seq<u8>) -> bool {
    forall|j: int| 0 <= j && j + 2 < d.len() ==> !(#[trigger] d[j] == d[j + 1] && d[j + 1] == d[j + 2])
}

proof fn lemma_rle1_literal(d: Seq<u8>, i: int)
    requires
        0 <= i <= d.len(),
        no_long_runs(d),
    ensures
        rle1_spec(d, i) == d.subrange(i, d.len() as int),
    decreases d.len() - i,
{
    if i < d.len() {
        let r = run_from(d, i, 1);
        lemma_run_from(d, i, 1);
        if r >= 3 {
            assert(d[i + 1] == d[i] && d[i + 2] == d[i]);
            assert(d[i] == d[i + 1] && d[i + 1] == d[i + 2]);
        }
        lemma_rle1_literal(d, i + r);
        assert(Seq::new(r, |t: int| d[i]) + d.subrange(i + r, d.len() as int) =~= d.subrange(i, d.len() as int));
    } else {
        assert(d.subrange(i, d.len() as int) =~= Seq::<u8>::empty());
    }
}

/// Data without a run of three equal bytes is its own first run-length code:
/// every short run is kept byte for byte.
pub proof fn law_rle1_short_runs_kept(d: Seq<u8>)
    requires
        no_long_runs(d),
    ensures
        rle1_spec(d, 0) == d,
{
    lemma_rle1_literal(d, 0);
    assert(d.subrange(0, d.len() as int) =~= d);
}

proof fn lemma_run_const(v: u8, n: nat, r: nat)
    requires
        1 <= r <= n,
    ensures
        run_from(Seq::new(n, |t: int| v), 0, r) == n,
    decreases n - r,
{
    if r < n {
        lemma_run_const(v, n, r + 1);
    }
}

/// A single run of `r` equal bytes is coded as the byte and the ULEB run
/// length when it has three or more bytes, and kept as it is otherwise.
pub proof fn law_rle1_single_run(v: u8, r: nat)
    requires
        r >= 1,
    ensures
        rle1_spec(Seq::new(r, |t: int| v), 0) == if r >= 3 {
            seq![v] + uleb_bytes(r)
        } else {
            Seq::new(r, |t: int| v)
        },
{
    let d = Seq::new(r, |t: int| v);
    lemma_run_const(v, r, 1);
    assert(rle1_spec(d, r as int) == Seq::<u8>::empty());
    if r >= 3 {
        assert(rle1_spec(d, 0) =~= seq![v] + uleb_bytes(r) + Seq::<u8>::empty());
    } else {
        assert(rle1_spec(d, 0) =~= Seq::new(r, |t: int| v) + Seq::<u8>::empty());
        assert(Seq::new(r, |t: int| d[0]) =~= d);
    }
}

proof fn lemma_run_left(a: Seq<u8>, b: Seq<u8>, i: int, r: nat)
    requires
        0 <= i < a.len(),
        1 <= r,
        i + r <= a.len(),
        b.len() > 0,
        a.last() != b[0],
        forall|t: int| 0 <= t < r ==> #[trigger] a[i + t] == a[i],
    ensures
        run_from(a + b, i, r) == run_from(a, i, r),
    decreases a.len() - i - r,
{
    let d = a + b;
    if i + r < a.len() {
        if a[i + r] == a[i] {
            assert forall|t: int| 0 <= t < r + 1 implies #[trigger] a[i + t] == a[i] by {
                if t < r {
                    assert(a[i + t] == a[i]);
                }
            }
            lemma_run_left(a, b, i, r + 1);
        }
    } else {
        assert(a[i + (r - 1)] == a[i]);
        assert(d[i + r] == b[0]);
    }
}

proof fn lemma_run_right(a: Seq<u8>, b: Seq<u8>, j: int, r: nat)
    requires
        0 <= j < b.len(),
        1 <= r,
    ensures
        run_from(a + b, a.len() + j, r) == run_from(b, j, r),
    decreases b.len() - j - r,
{
    let d = a + b;
    if j + r < b.len() && b[j + r] == b[j] {
        assert(d[a.len() + j + r] == b[j + r] && d[a.len() + j] == b[j]);
        lemma_run_right(a, b, j, r + 1);
    } else if j + r < b.len() {
        assert(d[a.len() + j + r] == b[j + r] && d[a.len() + j] == b[j]);
    }
}

proof fn lemma_rle1_shift(a: Seq<u8>, b: Seq<u8>, j: int)
    requires
        0 <= j <= b.len(),
    ensures
        rle1_spec(a + b, a.len() + j) == rle1_spec(b, j),
    decreases b.len() - j,
{
    if j < b.len() {
        lemma_run_right(a, b, j, 1);
        lemma_run_from(b, j, 1);
        let r = run_from(b, j, 1);
        assert((a + b)[a.len() + j] == b[j]);
        lemma_rle1_shift(a, b, j + r);
    }
}

proof fn lemma_rle1_split(a: Seq<u8>, b: Seq<u8>, i: int)
    requires
        0 <= i <= a.len(),
        a.len() > 0,
        b.len() > 0,
        a.last() != b[0],
    ensures
        rle1_spec(a + b, i) == rle1_spec(a, i) + rle1_spec(b, 0),
    decreases a.len() - i,
{
    if i < a.len() {
        lemma_run_left(a, b, i, 1);
        lemma_run_from(a, i, 1);
        let r = run_from(a, i, 1);
        assert((a + b)[i] == a[i]);
        lemma_rle1_split(a, b, i + r);
        let blk = if r >= 3 { seq![a[i]] + uleb_bytes(r) } else { Seq::new(r, |t: int| a[i]) };
        assert(rle1_spec(a + b, i) == blk + rle1_spec(a + b, i + r));
        assert(rle1_spec(a, i) == blk + rle1_spec(a, i + r));
        assert(blk + (rle1_spec(a, i + r) + rle1_spec(b, 0)) =~= blk + rle1_spec(a, i + r) + rle1_spec(b, 0));
    } else {
        lemma_rle1_shift(a, b, 0);
        assert(rle1_spec(a, i) =~= Seq::<u8>::empty());
        assert(Seq::<u8>::empty() + rle1_spec(b, 0) =~= rle1_spec(b, 0));
    }
}

/// The first run-length code of two pieces of data that meet between
/// different bytes is the code of the first followed by the code of the
/// second: with `law_rle1_single_run` this gives the code of any data from
/// its maximal runs.
pub proof fn law_rle1_concat(a: Seq<u8>, b: Seq<u8>)
    requires
        a.len() > 0,
        b.len() > 0,
        a.last() != b[0],
    ensures
        rle1_spec(a + b, 0) == rle1_spec(a, 0) + rle1_spec(b, 0),
{
    lemma_rle1_split(a, b, 0);
}

/// Decoding of the first run-length code: each byte is followed by a ULEB
/// run length (read to the end of the data if need be); a run of 0 stands
/// for the byte itself.  A run length past ten bytes ends the decoding.
pub open spec fn unrle1(e: Seq<u8>) -> Seq<u8>
    decreases e.len(),
{
    if e.len() == 0 {
        Seq::empty()
    } else {
        let v = e[0];
        let rest = e.subrange(1, e.len() as int);
        if !uleb_safe(rest) {
            Seq::empty()
        } else {
            let run = uleb_value(rest);
            proof {
                crate::bit_io::lemma_uleb_span_bound(rest);
            }
            (if run == 0 {
                seq![v]
            } else {
                Seq::new(run, |t: int| v)
            }) + unrle1(rest.subrange(uleb_span(rest) as int, rest.len() as int))
        }
    }
}

/// Run-length code: runs of three or more as `[byte][ULEB run]`, shorter
/// runs as they are.
pub fn rle_encode(data: &[u8]) -> (out: Vec<u8>)
    ensures
        out@ == rle1_spec(data@, 0),
{
    let n = data.len();
    let mut out: Vec<u8> = Vec::new();
    let mut i: usize = 0;
    while i < n
        invariant
            n == data@.len(),
            i <= n,
            out@ + rle1_spec(data@, i as int) == rle1_spec(data@, 0),
        decreases n - i,
    {
        let v = data[i];
        let run = run_length(data, i);
        let ghost before = out@;
        if run >= RLE_MIN_RUN {
            out.push(v);
            push_uleb(&mut out, run as u64);
            assert(out@ =~= before + (seq![v] + uleb_bytes(run as nat)));
        } else {
            let mut t: usize = 0;
            while t < run
                invariant
                    t <= run,
                    out@ == before + Seq::new(t as nat, |q: int| v),
                decreases run - t,
            {
                out.push(v);
                t = t + 1;
                assert(out@ =~= before + Seq::new(t as nat, |q: int| v));
            }
        }
        i = i + run;
        assert(out@ + rle1_spec(data@, i as int) =~= rle1_spec(data@, 0));
    }
    assert(out@ =~= rle1_spec(data@, 0));
    out
}

/// Read the ULEB128 number at `pos`: (value, bytes read, safe); `safe` is
/// false when it runs past ten bytes.
fn uleb_here(data: &[u8], pos: usize) -> (r: (u64, usize, bool))
    requires
        pos <= data@.len(),
    ensures
        r.2 == uleb_safe(data@.subrange(pos as int, data@.len() as int)),
        r.2 ==> r.0 as nat == uleb_value(data@.subrange(pos as int, data@.len() as int)) && r.1 == uleb_span(
            data@.subrange(pos as int, data@.len() as int),
        ) && pos + r.1 <= data@.len(),
{
    if !uleb_fits_at(data, pos) {
        return (0, 0, false);
    }
    let (v, end, _done) = read_uleb_at(data, pos);
    proof {
        crate::bit_io::lemma_uleb_span_bound(data@.subrange(pos as int, data@.len() as int));
    }
    (v, end - pos, true)
}

/// Decode the first run-length code.
pub fn rle_decode(data: &[u8]) -> (out: Vec<u8>)
    ensures
        out@ == unrle1(data@),
{
    let n = data.len();
    let mut out: Vec<u8> = Vec::new();
    let mut i: usize = 0;
    assert(data@.subrange(0, n as int) =~= data@);
    while i < n
        invariant
            n == data@.len(),
            i <= n,
            out@ + unrle1(data@.subrange(i as int, n as int)) == unrle1(data@),
        decreases n - i,
    {
        let ghost e = data@.subrange(i as int, n as int);
        let v = data[i];
        let (run, span, safe) = uleb_here(data, i + 1);
        proof {
            assert(e.subrange(1, e.len() as int) =~= data@.subrange(i + 1, n as int));
        }
        if !safe {
            assert(out@ =~= unrle1(data@));
            return out;
        }
        let ghost before = out@;
        if run == 0 {
            out.push(v);
            assert(out@ =~= before + seq![v]);
        } else {
            let mut c: u64 = 0;
            while c < run
                invariant
                    c <= run,
                    out@ == before + Seq::new(c as nat, |q: int| v),
                decreases run - c,
            {
                out.push(v);
                c = c + 1;
                assert(out@ =~= before + Seq::new(c as nat, |q: int| v));
            }
        }
        proof {
            let rest = data@.subrange(i + 1, n as int);
            assert(rest.subrange(span as int, rest.len() as int) =~= data@.subrange(i + 1 + span, n as int));
        }
        i = i + 1 + span;
    }
    proof {
        assert(data@.subrange(n as int, n as int).len() == 0);
        assert(out@ =~= unrle1(data@));
    }
    out
}

// ───────────────────────────── second run-length code ─────────────────────────────

/// Second run-length code from `i`: a run of three or more, or any run of
/// the escape byte, as `[ESC][byte][ULEB run]`; shorter runs of other bytes
/// as they are.
pub open spec fn rle2_spec(d: Seq<u8>, i: int) -> Seq<u8>
    decreases d.len() - i,
{
    if i < 0 || i >= d.len() {
        Seq::empty()
    } else {
        let v = d[i];
        let r = run_from(d, i, 1);
        proof {
            lemma_run_from(d, i, 1);
        }
        (if r >= 3 || v == RLE_ESCAPE {
            seq![RLE_ESCAPE, v] + uleb_bytes(r)
        } else {
            Seq::new(r, |t: int| v)
        }) + rle2_spec(d, i + r)
    }
}

/// Decoding of the second run-length code: `[ESC][byte][ULEB run]` with at
/// least the byte present is a run, anything else a byte as it is.  A run
/// length past ten bytes ends the decoding.
pub open spec fn unrle2(e: Seq<u8>) -> Seq<u8>
    decreases e.len(),
{
    if e.len() == 0 {
        Seq::empty()
    } else if e[0] == RLE_ESCAPE && e.len() >= 2 {
        let rest = e.subrange(2, e.len() as int);
        if !uleb_safe(rest) {
            Seq::empty()
        } else {
            proof {
                crate::bit_io::lemma_uleb_span_bound(rest);
            }
            Seq::new(uleb_value(rest), |t: int| e[1]) + unrle2(
                rest.subrange(uleb_span(rest) as int, rest.len() as int),
            )
        }
    } else {
        seq![e[0]] + unrle2(e.subrange(1, e.len() as int))
    }
}

/// Run-length code with escapes: runs of three or more and runs of the
/// escape byte as `[ESC][byte][ULEB run]`, other bytes as they are.  Returns
/// the code and its header length (no header: 0).
pub fn rle_encode_v2(data: &[u8]) -> (r: (Vec<u8>, usize))
    ensures
        r.0@ == rle2_spec(data@, 0),
        r.1 == 0,
{
    let n = data.len();
    let mut out: Vec<u8> = Vec::new();
    let mut i: usize = 0;
    while i < n
        invariant
            n == data@.len(),
            i <= n,
            out@ + rle2_spec(data@, i as int) == rle2_spec(data@, 0),
        decreases n - i,
    {
        let v = data[i];
        let run = run_length(data, i);
        let ghost before = out@;
        if run >= RLE_MIN_RUN || v == RLE_ESCAPE {
            out.push(RLE_ESCAPE);
            out.push(v);
            push_uleb(&mut out, run as u64);
            assert(out@ =~= before + (seq![RLE_ESCAPE, v] + uleb_bytes(run as nat)));
        } else {
            let mut t: usize = 0;
            while t < run
                invariant
                    t <= run,
                    out@ == before + Seq::new(t as nat, |q: int| v),
                decreases run - t,
            {
                out.push(v);
                t = t + 1;
                assert(out@ =~= before + Seq::new(t as nat, |q: int| v));
            }
        }
        i = i + run;
        assert(out@ + rle2_spec(data@, i as int) =~= rle2_spec(data@, 0));
    }
    assert(out@ =~= rle2_spec(data@, 0));
    (out, 0)
}

/// Decode the second run-length code, skipping a header of `header_len`
/// bytes.
pub fn rle_decode_v2(data: &[u8], header_len: usize) -> (out: Vec<u8>)
    ensures
        header_len <= data@.len() ==> out@ == unrle2(data@.subrange(header_len as int, data@.len() as int)),
        header_len > data@.len() ==> out@.len() == 0,
{
    let n = data.len();
    let mut out: Vec<u8> = Vec::new();
    if header_len > n {
        return out;
    }
    let mut i: usize = header_len;
    let ghost whole = data@.subrange(header_len as int, n as int);
    while i < n
        invariant
            n == data@.len(),
            header_len <= i <= n,
            whole == data@.subrange(header_len as int, n as int),
            out@ + unrle2(data@.subrange(i as int, n as int)) == unrle2(whole),
        decreases n - i,
    {
        let ghost e = data@.subrange(i as int, n as int);
        let ghost before = out@;
        if data[i] == RLE_ESCAPE && n - i >= 2 {
            let v = data[i + 1];
            let (run, span, safe) = uleb_here(data, i + 2);
            proof {
                assert(e.subrange(2, e.len() as int) =~= data@.subrange(i + 2, n as int));
            }
            if !safe {
                assert(out@ =~= unrle2(whole));
                return out;
            }
            let mut c: u64 = 0;
            while c < run
                invariant
                    c <= run,
                    out@ == before + Seq::new(c as nat, |q: int| v),
                decreases run - c,
            {
                out.push(v);
                c = c + 1;
                assert(out@ =~= before + Seq::new(c as nat, |q: int| v));
            }
            proof {
                let rest = data@.subrange(i + 2, n as int);
                assert(rest.subrange(span as int, rest.len() as int) =~= data@.subrange(i + 2 + span, n as int));
            }
            i = i + 2 + span;
        } else {
            out.push(data[i]);
            proof {
                assert(e.subrange(1, e.len() as int) =~= data@.subrange(i + 1, n as int));
            }
            i = i + 1;
        }
    }
    proof {
        assert(data@.subrange(n as int, n as int).len() == 0);
        assert(out@ =~= unrle2(whole));
    }
    out
}

proof fn lemma_unrle2_rle2(d: Seq<u8>, i: int)
    requires
        0 <= i <= d.len(),
        d.len() <= u64::MAX,
    ensures
        unrle2(rle2_spec(d, i)) == d.subrange(i, d.len() as int),
    decreases d.len() - i,
{
    if i < d.len() {
        let v = d[i];
        let r = run_from(d, i, 1);
        lemma_run_from(d, i, 1);
        let rest = rle2_spec(d, i + r);
        lemma_unrle2_rle2(d, i + r);
        let e = rle2_spec(d, i);
        if r >= 3 || v == RLE_ESCAPE {
            let u = uleb_bytes(r);
            assert(e == seq![RLE_ESCAPE, v] + u + rest);
            crate::bit_io::law_uleb_roundtrip(r as u64, rest);
            let t = e.subrange(2, e.len() as int);
            assert(t =~= u + rest);
            assert(t.subrange(uleb_span(t) as int, t.len() as int) =~= rest);
            assert(uleb_value(t) == r);
            assert(e[0] == RLE_ESCAPE && e.len() >= 2);
            assert(unrle2(e) == Seq::new(uleb_value(t), |q: int| e[1]) + unrle2(
                t.subrange(uleb_span(t) as int, t.len() as int),
            ));
            assert(Seq::new(uleb_value(t), |q: int| e[1]) + d.subrange(i + r, d.len() as int) =~= d.subrange(
                i,
                d.len() as int,
            )) by {
                assert forall|k: int| 0 <= k < d.len() - i implies #[trigger] d.subrange(i, d.len() as int)[k] == (
                Seq::new(uleb_value(t), |q: int| e[1]) + d.subrange(i + r, d.len() as int))[k] by {
                    if k < r {
                        assert(d[i + k] == d[i]);
                    }
                }
            }
        } else {
            assert(e == Seq::new(r, |t: int| v) + rest);
            assert(v != RLE_ESCAPE);
            assert(e[0] == v);
            if r == 1 {
                assert(e.subrange(1, e.len() as int) =~= rest);
                assert(unrle2(e) == seq![e[0]] + unrle2(e.subrange(1, e.len() as int)));
                assert(seq![v] + d.subrange(i + 1, d.len() as int) =~= d.subrange(i, d.len() as int));
            } else {
                assert(r == 2);
                let e1 = e.subrange(1, e.len() as int);
                assert(e1 =~= seq![v] + rest);
                assert(e1.subrange(1, e1.len() as int) =~= rest);
                assert(unrle2(e) == seq![e[0]] + unrle2(e1));
                assert(e1[0] == v);
                assert(unrle2(e1) == seq![e1[0]] + unrle2(e1.subrange(1, e1.len() as int)));
                assert(d[i + 1] == d[i]);
                assert(seq![v] + (seq![v] + d.subrange(i + 2, d.len() as int)) =~= d.subrange(i, d.len() as int));
            }
        }
    } else {
        assert(d.subrange(i, d.len() as int) =~= Seq::<u8>::empty());
    }
}

/// Round trip of the second run-length code: decoding the code of any data
/// gives the data back.
pub proof fn law_rle_v2_roundtrip(d: Seq<u8>)
    requires
        d.len() <= u64::MAX,
    ensures
        unrle2(rle2_spec(d, 0)) == d,
{
    lemma_unrle2_rle2(d, 0);
    assert(d.subrange(0, d.len() as int) =~= d);
}

// ───────────────────────────── pipeline ─────────────────────────────

/// A sequence of super-symbol bases suited to MTF indices: 1 to 16, then
/// primes from 17 to 163.
pub fn s_for_mtf() -> (s: Vec<u64>)
    ensures
        s@ == seq![
            1u64, 2, 3, 4, 5, 6, 7, 8, 9, 10, 11, 12, 13, 14, 15, 16,
            17, 19, 23, 29, 31, 37, 41, 43, 47, 53, 59, 61, 67, 71, 73, 79,
            83, 89, 97, 101, 103, 107, 109, 113, 127, 131, 137, 139, 149, 151, 157, 163,
        ],
{
    let v: Vec<u64> = vec![
        1u64, 2, 3, 4, 5, 6, 7, 8, 9, 10, 11, 12, 13, 14, 15, 16,
        17, 19, 23, 29, 31, 37, 41, 43, 47, 53, 59, 61, 67, 71, 73, 79,
        83, 89, 97, 101, 103, 107, 109, 113, 127, 131, 137, 139, 149, 151, 157, 163,
    ];
    v
}


/// Header of a text-pipeline archive: magic, version, the sequence (its
/// length as one byte, then that many numbers), block bits, BWT primary,
/// run-length flag and the ULEB length of the SSP archive that follows.
pub open spec fn v2_header(s: Seq<u64>, bb: u8, primary: u32, use_rle: bool, len: nat) -> Seq<u8> {
    let k = (s.len() as u8) as nat;
    crate::ssp_codec::magic_seq() + seq![SSP5_VERSION, s.len() as u8] + u64s_bytes(s.subrange(0, k as int))
        + seq![bb] + le32_bytes(primary) + seq![if use_rle { 1u8 } else { 0u8 }] + uleb_bytes(len)
}

/// `out` is the text-pipeline archive of `d` with an SSP archive of `tl`
/// bytes.
pub open spec fn v2_archive_ok(out: Seq<u8>, d: Seq<u8>, s: Seq<u64>, bb: nat, tl: nat) -> bool {
    let enc = if v2_uses_rle(d) { rle2_spec(v2_mtf(d), 0) } else { v2_mtf(d) };
    let h = v2_header(s, bb as u8, bwt_primary(d), v2_uses_rle(d), tl);
    &&& out.len() == h.len() + tl
    &&& out.subrange(0, h.len() as int) == h
    &&& crate::ssp_codec::ssp_encoded(out.subrange(h.len() as int, out.len() as int), enc, bb, false, s)
}

/// MTF of the BWT last column of `d`.
pub open spec fn v2_mtf(d: Seq<u8>) -> Seq<u8> {
    mtf_spec(bwt_last(d))
}

/// Whether the text pipeline run-length codes the MTF indices of `d`: when
/// that is shorter and the data has at least 64 bytes.
pub open spec fn v2_uses_rle(d: Seq<u8>) -> bool {
    rle2_spec(v2_mtf(d), 0).len() < v2_mtf(d).len() && d.len() >= 64
}

/// Text pipeline: BWT, MTF of the last column, run-length coding when it
/// helps (64 bytes of data or more), then the SSP codec.
pub fn ssp5_encode(data: &[u8], s: &[u64], block_bits: usize) -> (out: Vec<u8>)
    requires
        8 <= block_bits <= 63,
        data@.len() <= 0x1000_0000,
        s@.len() < MAX_S_LEN,
        sums_fit(s@),
    ensures
        exists|tl: nat| #[trigger] v2_archive_ok(out@, data@, s@, block_bits as nat, tl),
{
    let (primary, last) = bwt_encode(data);
    let mtf = mtf_encode(last.as_slice());
    proof {
        crate::mtf::law_mtf_roundtrip(last@);
    }
    let (rle, _hl) = rle_encode_v2(mtf.as_slice());
    let use_rle = rle.len() < mtf.len() && data.len() >= 64;
    let enc: &[u8] = if use_rle {
        rle.as_slice()
    } else {
        mtf.as_slice()
    };
    let ssp = crate::ssp_codec::encode(enc, s, block_bits, false);
    let k = s.len() as u8;
    let mut out: Vec<u8> = Vec::new();
    out.push(SSP5_MAGIC[0]);
    out.push(SSP5_MAGIC[1]);
    out.push(SSP5_MAGIC[2]);
    out.push(SSP5_MAGIC[3]);
    out.push(SSP5_VERSION);
    out.push(k);
    let take = if (k as usize) < s.len() {
        k as usize
    } else {
        s.len()
    };
    assert(take == k as nat);
    let s_part = slice_range_u64(s, take);
    crate::ssp5_pipeline::push_u64s(&mut out, s_part);
    out.push(block_bits as u8);
    push_u32_le(&mut out, primary);
    out.push(if use_rle { 1 } else { 0 });
    push_uleb(&mut out, ssp.len() as u64);
    let ghost h = out@;
    assert(h =~= v2_header(s@, block_bits as u8, primary, use_rle, ssp@.len()));
    out.extend_from_slice(ssp.as_slice());
    assert(out@.subrange(0, h.len() as int) =~= h);
    assert(out@.subrange(h.len() as int, out@.len() as int) =~= ssp@);
    assert(v2_archive_ok(out@, data@, s@, block_bits as nat, ssp@.len()));
    out
}

/// The first `k` numbers of `s`.
fn slice_range_u64(s: &[u64], k: usize) -> (r: &[u64])
    requires
        k <= s@.len(),
    ensures
        r@ == s@.subrange(0, k as int),
{
    let r = &s[0..k];
    assert(r@ =~= s@.subrange(0, k as int)) by {
        assert forall|i: int| 0 <= i < k implies r@[i] == s@[i] by {}
    }
    r
}

/// Parts of a text-pipeline archive `a`: the sequence, the BWT primary, the
/// run-length flag, and the offset and length of the coded stream.
pub open spec fn v2_parts(a: Seq<u8>) -> (Seq<u64>, u32, bool, int, nat) {
    let n = a[5] as nat;
    let pos = (6 + 8 * n) as int;
    let ul = a.subrange(pos + 6, a.len() as int);
    (u64s_at(a, 6, n), le32_at(a, pos + 1), a[pos + 5] == 1, pos + 6 + uleb_span(ul), uleb_value(ul))
}

/// `out` is what the text-pipeline archive `a` decodes to: its SSP stream
/// decodes to some `m`, and `out` is the BWT inverse (with the recorded
/// primary) of the MTF inverse of `m`, run-length decoded first when the
/// flag is set.
pub open spec fn v2_decoded_as(a: Seq<u8>, out: Seq<u8>) -> bool {
    let p = v2_parts(a);
    exists|m: Seq<u8>|
        #[trigger] ssp_decoded_as(a.subrange(p.3, p.3 + p.4), p.0, m) && out == bwt_inverse(
            p.1,
            unmtf_spec(if p.2 { unrle2(m) } else { m }),
        )
}

/// The stream the text pipeline hands to the SSP codec for `d`.
pub open spec fn v2_enc(d: Seq<u8>) -> Seq<u8> {
    if v2_uses_rle(d) { rle2_spec(v2_mtf(d), 0) } else { v2_mtf(d) }
}

/// Archives of the text pipeline that its decoder inverts: written for
/// nonempty `d` with a sequence of at most 255 numbers whose super-symbols
/// read back exactly, blocks of one to three bytes, and a coded stream
/// short enough (under 256 bytes) to be bit-packed.
pub open spec fn v2_invertible(a: Seq<u8>, d: Seq<u8>, s: Seq<u64>, bb: nat, tl: nat) -> bool {
    &&& v2_archive_ok(a, d, s, bb, tl)
    &&& 1 <= d.len() <= 0x1000_0000
    &&& s.len() <= 255
    &&& 8 <= bb < 32 && bb % 8 == 0
    &&& crate::ssp_codec::packed_syms_exact(bb, s)
    &&& 1 <= v2_enc(d).len() < 256
    &&& a.len() < 0x1000_0000_0000_0000
}

proof fn lemma_u64s_read(pre: Seq<u8>, s: Seq<u64>, post: Seq<u8>)
    ensures
        u64s_bytes(s).len() == 8 * s.len(),
        u64s_at(pre + u64s_bytes(s) + post, pre.len() as int, s.len()) == s,
    decreases s.len(),
{
    if s.len() > 0 {
        let init = s.drop_last();
        let x = s.last();
        lemma_u64s_read(pre, init, crate::le::le64_bytes(x) + post);
        crate::le::lemma_le64_roundtrip(x, pre + u64s_bytes(init), post);
        assert(pre + u64s_bytes(s) + post =~= pre + u64s_bytes(init) + (crate::le::le64_bytes(x) + post));
        assert(pre + u64s_bytes(s) + post =~= (pre + u64s_bytes(init)) + crate::le::le64_bytes(x) + post);
        let a = pre + u64s_bytes(s) + post;
        assert(u64s_at(a, pre.len() as int, s.len()) =~= s) by {
            assert forall|i: int| 0 <= i < s.len() implies u64s_at(a, pre.len() as int, s.len())[i] == s[i] by {
                if i < init.len() {
                    assert(u64s_at(a, pre.len() as int, init.len())[i] == init[i]);
                }
            }
        }
    } else {
        assert(u64s_at(pre + u64s_bytes(s) + post, pre.len() as int, s.len()) =~= s);
    }
}

/// The header of an invertible text-pipeline archive reads back.
#[verifier::rlimit(80)]
#[verifier::spinoff_prover]
proof fn lemma_v2_read(a: Seq<u8>, d: Seq<u8>, s: Seq<u64>, bb: nat, tl: nat)
    requires
        v2_invertible(a, d, s, bb, tl),
    ensures
        a.len() >= 11,
        a.subrange(0, 4) == crate::ssp_codec::magic_seq(),
        a[4] == SSP5_VERSION,
        a[5] == s.len(),
        8 * s.len() <= a.len() - 6,
        a.len() - (6 + 8 * s.len()) > 5,
        uleb_safe(a.subrange(12 + 8 * s.len() as int, a.len() as int)),
        v2_parts(a).0 == s,
        v2_parts(a).1 == bwt_primary(d),
        v2_parts(a).2 == v2_uses_rle(d),
        v2_parts(a).3 + v2_parts(a).4 == a.len(),
        v2_parts(a).4 == tl,
        crate::ssp_codec::ssp_encoded(a.subrange(v2_parts(a).3, a.len() as int), v2_enc(d), bb, false, s),
{
    let n = s.len();
    let pos: int = 6 + 8 * n as int;
    let hdr = v2_header(s, bb as u8, bwt_primary(d), v2_uses_rle(d), tl);
    let k = (s.len() as u8) as nat;
    assert(k == n);
    assert(s.subrange(0, k as int) =~= s);
    let p0 = crate::ssp_codec::magic_seq() + seq![SSP5_VERSION, s.len() as u8];
    let ub = uleb_bytes(tl);
    let tail6 = seq![bb as u8] + le32_bytes(bwt_primary(d)) + seq![if v2_uses_rle(d) { 1u8 } else { 0u8 }];
    let rest = a.subrange(hdr.len() as int, a.len() as int);
    assert(a.subrange(0, hdr.len() as int) == hdr && a.len() == hdr.len() + tl);
    assert(crate::ssp_codec::ssp_encoded(rest, v2_enc(d), bb, false, s));
    lemma_u64s_read(p0, s, tail6 + ub + rest);
    crate::bit_io::lemma_uleb_len(tl);
    assert(hdr =~= p0 + u64s_bytes(s) + tail6 + ub);
    assert(a =~= hdr + rest);
    assert(a =~= p0 + u64s_bytes(s) + (tail6 + ub + rest));
    assert(a.subrange(0, 4) =~= crate::ssp_codec::magic_seq());
    assert(a[4] == SSP5_VERSION);
    assert(a[5] == s.len() as u8);
    let pre1 = p0 + u64s_bytes(s) + seq![bb as u8];
    assert(a =~= pre1 + le32_bytes(bwt_primary(d)) + (seq![if v2_uses_rle(d) { 1u8 } else { 0u8 }] + ub + rest));
    crate::le::lemma_le32_roundtrip(bwt_primary(d), pre1, seq![if v2_uses_rle(d) { 1u8 } else { 0u8 }] + ub + rest);
    assert(a[pos + 5] == (if v2_uses_rle(d) { 1u8 } else { 0u8 }));
    let ul = a.subrange(pos + 6, a.len() as int);
    assert(pos + 6 == 12 + 8 * s.len() as int);
    assert(ul =~= ub + rest) by {
        assert(a =~= (p0 + u64s_bytes(s) + tail6) + ub + rest);
    }
    crate::bit_io::lemma_uleb_roundtrip(tl, rest);
    assert((tl as u64) as nat == tl);
    crate::bit_io::law_uleb_roundtrip(tl as u64, rest);
    assert(uleb_span(ul) == ub.len());
    assert(hdr.len() == pos + 6 + ub.len());
    assert(u64s_at(a, 6, n) == s) by {
        assert(a =~= p0 + u64s_bytes(s) + (tail6 + ub + rest));
    }
}

/// An invertible text-pipeline archive's SSP stream decodes bit-packed to
/// the coded stream, and the rest of the pipeline undoes to the data.
proof fn lemma_v2_inverts(a: Seq<u8>, d: Seq<u8>, s: Seq<u64>, bb: nat, tl: nat)
    requires
        v2_invertible(a, d, s, bb, tl),
    ensures
        ({
            let tail = a.subrange(v2_parts(a).3, a.len() as int);
            &&& crate::ssp_codec::bitpacked_flags(tail[5])
            &&& crate::ssp_codec::header_valid(tail)
            &&& tail.len() < 0x1000_0000_0000_0000
            &&& crate::ssp_codec::header_tail(tail, s) is Some
            &&& crate::ssp_codec::bitpacked_decoded(tail, s) == v2_enc(d)
        }),
        unmtf_spec(if v2_uses_rle(d) { unrle2(v2_enc(d)) } else { v2_enc(d) }) == bwt_last(d),
        bwt_primary(d) < bwt_last(d).len(),
        bwt_inverse(bwt_primary(d), bwt_last(d)) == d,
{
    lemma_v2_read(a, d, s, bb, tl);
    let tail = a.subrange(v2_parts(a).3, a.len() as int);
    crate::ssp_codec::law_ssp_short_roundtrip(tail, v2_enc(d), s, bb, false);
    crate::bwt::lemma_primary_bound(d);
    crate::bwt::law_bwt_roundtrip(d);
    crate::mtf::law_mtf_roundtrip(bwt_last(d));
    if v2_uses_rle(d) {
        law_rle_v2_roundtrip(v2_mtf(d));
    }
}

/// Decode a text-pipeline archive.
pub fn ssp5_decode(archive: &[u8]) -> (r: Result<Vec<u8>, &'static str>)
    ensures
        archive@.len() < 11 ==> r == Err::<Vec<u8>, &'static str>("Archive too short for SSP5 header"),
        archive@.len() >= 11 && archive@.subrange(0, 4) != crate::ssp_codec::magic_seq() ==> r == Err::<
            Vec<u8>,
            &'static str,
        >("Bad magic (expected SSP5)"),
        archive@.len() >= 11 && archive@.subrange(0, 4) == crate::ssp_codec::magic_seq() && archive@[4]
            != SSP5_VERSION ==> r == Err::<Vec<u8>, &'static str>("Unsupported SSP5 version"),
        r is Ok && r->Ok_0@.len() > 0 ==> v2_decoded_as(archive@, r->Ok_0@),
        forall|d: Seq<u8>, sq: Seq<u64>, bb: nat, tl: nat|
            #[trigger] v2_invertible(archive@, d, sq, bb, tl) ==> r is Ok && r->Ok_0@ == d,
{
    let alen = archive.len();
    if alen < 11 {
        proof {
            assert forall|d: Seq<u8>, sq: Seq<u64>, bb: nat, tl: nat| #[trigger] v2_invertible(archive@, d, sq, bb, tl) implies false by {
                lemma_v2_read(archive@, d, sq, bb, tl);
            }
        }
        return Err("Archive too short for SSP5 header");
    }
    if archive[0] != SSP5_MAGIC[0] || archive[1] != SSP5_MAGIC[1] || archive[2] != SSP5_MAGIC[2] || archive[3]
        != SSP5_MAGIC[3] {
        proof {
            if archive@.subrange(0, 4) == crate::ssp_codec::magic_seq() {
                assert(archive@[0] == archive@.subrange(0, 4)[0]);
                assert(archive@[1] == archive@.subrange(0, 4)[1]);
                assert(archive@[2] == archive@.subrange(0, 4)[2]);
                assert(archive@[3] == archive@.subrange(0, 4)[3]);
            }
        }
        proof {
            assert forall|d: Seq<u8>, sq: Seq<u64>, bb: nat, tl: nat| #[trigger] v2_invertible(archive@, d, sq, bb, tl) implies false by {
                lemma_v2_read(archive@, d, sq, bb, tl);
            }
        }
        return Err("Bad magic (expected SSP5)");
    }
    assert(archive@.subrange(0, 4) =~= crate::ssp_codec::magic_seq());
    if archive[4] != SSP5_VERSION {
        proof {
            assert forall|d: Seq<u8>, sq: Seq<u64>, bb: nat, tl: nat| #[trigger] v2_invertible(archive@, d, sq, bb, tl) implies false by {
                lemma_v2_read(archive@, d, sq, bb, tl);
            }
        }
        return Err("Unsupported SSP5 version");
    }
    let n = archive[5] as usize;
    if 8 * n > alen - 6 {
        proof {
            assert forall|d: Seq<u8>, sq: Seq<u64>, bb: nat, tl: nat| #[trigger] v2_invertible(archive@, d, sq, bb, tl) implies false by {
                lemma_v2_read(archive@, d, sq, bb, tl);
            }
        }
        return Err("Archive too short");
    }
    let s = crate::ssp5_pipeline::read_u64s(archive, 6, n);
    let pos = 6 + 8 * n;
    if alen - pos < 5 {
        proof {
            assert forall|d: Seq<u8>, sq: Seq<u64>, bb: nat, tl: nat| #[trigger] v2_invertible(archive@, d, sq, bb, tl) implies false by {
                lemma_v2_read(archive@, d, sq, bb, tl);
            }
        }
        return Err("Archive too short");
    }
    let primary = read_u32_le(archive, pos + 1);
    if alen - pos == 5 {
        proof {
            assert forall|d: Seq<u8>, sq: Seq<u64>, bb: nat, tl: nat| #[trigger] v2_invertible(archive@, d, sq, bb, tl) implies false by {
                lemma_v2_read(archive@, d, sq, bb, tl);
            }
        }
        return Ok(Vec::new());
    }
    let use_rle = archive[pos + 5] == 1;
    let (dlen, span, safe) = uleb_here(archive, pos + 6);
    if !safe {
        proof {
            assert forall|d: Seq<u8>, sq: Seq<u64>, bb: nat, tl: nat| #[trigger] v2_invertible(archive@, d, sq, bb, tl) implies false by {
                lemma_v2_read(archive@, d, sq, bb, tl);
            }
        }
        return Err("Archive: length too long");
    }
    let start = pos + 6 + span;
    if dlen > (alen - start) as u64 {
        proof {
            assert forall|d: Seq<u8>, sq: Seq<u64>, bb: nat, tl: nat| #[trigger] v2_invertible(archive@, d, sq, bb, tl) implies false by {
                lemma_v2_read(archive@, d, sq, bb, tl);
            }
        }
        return Err("Archive truncated");
    }
    let end = start + dlen as usize;
    let encoded = slice_range(archive, start, end);
    let ghost aa = archive@;
    proof {
        assert forall|d: Seq<u8>, sq: Seq<u64>, bb: nat, tl: nat| #[trigger] v2_invertible(aa, d, sq, bb, tl) implies
            encoded@ == aa.subrange(v2_parts(aa).3, aa.len() as int) && sq == s@ by {
            lemma_v2_read(aa, d, sq, bb, tl);
            let p = v2_parts(aa);
            assert(p.3 == start as int);
            assert(p.4 == dlen as nat);
        }
    }
    let m = match crate::ssp_codec::decode(encoded, s.as_slice()) {
        Ok(m) => m,
        Err(e) => {
            proof {
                assert forall|d: Seq<u8>, sq: Seq<u64>, bb: nat, tl: nat| #[trigger] v2_invertible(aa, d, sq, bb, tl)
                    implies false by {
                    lemma_v2_inverts(aa, d, sq, bb, tl);
                }
            }
            return Err(e);
        },
    };
    let ghost gm = m@;
    let idx = if use_rle {
        rle_decode_v2(m.as_slice(), 0)
    } else {
        m
    };
    assert(m@.subrange(0, m@.len() as int) =~= m@) by {
    }
    let last = mtf_decode(idx.as_slice());
    proof {
        assert forall|d: Seq<u8>, sq: Seq<u64>, bb: nat, tl: nat| #[trigger] v2_invertible(aa, d, sq, bb, tl) implies
            last@ == bwt_last(d) && primary == bwt_primary(d) && primary < last@.len() by {
            lemma_v2_read(aa, d, sq, bb, tl);
            lemma_v2_inverts(aa, d, sq, bb, tl);
            assert(m@ == v2_enc(d));
            assert(m@.subrange(0, m@.len() as int) =~= m@);
        }
    }
    if !(last.len() <= 1 || (primary as usize) < last.len()) {
        return Err("BWT primary index out of range");
    }
    let out = bwt_decode(primary, last.as_slice());
    proof {
        assert forall|d: Seq<u8>, sq: Seq<u64>, bb: nat, tl: nat| #[trigger] v2_invertible(aa, d, sq, bb, tl) implies
            out@ == d by {
            lemma_v2_inverts(aa, d, sq, bb, tl);
        }
    }
    proof {
        let p = v2_parts(archive@);
        assert(p.0 == s@);
        assert(p.1 == primary);
        assert(p.2 == use_rle);
        assert(p.3 == start as int);
        assert(p.4 == dlen as nat);
        assert(encoded@ =~= archive@.subrange(p.3, p.3 + p.4));
        assert(gm.subrange(0, gm.len() as int) =~= gm);
        assert(ssp_decoded_as(archive@.subrange(p.3, p.3 + p.4), p.0, gm));
    }
    Ok(out)
}

// ───────────────────────────── MTF statistics ─────────────────────────────

/// Lengths of the maximal runs of equal bytes of `d` from `i` on.
pub open spec fn run_lengths(d: Seq<u8>, i: int) -> Seq<nat>
    decreases d.len() - i,
{
    if i < 0 || i >= d.len() {
        Seq::empty()
    } else {
        let r = run_from(d, i, 1);
        proof {
            lemma_run_from(d, i, 1);
        }
        seq![r] + run_lengths(d, i + r)
    }
}

/// Runs of three or more among `rs`.
pub open spec fn long_run_count(rs: Seq<nat>) -> nat
    decreases rs.len(),
{
    if rs.len() == 0 {
        0
    } else {
        long_run_count(rs.drop_last()) + if rs.last() >= 3 { 1nat } else { 0nat }
    }
}

/// The largest of `rs` (0 when empty).
pub open spec fn max_run_of(rs: Seq<nat>) -> nat
    decreases rs.len(),
{
    if rs.len() == 0 {
        0
    } else {
        let m = max_run_of(rs.drop_last());
        if rs.last() > m {
            rs.last()
        } else {
            m
        }
    }
}

/// Byte histogram and run statistics of an MTF stream.
pub struct MtfStats {
    /// Occurrences of each byte value.
    pub counts: Vec<usize>,
    /// Number of maximal runs of equal bytes.
    pub total_runs: usize,
    /// Runs of three or more bytes.
    pub long_runs: usize,
    /// Longest run.
    pub max_run: usize,
}

/// Histogram and run statistics of `data`.
pub fn mtf_stats(data: &[u8]) -> (r: MtfStats)
    ensures
        r.counts@.len() == 256,
        forall|b: int| 0 <= b < 256 ==> #[trigger] r.counts@[b] == count_eq(data@, b as u8),
        r.total_runs == run_lengths(data@, 0).len(),
        r.long_runs == long_run_count(run_lengths(data@, 0)),
        r.max_run == max_run_of(run_lengths(data@, 0)),
{
    let n = data.len();
    let ghost d = data@;
    let mut counts: Vec<usize> = vec![0usize; 256];
    let mut i: usize = 0;
    while i < n
        invariant
            n == d.len(),
            d == data@,
            i <= n,
            counts@.len() == 256,
            forall|c: int| 0 <= c < 256 ==> #[trigger] counts@[c] == count_eq(d.subrange(0, i as int), c as u8),
            forall|c: int| 0 <= c < 256 ==> #[trigger] counts@[c] <= i,
        decreases n - i,
    {
        let c = data[i] as usize;
        let ghost pre = d.subrange(0, i as int);
        let v = counts[c] + 1;
        counts.set(c, v);
        i = i + 1;
        proof {
            assert(d.subrange(0, i as int).drop_last() =~= pre);
            assert forall|cc: int| 0 <= cc < 256 implies #[trigger] counts@[cc] == count_eq(
                d.subrange(0, i as int),
                cc as u8,
            ) by {
                if cc != c {
                    assert(cc as u8 != d[i - 1]);
                }
            }
        }
    }
    assert(d.subrange(0, n as int) =~= d);
    let mut total_runs: usize = 0;
    let mut long_runs: usize = 0;
    let mut max_run: usize = 0;
    let ghost mut done: Seq<nat> = Seq::empty();
    let mut j: usize = 0;
    assert(done + run_lengths(d, 0) =~= run_lengths(d, 0));
    while j < n
        invariant
            n == d.len(),
            d == data@,
            j <= n,
            done + run_lengths(d, j as int) == run_lengths(d, 0),
            total_runs == done.len(),
            total_runs <= j,
            long_runs == long_run_count(done),
            long_runs <= total_runs,
            max_run == max_run_of(done),
            max_run <= j,
        decreases n - j,
    {
        let r = run_length(data, j);
        let ghost old_done = done;
        proof {
            assert(run_lengths(d, j as int) == seq![r as nat] + run_lengths(d, j + r));
            done = done.push(r as nat);
            assert(done.drop_last() =~= old_done);
            assert(done + run_lengths(d, j + r) =~= old_done + run_lengths(d, j as int));
        }
        total_runs = total_runs + 1;
        if r >= 3 {
            long_runs = long_runs + 1;
        }
        if r > max_run {
            max_run = r;
        }
        j = j + r;
    }
    assert(run_lengths(d, n as int) =~= Seq::<nat>::empty());
    assert(done =~= run_lengths(d, 0));
    MtfStats { counts, total_runs, long_runs, max_run }
}

} // verus!
