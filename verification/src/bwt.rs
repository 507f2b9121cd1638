//! Burrows-Wheeler transform.
//!
//! The rotations of the input are sorted (equal rotations keep index order);
//! the transform is the column of last bytes of the sorted rotations and the
//! position of the unrotated input among them. Packed form:
//! `[u32 primary][last column]`.
use crate::le::{le32_at, le32_bytes, lemma_le32_at_suffix, lemma_le32_roundtrip, push_u32_le, read_u32_le};
use crate::mtf::slice_range;
use crate::sort::{key_order, sort_by_keys};
use vstd::arithmetic::div_mod::{lemma_add_mod_noop_right, lemma_mod_add_multiples_vanish, lemma_small_mod};
use vstd::prelude::*;
use vstd::relations::{sorted_by, total_ordering};
use vstd::seq_lib::{group_to_multiset_ensures, lemma_sorted_unique};

verus! {

// ───────────────────────────── lexicographic order ─────────────────────────────

/// `a` comes strictly before `b` in lexicographic order (a proper prefix comes first).
pub open spec fn lex_lt(a: Seq<u8>, b: Seq<u8>) -> bool
    decreases a.len(),
{
    if a.len() == 0 {
        b.len() > 0
    } else if b.len() == 0 {
        false
    } else if a[0] != b[0] {
        a[0] < b[0]
    } else {
        lex_lt(a.drop_first(), b.drop_first())
    }
}

pub proof fn lemma_lex_irrefl(a: Seq<u8>)
    ensures
        !lex_lt(a, a),
    decreases a.len(),
{
    if a.len() > 0 {
        lemma_lex_irrefl(a.drop_first());
    }
}

/// Exactly one of `a < b`, `a == b`, `b < a` holds.
pub proof fn lemma_lex_trichotomy(a: Seq<u8>, b: Seq<u8>)
    ensures
        lex_lt(a, b) || a == b || lex_lt(b, a),
        !(lex_lt(a, b) && lex_lt(b, a)),
        a == b ==> !lex_lt(a, b),
    decreases a.len(),
{
    if a.len() == 0 {
        if b.len() == 0 {
            assert(a =~= b);
        }
    } else if b.len() == 0 {
    } else if a[0] != b[0] {
    } else {
        lemma_lex_trichotomy(a.drop_first(), b.drop_first());
        if a.drop_first() == b.drop_first() {
            assert(a =~= seq![a[0]] + a.drop_first());
            assert(b =~= seq![b[0]] + b.drop_first());
        }
        if a == b {
            lemma_lex_irrefl(a);
        }
    }
}

pub proof fn lemma_lex_trans(a: Seq<u8>, b: Seq<u8>, c: Seq<u8>)
    requires
        lex_lt(a, b),
        lex_lt(b, c),
    ensures
        lex_lt(a, c),
    decreases a.len(),
{
    if a.len() > 0 && b.len() > 0 && c.len() > 0 && a[0] == b[0] && b[0] == c[0] {
        lemma_lex_trans(a.drop_first(), b.drop_first(), c.drop_first());
    }
}

/// Comparing concatenations whose first parts have equal length compares the
/// first parts, then the second parts.
pub proof fn lemma_lex_concat(a1: Seq<u8>, a2: Seq<u8>, b1: Seq<u8>, b2: Seq<u8>)
    requires
        a1.len() == b1.len(),
    ensures
        lex_lt(a1 + a2, b1 + b2) == (lex_lt(a1, b1) || (a1 == b1 && lex_lt(a2, b2))),
    decreases a1.len(),
{
    if a1.len() == 0 {
        assert(a1 + a2 =~= a2);
        assert(b1 + b2 =~= b2);
        assert(a1 =~= b1);
    } else {
        let a = a1 + a2;
        let b = b1 + b2;
        assert(a[0] == a1[0] && b[0] == b1[0]);
        assert(a.drop_first() =~= a1.drop_first() + a2);
        assert(b.drop_first() =~= b1.drop_first() + b2);
        lemma_lex_concat(a1.drop_first(), a2, b1.drop_first(), b2);
        if a1[0] == b1[0] {
            if a1.drop_first() == b1.drop_first() {
                assert(a1 =~= seq![a1[0]] + a1.drop_first());
                assert(b1 =~= seq![b1[0]] + b1.drop_first());
            }
            if a1 == b1 {
                assert(a1.drop_first() == b1.drop_first());
            }
        } else {
            assert(a1 != b1);
        }
    }
}

// ───────────────────────────── rotations ─────────────────────────────

/// The `m` bytes of `d` read cyclically from position `i`.
pub open spec fn cyc(d: Seq<u8>, i: int, m: nat) -> Seq<u8> {
    Seq::new(m, |t: int| d[(i + t) % (d.len() as int)])
}

/// Rotation `i` of `d`.
pub open spec fn rotation(d: Seq<u8>, i: int) -> Seq<u8> {
    cyc(d, i, d.len())
}

/// Order of rotation indices: by rotation, equal rotations by index.
pub open spec fn rot_order(d: Seq<u8>) -> spec_fn(usize, usize) -> bool {
    |a: usize, b: usize|
        lex_lt(rotation(d, a as int), rotation(d, b as int)) || (rotation(d, a as int) == rotation(
            d,
            b as int,
        ) && a <= b)
}

/// The indices `0..n`.
pub open spec fn iota(n: nat) -> Seq<usize> {
    Seq::new(n, |i: int| i as usize)
}

/// Rotation indices of `d` in sorted order.
pub open spec fn sorted_rotations(d: Seq<u8>) -> Seq<usize> {
    iota(d.len()).sort_by(rot_order(d))
}

/// Last column of the sorted rotations.
pub open spec fn bwt_last(d: Seq<u8>) -> Seq<u8> {
    let n = d.len() as int;
    let sa = sorted_rotations(d);
    Seq::new(d.len(), |j: int| d[(sa[j] + n - 1) % n])
}

/// Position of the unrotated input among the sorted rotations.
pub open spec fn bwt_primary(d: Seq<u8>) -> u32 {
    if d.len() == 0 {
        0
    } else {
        let sa = sorted_rotations(d);
        (choose|p: int| 0 <= p < sa.len() && sa[p] == 0) as u32
    }
}

pub proof fn lemma_rot_order_total(d: Seq<u8>)
    ensures
        total_ordering(rot_order(d)),
{
    let r = rot_order(d);
    assert forall|a: usize| #[trigger] r(a, a) by {
    }
    assert forall|a: usize, b: usize| #[trigger] r(a, b) && #[trigger] r(b, a) implies a == b by {
        lemma_lex_trichotomy(rotation(d, a as int), rotation(d, b as int));
    }
    assert forall|a: usize, b: usize, c: usize| #[trigger] r(a, b) && #[trigger] r(b, c) implies r(
        a,
        c,
    ) by {
        let ra = rotation(d, a as int);
        let rb = rotation(d, b as int);
        let rc = rotation(d, c as int);
        if lex_lt(ra, rb) && lex_lt(rb, rc) {
            lemma_lex_trans(ra, rb, rc);
        }
    }
    assert forall|a: usize, b: usize| #[trigger] r(a, b) || #[trigger] r(b, a) by {
        lemma_lex_trichotomy(rotation(d, a as int), rotation(d, b as int));
    }
}

/// `cyc` of length `2m` is `cyc` of length `m` at `i` followed by `cyc` of
/// length `m` at `(i + m) % n`.
pub proof fn lemma_cyc_split(d: Seq<u8>, i: int, m: nat)
    requires
        d.len() > 0,
        0 <= i,
    ensures
        cyc(d, i, 2 * m) == cyc(d, i, m) + cyc(d, (i + m) % (d.len() as int), m),
{
    let n = d.len() as int;
    let a = cyc(d, i, 2 * m);
    let b = cyc(d, i, m) + cyc(d, (i + m) % n, m);
    assert forall|t: int| 0 <= t < 2 * m implies a[t] == b[t] by {
        if t >= m {
            lemma_add_mod_noop_right(t - m, i + m, n);
        }
    }
    assert(a =~= b);
}

/// A cyclic read longer than `n` adds nothing to the comparison of rotations.
pub proof fn lemma_cyc_long(d: Seq<u8>, i: int, j: int, mm: nat)
    requires
        d.len() > 0,
        d.len() <= mm,
        0 <= i,
        0 <= j,
    ensures
        lex_lt(cyc(d, i, mm), cyc(d, j, mm)) == lex_lt(rotation(d, i), rotation(d, j)),
        (cyc(d, i, mm) == cyc(d, j, mm)) == (rotation(d, i) == rotation(d, j)),
{
    let n = d.len() as int;
    let extra = (mm - n) as nat;
    let ci = cyc(d, i, mm);
    let cj = cyc(d, j, mm);
    let ri = rotation(d, i);
    let rj = rotation(d, j);
    let ei = cyc(d, i, extra);
    let ej = cyc(d, j, extra);
    assert forall|t: int| 0 <= t < mm implies ci[t] == (ri + ei)[t] by {
        if t >= n {
            lemma_mod_add_multiples_vanish(i + (t - n), n);
        }
    }
    assert(ci =~= ri + ei);
    assert forall|t: int| 0 <= t < mm implies cj[t] == (rj + ej)[t] by {
        if t >= n {
            lemma_mod_add_multiples_vanish(j + (t - n), n);
        }
    }
    assert(cj =~= rj + ej);
    lemma_lex_concat(ri, ei, rj, ej);
    if ri == rj {
        assert forall|t: int| 0 <= t < extra implies ei[t] == ej[t] by {
            lemma_add_mod_noop_right(i, t, n);
            lemma_add_mod_noop_right(j, t, n);
            assert(ri[t % n] == rj[t % n]);
        }
        assert(ei =~= ej);
        lemma_lex_irrefl(ei);
    }
    if ci == cj {
        assert(ri =~= ci.subrange(0, n));
        assert(rj =~= cj.subrange(0, n));
    }
}

// ───────────────────────────── prefix doubling ─────────────────────────────

/// Order of rotation indices by their cyclic reads of length `m`, ties by index.
pub open spec fn cyc_order(d: Seq<u8>, m: nat) -> spec_fn(usize, usize) -> bool {
    |a: usize, b: usize|
        lex_lt(cyc(d, a as int, m), cyc(d, b as int, m)) || (cyc(d, a as int, m) == cyc(
            d,
            b as int,
            m,
        ) && a <= b)
}

/// `rank` orders the cyclic reads of length `m`: `rank[i] <= rank[j]` exactly
/// when read `i` is at most read `j`.
pub open spec fn ranks_ok(d: Seq<u8>, rank: Seq<u64>, m: nat) -> bool {
    &&& rank.len() == d.len()
    &&& forall|i: int, j: int|
        0 <= i < d.len() && 0 <= j < d.len() ==> ((#[trigger] rank[i] <= #[trigger] rank[j]) == (
        lex_lt(cyc(d, i, m), cyc(d, j, m)) || cyc(d, i, m) == cyc(d, j, m)))
}

proof fn lemma_rank_relation(d: Seq<u8>, rank: Seq<u64>, m: nat, i: int, j: int)
    requires
        ranks_ok(d, rank, m),
        0 <= i < d.len(),
        0 <= j < d.len(),
    ensures
        (rank[i] < rank[j]) == lex_lt(cyc(d, i, m), cyc(d, j, m)),
        (rank[i] == rank[j]) == (cyc(d, i, m) == cyc(d, j, m)),
{
    lemma_lex_trichotomy(cyc(d, i, m), cyc(d, j, m));
    assert((rank[i] <= rank[j]) == (lex_lt(cyc(d, i, m), cyc(d, j, m)) || cyc(d, i, m) == cyc(d, j, m)));
    assert((rank[j] <= rank[i]) == (lex_lt(cyc(d, j, m), cyc(d, i, m)) || cyc(d, j, m) == cyc(d, i, m)));
}

/// Pair order of the round's keys is the order of the doubled reads.
proof fn lemma_round_keys(d: Seq<u8>, rank: Seq<u64>, keys: Seq<(u64, u64)>, k: nat, a: int, b: int)
    requires
        d.len() > 0,
        ranks_ok(d, rank, k),
        keys.len() == d.len(),
        forall|i: int| 0 <= i < d.len() ==> #[trigger] keys[i] == (rank[i], rank[(i + k) % (d.len() as int)]),
        0 <= a < d.len(),
        0 <= b < d.len(),
    ensures
        (keys[a].0 < keys[b].0 || (keys[a].0 == keys[b].0 && keys[a].1 < keys[b].1)) == lex_lt(
            cyc(d, a, 2 * k),
            cyc(d, b, 2 * k),
        ),
        (keys[a] == keys[b]) == (cyc(d, a, 2 * k) == cyc(d, b, 2 * k)),
{
    let n = d.len() as int;
    let a2 = (a + k) % n;
    let b2 = (b + k) % n;
    lemma_cyc_split(d, a, k);
    lemma_cyc_split(d, b, k);
    lemma_rank_relation(d, rank, k, a, b);
    lemma_rank_relation(d, rank, k, a2, b2);
    lemma_lex_concat(cyc(d, a, k), cyc(d, a2, k), cyc(d, b, k), cyc(d, b2, k));
    assert(keys[a] == (rank[a], rank[a2]));
    assert(keys[b] == (rank[b], rank[b2]));
    if cyc(d, a, 2 * k) == cyc(d, b, 2 * k) {
        assert(cyc(d, a, k) =~= cyc(d, a, 2 * k).subrange(0, k as int));
        assert(cyc(d, b, k) =~= cyc(d, b, 2 * k).subrange(0, k as int));
        assert(cyc(d, a2, k) =~= cyc(d, a, 2 * k).subrange(k as int, 2 * k as int));
        assert(cyc(d, b2, k) =~= cyc(d, b, 2 * k).subrange(k as int, 2 * k as int));
    }
}

/// A sequence with the multiset of `0..n` holds each index once.
proof fn lemma_perm(sa: Seq<usize>, n: nat)
    requires
        sa.to_multiset() == iota(n).to_multiset(),
        n <= usize::MAX,
    ensures
        sa.len() == n,
        sa.no_duplicates(),
        forall|p: int| 0 <= p < sa.len() ==> #[trigger] sa[p] < n,
        forall|i: int| 0 <= i < n ==> #[trigger] sa.contains(i as usize),
{
    broadcast use group_to_multiset_ensures;

    let io = iota(n);
    assert(sa.len() == sa.to_multiset().len());
    assert(io.len() == io.to_multiset().len());
    assert forall|i: int, j: int| 0 <= i < io.len() && 0 <= j < io.len() && i != j implies io[i]
        != io[j] by {
    }
    assert(io.no_duplicates());
    io.lemma_multiset_has_no_duplicates();
    sa.lemma_multiset_has_no_duplicates_conv();
    assert forall|p: int| 0 <= p < sa.len() implies #[trigger] sa[p] < n by {
        assert(sa.contains(sa[p]));
        assert(sa.to_multiset().count(sa[p]) > 0);
        assert(io.contains(sa[p]));
    }
    assert forall|i: int| 0 <= i < n implies #[trigger] sa.contains(i as usize) by {
        assert(io[i] == i as usize);
        assert(io.contains(i as usize));
        assert(io.to_multiset().count(i as usize) > 0);
    }
}

/// Dense ranks of the sorted order: equal keys get equal ranks, larger keys
/// larger ranks.
fn dense_ranks(sa: &Vec<usize>, keys: &Vec<(u64, u64)>) -> (r: Vec<u64>)
    requires
        sa@.len() == keys@.len(),
        sa@.no_duplicates(),
        forall|p: int| 0 <= p < sa@.len() ==> #[trigger] sa@[p] < keys@.len(),
        forall|i: int| 0 <= i < keys@.len() ==> #[trigger] sa@.contains(i as usize),
        sorted_by(sa@, key_order(keys@)),
    ensures
        r@.len() == keys@.len(),
        forall|i: int, j: int|
            0 <= i < keys@.len() && 0 <= j < keys@.len() ==> ((#[trigger] r@[i] <= #[trigger] r@[j])
                == (keys@[i].0 < keys@[j].0 || (keys@[i].0 == keys@[j].0 && keys@[i].1
                <= keys@[j].1))),
{
    let n = sa.len();
    let mut r: Vec<u64> = vec![0u64; n];
    let ghost ks = keys@;
    let ghost leq = key_order(keys@);
    let ghost mut dd: Seq<u64> = Seq::empty();
    let mut cur: u64 = 0;
    let mut p: usize = 0;
    while p < n
        invariant
            n == sa@.len(),
            n == keys@.len(),
            ks == keys@,
            leq == key_order(keys@),
            r@.len() == n,
            p <= n,
            dd.len() == p,
            sa@.no_duplicates(),
            forall|q: int| 0 <= q < n ==> #[trigger] sa@[q] < n,
            sorted_by(sa@, leq),
            p > 0 ==> cur == dd[p - 1],
            p == 0 ==> cur == 0,
            forall|q: int| 0 <= q < p ==> dd[q] <= q,
            forall|q: int| 0 <= q < p ==> #[trigger] r@[sa@[q] as int] == dd[q],
            forall|q: int, t: int| 0 <= q <= t < p ==> #[trigger] dd[q] <= #[trigger] dd[t],
            forall|q: int, t: int|
                0 <= q < t < p ==> ((#[trigger] dd[q] == #[trigger] dd[t]) == (ks[sa@[q] as int]
                    == ks[sa@[t] as int])),
        decreases n - p,
    {
        let i = sa[p];
        if p > 0 {
            let prev = sa[p - 1];
            let kp = keys[prev];
            let ki = keys[i];
            if kp.0 != ki.0 || kp.1 != ki.1 {
                cur = cur + 1;
            }
            assert(cur <= p);
            proof {
                let q1 = p - 1;
                assert(leq(sa@[q1], sa@[p as int]));
                assert forall|q: int| 0 <= q < p implies ((dd.push(cur)[q] == dd.push(cur)[p as int])
                    == (ks[sa@[q] as int] == ks[sa@[p as int] as int])) by {
                    if q < q1 {
                        assert(leq(sa@[q], sa@[q1]));
                        assert(dd[q] <= dd[q1]);
                        assert((dd[q] == dd[q1]) == (ks[sa@[q] as int] == ks[sa@[q1] as int]));
                    }
                }
            }
        }
        r.set(i, cur);
        proof {
            let nd = dd.push(cur);
            assert forall|q: int| 0 <= q <= p implies #[trigger] r@[sa@[q] as int] == nd[q] by {
                if q < p {
                    assert(sa@[q] != sa@[p as int]);
                }
            }
            assert(cur <= p);
            assert forall|q: int| 0 <= q <= p implies nd[q] <= q by {
                if q < p {
                    assert(nd[q] == dd[q]);
                }
            }
            dd = nd;
        }
        p = p + 1;
    }
    proof {
        assert forall|i: int, j: int| 0 <= i < n && 0 <= j < n implies ((#[trigger] r@[i]
            <= #[trigger] r@[j]) == (ks[i].0 < ks[j].0 || (ks[i].0 == ks[j].0 && ks[i].1
            <= ks[j].1))) by {
            assert(sa@.contains(i as usize));
            assert(sa@.contains(j as usize));
            let pi = choose|q: int| 0 <= q < n && sa@[q] == i as usize;
            let pj = choose|q: int| 0 <= q < n && sa@[q] == j as usize;
            assert(r@[sa@[pi] as int] == dd[pi]);
            assert(r@[sa@[pj] as int] == dd[pj]);
            if pi <= pj {
                assert(dd[pi] <= dd[pj]);
                assert(leq(sa@[pi], sa@[pj]));
            } else {
                assert(dd[pj] <= dd[pi]);
                assert(leq(sa@[pj], sa@[pi]));
                assert((dd[pj] == dd[pi]) == (ks[sa@[pj] as int] == ks[sa@[pi] as int]));
            }
        }
    }
    r
}

/// One doubling round: sort by the keys `(rank[i], rank[i + k])` and rank the
/// doubled reads.
fn bwt_round(data: &[u8], rank: &Vec<u64>, k: usize) -> (res: (Vec<usize>, Vec<u64>))
    requires
        data@.len() >= 2,
        1 <= k < data@.len(),
        ranks_ok(data@, rank@, k as nat),
    ensures
        sorted_by(res.0@, cyc_order(data@, 2 * k as nat)),
        res.0@.to_multiset() == iota(data@.len()).to_multiset(),
        forall|p: int| 0 <= p < res.0@.len() ==> #[trigger] res.0@[p] < data@.len(),
        ranks_ok(data@, res.1@, 2 * k as nat),
{
    let n = data.len();
    let ghost d = data@;
    let mut keys: Vec<(u64, u64)> = Vec::with_capacity(n);
    let mut idx: Vec<usize> = Vec::with_capacity(n);
    let mut i: usize = 0;
    while i < n
        invariant
            n == data@.len(),
            1 <= k < n,
            rank@.len() == n,
            i <= n,
            keys@.len() == i,
            idx@ == iota(i as nat),
            forall|t: int| 0 <= t < i ==> #[trigger] keys@[t] == (rank@[t], rank@[(t + k) % (n as int)]),
        decreases n - i,
    {
        let j = if k < n - i {
            i + k
        } else {
            k - (n - i)
        };
        proof {
            if i + k < n {
                lemma_small_mod((i + k) as nat, n as nat);
            } else {
                lemma_mod_add_multiples_vanish((i + k - n) as int, n as int);
                lemma_small_mod((i + k - n) as nat, n as nat);
            }
        }
        keys.push((rank[i], rank[j]));
        idx.push(i);
        i = i + 1;
        assert(idx@ =~= iota(i as nat));
    }
    let sa = sort_by_keys(idx.as_slice(), keys.as_slice());
    let ghost ko = key_order(keys@);
    let ghost co = cyc_order(d, 2 * k as nat);
    proof {
        lemma_perm(sa@, n as nat);
        assert forall|a: usize, b: usize| a < n && b < n implies #[trigger] ko(a, b) == #[trigger] co(a, b) by {
            lemma_round_keys(d, rank@, keys@, k as nat, a as int, b as int);
        }
        assert forall|p: int, q: int| 0 <= p < q < sa@.len() implies #[trigger] co(sa@[p], sa@[q]) by {
            assert(ko(sa@[p], sa@[q]));
        }
    }
    let r = dense_ranks(&sa, &keys);
    proof {
        assert forall|a: int, b: int| 0 <= a < n && 0 <= b < n implies ((#[trigger] r@[a] <= #[trigger] r@[b])
            == (lex_lt(cyc(d, a, 2 * k as nat), cyc(d, b, 2 * k as nat)) || cyc(d, a, 2 * k as nat) == cyc(
            d,
            b,
            2 * k as nat,
        ))) by {
            lemma_round_keys(d, rank@, keys@, k as nat, a, b);
        }
    }
    (sa, r)
}

proof fn lemma_ranks_initial(d: Seq<u8>, rank: Seq<u64>)
    requires
        d.len() > 0,
        rank.len() == d.len(),
        forall|i: int| 0 <= i < d.len() ==> #[trigger] rank[i] == d[i] as u64,
    ensures
        ranks_ok(d, rank, 1),
{
    let n = d.len() as int;
    assert forall|i: int, j: int| 0 <= i < n && 0 <= j < n implies ((#[trigger] rank[i]
        <= #[trigger] rank[j]) == (lex_lt(cyc(d, i, 1), cyc(d, j, 1)) || cyc(d, i, 1) == cyc(
        d,
        j,
        1,
    ))) by {
        lemma_small_mod(i as nat, n as nat);
        lemma_small_mod(j as nat, n as nat);
        let ci = cyc(d, i, 1);
        let cj = cyc(d, j, 1);
        assert(ci[0] == d[i] && cj[0] == d[j]);
        assert(ci.drop_first() =~= cj.drop_first());
        lemma_lex_irrefl(ci.drop_first());
        if d[i] == d[j] {
            assert(ci =~= cj);
        } else {
            assert(ci != cj) by {
                assert(ci[0] != cj[0]);
            }
        }
    }
}

/// The sorted rotation indices of `data` (at least two bytes).
fn sorted_rotation_indices(data: &[u8]) -> (sa: Vec<usize>)
    requires
        data@.len() >= 2,
    ensures
        sa@ == sorted_rotations(data@),
        forall|p: int| 0 <= p < sa@.len() ==> #[trigger] sa@[p] < data@.len(),
{
    let n = data.len();
    let ghost d = data@;
    let mut rank: Vec<u64> = Vec::with_capacity(n);
    let mut i: usize = 0;
    while i < n
        invariant
            n == data@.len(),
            i <= n,
            rank@.len() == i,
            forall|t: int| 0 <= t < i ==> #[trigger] rank@[t] == data@[t] as u64,
        decreases n - i,
    {
        rank.push(data[i] as u64);
        i = i + 1;
    }
    proof {
        lemma_ranks_initial(d, rank@);
    }
    let mut k: usize = 1;
    loop
        invariant
            n == data@.len(),
            d == data@,
            n >= 2,
            1 <= k < n,
            ranks_ok(d, rank@, k as nat),
        decreases n - k,
    {
        let (sa, r2) = bwt_round(data, &rank, k);
        if k >= n - k {
            proof {
                let mm = 2 * k as nat;
                let co = cyc_order(d, mm);
                let ro = rot_order(d);
                assert forall|p: int, q: int| 0 <= p < q < sa@.len() implies #[trigger] ro(sa@[p], sa@[q]) by {
                    assert(co(sa@[p], sa@[q]));
                    lemma_cyc_long(d, sa@[p] as int, sa@[q] as int, mm);
                }
                lemma_rot_order_total(d);
                iota(n as nat).lemma_sort_by_ensures(ro);
                lemma_sorted_unique(sa@, sorted_rotations(d), ro);
            }
            return sa;
        }
        rank = r2;
        k = k + k;
    }
}

/// Index of the unrotated input among the sorted rotations, and the last column.
fn bwt_encode_impl(data: &[u8]) -> (r: (u32, Vec<u8>))
    ensures
        r.0 == bwt_primary(data@),
        r.1@ == bwt_last(data@),
{
    let n = data.len();
    let ghost d = data@;
    if n == 0 {
        let out: Vec<u8> = Vec::new();
        assert(out@ =~= bwt_last(d));
        return (0, out);
    }
    let sa: Vec<usize> = if n == 1 {
        let mut one: Vec<usize> = Vec::new();
        one.push(0);
        proof {
            let ro = rot_order(d);
            assert(one@ =~= iota(1));
            lemma_rot_order_total(d);
            iota(1).lemma_sort_by_ensures(ro);
            assert(sorted_by(one@, ro));
            lemma_sorted_unique(one@, sorted_rotations(d), ro);
        }
        one
    } else {
        sorted_rotation_indices(data)
    };
    proof {
        let ro = rot_order(d);
        lemma_rot_order_total(d);
        iota(n as nat).lemma_sort_by_ensures(ro);
        lemma_perm(sa@, n as nat);
        assert(sa@.contains(0int as usize));
    }
    let mut last: Vec<u8> = Vec::with_capacity(n);
    let mut primary: usize = 0;
    let mut j: usize = 0;
    while j < n
        invariant
            n == data@.len(),
            n >= 1,
            d == data@,
            sa@ == sorted_rotations(d),
            sa@.len() == n,
            sa@.no_duplicates(),
            sa@.contains(0usize),
            forall|p: int| 0 <= p < n ==> #[trigger] sa@[p] < n,
            j <= n,
            last@ == bwt_last(d).subrange(0, j as int),
            primary < n,
            (exists|p: int| 0 <= p < j && sa@[p] == 0) ==> sa@[primary as int] == 0,
        decreases n - j,
    {
        let v = sa[j];
        let pos = if v == 0 {
            n - 1
        } else {
            v - 1
        };
        proof {
            if v == 0 {
                lemma_small_mod((n - 1) as nat, n as nat);
            } else {
                lemma_mod_add_multiples_vanish((v - 1) as int, n as int);
                lemma_small_mod((v - 1) as nat, n as nat);
            }
        }
        last.push(data[pos]);
        if v == 0 {
            primary = j;
        }
        j = j + 1;
        assert(last@ =~= bwt_last(d).subrange(0, j as int));
    }
    proof {
        assert(sa@.contains(0usize));
        let p0 = choose|p: int| 0 <= p < sa@.len() && sa@[p] == 0;
        assert(sa@[primary as int] == 0);
        assert(p0 == primary as int);
        assert(last@ =~= bwt_last(d));
    }
    (primary as u32, last)
}

/// Encode data using the Burrows-Wheeler transform: (primary index, last column).
pub fn bwt_encode(data: &[u8]) -> (r: (u32, Vec<u8>))
    ensures
        r.0 == bwt_primary(data@),
        r.1@ == bwt_last(data@),
{
    bwt_encode_impl(data)
}

// ───────────────────────────── inverse ─────────────────────────────

/// Occurrences of `c` in `s`.
pub open spec fn count_eq(s: Seq<u8>, c: u8) -> nat
    decreases s.len(),
{
    if s.len() == 0 {
        0
    } else {
        count_eq(s.drop_last(), c) + if s.last() == c { 1nat } else { 0nat }
    }
}

/// Bytes of `s` smaller than `c`.
pub open spec fn count_lt(s: Seq<u8>, c: int) -> nat
    decreases s.len(),
{
    if s.len() == 0 {
        0
    } else {
        count_lt(s.drop_last(), c) + if (s.last() as int) < c { 1nat } else { 0nat }
    }
}

/// LF mapping: the row of the first column that holds the byte at row `i` of
/// the last column `s`.
pub open spec fn lf(s: Seq<u8>, i: int) -> int {
    (count_lt(s, s[i] as int) + count_eq(s.subrange(0, i), s[i])) as int
}

/// The row reached after `t` LF steps from row `p`.
pub open spec fn lf_walk(s: Seq<u8>, p: int, t: nat) -> int
    decreases t,
{
    if t == 0 {
        p
    } else {
        lf(s, lf_walk(s, p, (t - 1) as nat))
    }
}

/// Inverse BWT: the bytes met along the LF walk from `primary`, reversed.
pub open spec fn bwt_inverse(primary: u32, last: Seq<u8>) -> Seq<u8> {
    let n = last.len();
    if n <= 1 {
        last
    } else {
        Seq::new(n, |i: int| last[lf_walk(last, primary as int, (n - 1 - i) as nat)])
    }
}

proof fn lemma_count_lt_step(s: Seq<u8>, c: int)
    requires
        0 <= c < 256,
    ensures
        count_lt(s, c + 1) == count_lt(s, c) + count_eq(s, c as u8),
    decreases s.len(),
{
    if s.len() > 0 {
        lemma_count_lt_step(s.drop_last(), c);
    }
}

proof fn lemma_count_lt_zero(s: Seq<u8>)
    ensures
        count_lt(s, 0) == 0,
    decreases s.len(),
{
    if s.len() > 0 {
        lemma_count_lt_zero(s.drop_last());
    }
}

proof fn lemma_count_lt_all(s: Seq<u8>)
    ensures
        count_lt(s, 256) == s.len(),
    decreases s.len(),
{
    if s.len() > 0 {
        lemma_count_lt_all(s.drop_last());
    }
}

proof fn lemma_count_lt_mono(s: Seq<u8>, c1: int, c2: int)
    requires
        c1 <= c2,
    ensures
        count_lt(s, c1) <= count_lt(s, c2),
    decreases s.len(),
{
    if s.len() > 0 {
        lemma_count_lt_mono(s.drop_last(), c1, c2);
    }
}

proof fn lemma_count_eq_prefix_mono(s: Seq<u8>, i: int, j: int, c: u8)
    requires
        0 <= i <= j <= s.len(),
    ensures
        count_eq(s.subrange(0, i), c) <= count_eq(s.subrange(0, j), c),
    decreases j - i,
{
    if i < j {
        lemma_count_eq_prefix_mono(s, i, j - 1, c);
        assert(s.subrange(0, j).drop_last() =~= s.subrange(0, j - 1));
    }
}

/// LF maps rows to rows.
proof fn lemma_lf_bound(s: Seq<u8>, i: int)
    requires
        0 <= i < s.len(),
    ensures
        0 <= lf(s, i) < s.len(),
{
    let c = s[i];
    lemma_count_eq_prefix_mono(s, i + 1, s.len() as int, c);
    assert(s.subrange(0, i + 1).drop_last() =~= s.subrange(0, i));
    assert(s.subrange(0, s.len() as int) =~= s);
    lemma_count_lt_step(s, c as int);
    lemma_count_lt_mono(s, c as int + 1, 256);
    lemma_count_lt_all(s);
}

proof fn lemma_lf_walk_bound(s: Seq<u8>, p: int, t: nat)
    requires
        0 <= p < s.len(),
    ensures
        0 <= lf_walk(s, p, t) < s.len(),
    decreases t,
{
    if t > 0 {
        lemma_lf_walk_bound(s, p, (t - 1) as nat);
        lemma_lf_bound(s, lf_walk(s, p, (t - 1) as nat));
    }
}

/// The LF table of a last column.
fn lf_table(last: &[u8]) -> (lfv: Vec<usize>)
    ensures
        lfv@.len() == last@.len(),
        forall|i: int| 0 <= i < last@.len() ==> #[trigger] lfv@[i] == lf(last@, i),
{
    let n = last.len();
    let ghost s = last@;
    let mut occ: Vec<usize> = vec![0usize; 256];
    let mut l_rank: Vec<usize> = Vec::with_capacity(n);
    let mut i: usize = 0;
    while i < n
        invariant
            n == last@.len(),
            s == last@,
            i <= n,
            occ@.len() == 256,
            forall|c: int| 0 <= c < 256 ==> #[trigger] occ@[c] == count_eq(s.subrange(0, i as int), c as u8),
            forall|c: int| 0 <= c < 256 ==> #[trigger] occ@[c] <= i,
            l_rank@.len() == i,
            forall|t: int| 0 <= t < i ==> #[trigger] l_rank@[t] == count_eq(s.subrange(0, t), s[t]),
        decreases n - i,
    {
        let c = last[i] as usize;
        let ghost pre = s.subrange(0, i as int);
        l_rank.push(occ[c]);
        let v = occ[c] + 1;
        occ.set(c, v);
        i = i + 1;
        proof {
            assert(s.subrange(0, i as int).drop_last() =~= pre);
            assert forall|cc: int| 0 <= cc < 256 implies #[trigger] occ@[cc] == count_eq(
                s.subrange(0, i as int),
                cc as u8,
            ) by {
                if cc != c {
                    assert(cc as u8 != s[i - 1]);
                }
            }
        }
    }
    assert(s.subrange(0, n as int) =~= s);
    let mut first: Vec<usize> = vec![0usize; 256];
    let mut acc: usize = 0;
    proof {
        lemma_count_lt_zero(s);
    }
    let mut c: usize = 0;
    while c < 256
        invariant
            n == last@.len(),
            s == last@,
            c <= 256,
            occ@.len() == 256,
            first@.len() == 256,
            forall|cc: int| 0 <= cc < 256 ==> #[trigger] occ@[cc] == count_eq(s, cc as u8),
            acc == count_lt(s, c as int),
            forall|cc: int| 0 <= cc < c ==> #[trigger] first@[cc] == count_lt(s, cc),
        decreases 256 - c,
    {
        first.set(c, acc);
        proof {
            lemma_count_lt_step(s, c as int);
            lemma_count_lt_mono(s, c as int + 1, 256);
            lemma_count_lt_all(s);
        }
        acc = acc + occ[c];
        c = c + 1;
    }
    let mut lfv: Vec<usize> = Vec::with_capacity(n);
    let mut i: usize = 0;
    while i < n
        invariant
            n == last@.len(),
            s == last@,
            i <= n,
            first@.len() == 256,
            forall|cc: int| 0 <= cc < 256 ==> #[trigger] first@[cc] == count_lt(s, cc),
            l_rank@.len() == n,
            forall|t: int| 0 <= t < n ==> #[trigger] l_rank@[t] == count_eq(s.subrange(0, t), s[t]),
            lfv@.len() == i,
            forall|t: int| 0 <= t < i ==> #[trigger] lfv@[t] == lf(s, t),
        decreases n - i,
    {
        proof {
            lemma_lf_bound(s, i as int);
        }
        let v = first[last[i] as usize] + l_rank[i];
        lfv.push(v);
        i = i + 1;
    }
    lfv
}

/// Decode a Burrows-Wheeler transform from its primary index and last column.
pub fn bwt_decode(primary: u32, last: &[u8]) -> (out: Vec<u8>)
    requires
        last@.len() <= 1 || primary < last@.len(),
    ensures
        out@ == bwt_inverse(primary, last@),
{
    let n = last.len();
    let ghost s = last@;
    if n <= 1 {
        let mut out: Vec<u8> = Vec::new();
        out.extend_from_slice(last);
        return out;
    }
    let lfv = lf_table(last);
    let mut walk: Vec<u8> = Vec::with_capacity(n);
    let mut pos: usize = primary as usize;
    let mut t: usize = 0;
    while t < n
        invariant
            n == last@.len(),
            s == last@,
            n >= 2,
            primary < n,
            t <= n,
            lfv@.len() == n,
            forall|i: int| 0 <= i < n ==> #[trigger] lfv@[i] == lf(s, i),
            pos == lf_walk(s, primary as int, t as nat),
            pos < n,
            walk@.len() == t,
            forall|u: int| 0 <= u < t ==> #[trigger] walk@[u] == s[lf_walk(s, primary as int, u as nat)],
        decreases n - t,
    {
        walk.push(last[pos]);
        proof {
            lemma_lf_bound(s, pos as int);
        }
        pos = lfv[pos];
        t = t + 1;
    }
    let mut out: Vec<u8> = Vec::with_capacity(n);
    let mut i: usize = 0;
    while i < n
        invariant
            n == last@.len(),
            s == last@,
            n >= 2,
            i <= n,
            walk@.len() == n,
            forall|u: int| 0 <= u < n ==> #[trigger] walk@[u] == s[lf_walk(s, primary as int, u as nat)],
            out@ == bwt_inverse(primary, s).subrange(0, i as int),
        decreases n - i,
    {
        out.push(walk[n - 1 - i]);
        i = i + 1;
        assert(out@ =~= bwt_inverse(primary, s).subrange(0, i as int));
    }
    assert(out@ =~= bwt_inverse(primary, s));
    out
}

// ───────────────────────────── derived forms ─────────────────────────────

/// `k` BWT passes, each applied to the previous last column; the primary is
/// that of the final pass (0 when no pass runs).
pub open spec fn bwt_iter(d: Seq<u8>, k: nat) -> (u32, Seq<u8>)
    decreases k,
{
    if k == 0 {
        (0, d)
    } else {
        let prev = bwt_iter(d, (k - 1) as nat).1;
        (bwt_primary(prev), bwt_last(prev))
    }
}

/// Encode with iterative BWT passes.
pub fn bwt_encode_iterative(data: &[u8], passes: usize) -> (r: (u32, Vec<u8>))
    ensures
        r.0 == bwt_iter(data@, passes as nat).0,
        r.1@ == bwt_iter(data@, passes as nat).1,
{
    let mut current: Vec<u8> = Vec::new();
    current.extend_from_slice(data);
    let mut final_primary: u32 = 0;
    let mut p: usize = 0;
    while p < passes
        invariant
            p <= passes,
            final_primary == bwt_iter(data@, p as nat).0,
            current@ == bwt_iter(data@, p as nat).1,
        decreases passes - p,
    {
        let (primary, last) = bwt_encode_impl(current.as_slice());
        final_primary = primary;
        current = last;
        p = p + 1;
    }
    (final_primary, current)
}

/// Pack BWT output: `[u32 primary][last column]`.
pub fn pack_bwt(primary: u32, last: &[u8]) -> (out: Vec<u8>)
    ensures
        out@ == le32_bytes(primary) + last@,
{
    let mut out: Vec<u8> = Vec::new();
    push_u32_le(&mut out, primary);
    out.extend_from_slice(last);
    out
}

/// Unpack BWT bytes: (primary, last column); (0, empty) when shorter than 4 bytes.
pub fn unpack_bwt(data: &[u8]) -> (r: (u32, &[u8]))
    ensures
        data@.len() < 4 ==> r.0 == 0 && r.1@ == Seq::<u8>::empty(),
        data@.len() >= 4 ==> r.0 == le32_at(data@, 0) && r.1@ == data@.subrange(4, data@.len() as int),
{
    if data.len() < 4 {
        return (0, slice_range(data, 0, 0));
    }
    let primary = read_u32_le(data, 0);
    (primary, slice_range(data, 4, data.len()))
}

/// Chunks of `cs` bytes (the last one shorter), each as
/// `[len(4)][primary(4)][last column]`.
pub open spec fn bwt_chunks(d: Seq<u8>, cs: nat) -> Seq<u8>
    decreases d.len(),
{
    if d.len() == 0 || cs == 0 {
        Seq::empty()
    } else {
        let n = if cs < d.len() { cs } else { d.len() };
        let c = d.subrange(0, n as int);
        le32_bytes(n as u32) + le32_bytes(bwt_primary(c)) + bwt_last(c) + bwt_chunks(
            d.subrange(n as int, d.len() as int),
            cs,
        )
    }
}

/// Number of chunks of `cs` bytes that cover `len` bytes.
pub open spec fn chunk_count(len: nat, cs: nat) -> nat {
    if cs == 0 {
        0
    } else {
        (len / cs + if len % cs != 0 { 1nat } else { 0nat }) as nat
    }
}

proof fn lemma_bwt_chunks_step(d: Seq<u8>, cs: nat)
    requires
        d.len() > 0,
        cs > 0,
    ensures
        ({
            let n = if cs < d.len() { cs } else { d.len() };
            let c = d.subrange(0, n as int);
            bwt_chunks(d, cs) == le32_bytes(n as u32) + le32_bytes(bwt_primary(c)) + bwt_last(c)
                + bwt_chunks(d.subrange(n as int, d.len() as int), cs)
        }),
{
}

/// Chunked BWT: `[num_chunks(4)]`, then for each chunk of `chunk_size`
/// bytes (the last one possibly shorter) `[len(4)][primary(4)]` and its BWT
/// last column.  Data that fits one chunk is written as one such chunk.
pub fn bwt_encode_chunked(data: &[u8], chunk_size: usize) -> (out: Vec<u8>)
    requires
        chunk_size > 0 || data@.len() == 0,
    ensures
        out@ == le32_bytes(chunk_count(data@.len(), chunk_size as nat) as u32) + bwt_chunks(data@, chunk_size as nat),
{
    if data.len() == 0 {
        let mut out: Vec<u8> = Vec::new();
        push_u32_le(&mut out, 0);
        assert(out@ =~= le32_bytes(0u32) + Seq::<u8>::empty());
        return out;
    }
    let ghost cs = chunk_size as nat;
    let q = data.len() / chunk_size;
    let num_chunks = if data.len() % chunk_size != 0 {
        proof {
            let len = data.len() as int;
            let c = chunk_size as int;
            assert(q < len) by (nonlinear_arith)
                requires
                    q == len / c,
                    c >= 1,
                    len % c != 0,
                    len >= 0,
            {
                assert(len == c * (len / c) + len % c);
            }
        }
        q + 1
    } else {
        q
    };
    let mut out: Vec<u8> = Vec::new();
    push_u32_le(&mut out, num_chunks as u32);
    let ghost head = out@;
    let mut start: usize = 0;
    assert(data@.subrange(0, data@.len() as int) =~= data@);
    while start < data.len()
        invariant
            start <= data@.len(),
            chunk_size > 0,
            cs == chunk_size as nat,
            out@ + bwt_chunks(data@.subrange(start as int, data@.len() as int), cs) == head + bwt_chunks(
                data@,
                cs,
            ),
        decreases data@.len() - start,
    {
        let ghost rest = data@.subrange(start as int, data@.len() as int);
        let n = if chunk_size < data.len() - start {
            chunk_size
        } else {
            data.len() - start
        };
        let chunk = slice_range(data, start, start + n);
        let (primary, last) = bwt_encode_impl(chunk);
        let ghost old_out = out@;
        push_u32_le(&mut out, last.len() as u32);
        push_u32_le(&mut out, primary);
        out.extend_from_slice(last.as_slice());
        proof {
            let tail = data@.subrange(start + n, data@.len() as int);
            assert(chunk@ =~= rest.subrange(0, n as int));
            assert(tail =~= rest.subrange(n as int, rest.len() as int));
            lemma_bwt_chunks_step(rest, cs);
            let a = le32_bytes(n as u32);
            let b = le32_bytes(primary);
            let t = bwt_chunks(tail, cs);
            assert(out@ =~= old_out + a + b + last@);
            assert(old_out + a + b + last@ + t =~= old_out + (a + b + last@ + t));
        }
        start = start + n;
    }
    assert(data@.subrange(start as int, data@.len() as int) =~= Seq::<u8>::empty());
    assert(out@ =~= out@ + bwt_chunks(Seq::<u8>::empty(), cs));
    out
}

/// Every chunk among the next `count` of a chunk stream that is read in full
/// has a primary inside its last column (or at most one byte).
pub open spec fn bwt_chunks_valid(rest: Seq<u8>, count: nat) -> bool
    decreases count,
{
    if count == 0 || rest.len() < 8 {
        true
    } else {
        let l = le32_at(rest, 0) as int;
        let p = le32_at(rest, 4);
        if 8 + l > rest.len() {
            true
        } else {
            (l <= 1 || p < l) && bwt_chunks_valid(rest.subrange(8 + l, rest.len() as int), (count - 1) as nat)
        }
    }
}

/// The bytes decoded from the next `count` chunks; a truncated chunk ends them.
pub open spec fn bwt_chunks_inverse(rest: Seq<u8>, count: nat) -> Seq<u8>
    decreases count,
{
    if count == 0 || rest.len() < 8 {
        Seq::empty()
    } else {
        let l = le32_at(rest, 0) as int;
        let p = le32_at(rest, 4);
        if 8 + l > rest.len() {
            Seq::empty()
        } else {
            bwt_inverse(p, rest.subrange(8, 8 + l)) + bwt_chunks_inverse(
                rest.subrange(8 + l, rest.len() as int),
                (count - 1) as nat,
            )
        }
    }
}

/// Input on which chunked decoding runs to the end.
pub open spec fn bwt_chunked_decodable(d: Seq<u8>) -> bool {
    d.len() < 4 || bwt_chunks_valid(d.subrange(4, d.len() as int), le32_at(d, 0) as nat)
}

/// Whether chunked decoding of `data` runs to the end: every chunk read in
/// full has its primary inside its last column.
pub fn bwt_chunked_ok(data: &[u8]) -> (b: bool)
    ensures
        b == bwt_chunked_decodable(data@),
{
    let len = data.len();
    if len < 4 {
        return true;
    }
    let num_chunks = read_u32_le(data, 0) as u64;
    let ghost d = data@;
    let mut offset: usize = 4;
    let mut c: u64 = 0;
    assert(d.subrange(4, d.len() as int) =~= d.subrange(offset as int, d.len() as int));
    while c < num_chunks
        invariant
            len == d.len(),
            d == data@,
            4 <= offset <= len,
            c <= num_chunks,
            num_chunks == le32_at(d, 0),
            bwt_chunks_valid(d.subrange(4, d.len() as int), num_chunks as nat) == bwt_chunks_valid(
                d.subrange(offset as int, d.len() as int),
                (num_chunks - c) as nat,
            ),
        decreases num_chunks - c,
    {
        let ghost rest = d.subrange(offset as int, d.len() as int);
        if len - offset < 8 {
            return true;
        }
        let l = read_u32_le(data, offset) as usize;
        let p = read_u32_le(data, offset + 4);
        proof {
            lemma_le32_at_suffix(d, offset as int);
            lemma_le32_at_suffix(d, offset + 4);
            lemma_le32_at_suffix(rest, 4);
            assert(rest.subrange(4, rest.len() as int) =~= d.subrange(offset + 4, d.len() as int));
        }
        if l > len - offset - 8 {
            return true;
        }
        if !(l <= 1 || (p as usize) < l) {
            proof {
                assert(le32_at(rest, 0) == l);
                assert(le32_at(rest, 4) == p);
                assert(!bwt_chunks_valid(rest, (num_chunks - c) as nat));
                assert(!bwt_chunks_valid(d.subrange(4, d.len() as int), num_chunks as nat));
                assert(!bwt_chunked_decodable(d));
            }
            return false;
        }
        proof {
            assert(rest.subrange(8 + l, rest.len() as int) =~= d.subrange(offset + 8 + l, d.len() as int));
        }
        offset = offset + 8 + l;
        c = c + 1;
    }
    true
}

/// What chunked decoding gives.
pub open spec fn bwt_chunked_inverse(d: Seq<u8>) -> Seq<u8> {
    if d.len() < 4 {
        Seq::empty()
    } else {
        bwt_chunks_inverse(d.subrange(4, d.len() as int), le32_at(d, 0) as nat)
    }
}

proof fn lemma_bwt_chunks_inverse_step(rest: Seq<u8>, count: nat)
    requires
        count > 0,
        rest.len() >= 8,
        8 + le32_at(rest, 0) <= rest.len(),
    ensures
        ({
            let l = le32_at(rest, 0) as int;
            &&& bwt_chunks_inverse(rest, count) == bwt_inverse(le32_at(rest, 4), rest.subrange(8, 8 + l))
                + bwt_chunks_inverse(rest.subrange(8 + l, rest.len() as int), (count - 1) as nat)
            &&& bwt_chunks_valid(rest, count) == ((l <= 1 || le32_at(rest, 4) < l) && bwt_chunks_valid(
                rest.subrange(8 + l, rest.len() as int),
                (count - 1) as nat,
            ))
        }),
{
}

/// Decode a chunked BWT stream.
pub fn bwt_decode_chunked(data: &[u8]) -> (out: Vec<u8>)
    requires
        bwt_chunked_decodable(data@),
    ensures
        out@ == bwt_chunked_inverse(data@),
{
    if data.len() < 4 {
        return Vec::new();
    }
    let ghost d = data@;
    let num_chunks = read_u32_le(data, 0) as usize;
    let ghost full = d.subrange(4, d.len() as int);
    let mut out: Vec<u8> = Vec::new();
    let mut offset: usize = 4;
    let mut c: usize = 0;
    assert(d.subrange(4, d.len() as int) =~= full);
    assert(out@ + bwt_chunks_inverse(full, num_chunks as nat) =~= bwt_chunks_inverse(full, num_chunks as nat));
    loop
        invariant
            4 <= offset <= d.len(),
            d == data@,
            full == d.subrange(4, d.len() as int),
            c <= num_chunks,
            bwt_chunks_valid(d.subrange(offset as int, d.len() as int), (num_chunks - c) as nat),
            out@ + bwt_chunks_inverse(d.subrange(offset as int, d.len() as int), (num_chunks - c) as nat)
                == bwt_chunks_inverse(full, num_chunks as nat),
        ensures
            out@ == bwt_chunks_inverse(full, num_chunks as nat),
        decreases num_chunks - c,
    {
        let ghost rest = d.subrange(offset as int, d.len() as int);
        if c >= num_chunks {
            assert(out@ =~= out@ + bwt_chunks_inverse(rest, 0));
            break ;
        }
        if data.len() - offset < 8 {
            assert(out@ =~= out@ + bwt_chunks_inverse(rest, (num_chunks - c) as nat));
            break ;
        }
        let chunk_len = read_u32_le(data, offset) as usize;
        let primary = read_u32_le(data, offset + 4);
        proof {
            lemma_le32_at_suffix(d, offset as int);
            lemma_le32_at_suffix(d, offset + 4);
            assert(d.subrange(offset + 4, d.len() as int) =~= rest.subrange(4, rest.len() as int));
            lemma_le32_at_suffix(rest, 4);
        }
        if data.len() - offset - 8 < chunk_len {
            assert(out@ =~= out@ + bwt_chunks_inverse(rest, (num_chunks - c) as nat));
            break ;
        }
        let last = slice_range(data, offset + 8, offset + 8 + chunk_len);
        proof {
            lemma_bwt_chunks_inverse_step(rest, (num_chunks - c) as nat);
            assert(last@ =~= rest.subrange(8, 8 + chunk_len));
            assert(d.subrange(offset + 8 + chunk_len, d.len() as int) =~= rest.subrange(
                8 + chunk_len,
                rest.len() as int,
            ));
        }
        let decoded = bwt_decode(primary, last);
        let ghost old_out = out@;
        out.extend_from_slice(decoded.as_slice());
        proof {
            let t = bwt_chunks_inverse(d.subrange(offset + 8 + chunk_len, d.len() as int), (num_chunks - c - 1) as nat);
            assert(old_out + decoded@ + t =~= old_out + (decoded@ + t));
        }
        offset = offset + 8 + chunk_len;
        c = c + 1;
    }
    out
}

/// Chunked BWT output is already in the form MTF takes.
pub fn pack_chunked_bwt(encoded: &[u8]) -> (out: Vec<u8>)
    ensures
        out@ == encoded@,
{
    let mut out: Vec<u8> = Vec::new();
    out.extend_from_slice(encoded);
    out
}

// ───────────────────────────── roundtrip ─────────────────────────────

/// The rotation index just before `i` among `n` rotations.
pub open spec fn prev_rot(n: int, i: int) -> int {
    (i + n - 1) % n
}

/// Number of elements of `s` that satisfy `p`.
pub open spec fn cnt(s: Seq<usize>, p: spec_fn(usize) -> bool) -> nat
    decreases s.len(),
{
    if s.len() == 0 {
        0
    } else {
        cnt(s.drop_last(), p) + if p(s.last()) { 1nat } else { 0nat }
    }
}

proof fn lemma_cnt_add(a: Seq<usize>, b: Seq<usize>, p: spec_fn(usize) -> bool)
    ensures
        cnt(a + b, p) == cnt(a, p) + cnt(b, p),
    decreases b.len(),
{
    if b.len() == 0 {
        assert(a + b =~= a);
    } else {
        assert((a + b).drop_last() =~= a + b.drop_last());
        lemma_cnt_add(a, b.drop_last(), p);
    }
}

proof fn lemma_cnt_split(s: Seq<usize>, p: spec_fn(usize) -> bool, q1: spec_fn(usize) -> bool, q2: spec_fn(usize) -> bool)
    requires
        forall|k: int| 0 <= k < s.len() ==> #[trigger] p(s[k]) == (q1(s[k]) || q2(s[k])),
        forall|k: int| 0 <= k < s.len() ==> !(#[trigger] q1(s[k]) && q2(s[k])),
    ensures
        cnt(s, p) == cnt(s, q1) + cnt(s, q2),
    decreases s.len(),
{
    if s.len() > 0 {
        let t = s.drop_last();
        assert forall|k: int| 0 <= k < t.len() implies #[trigger] p(t[k]) == (q1(t[k]) || q2(t[k])) by {
            assert(t[k] == s[k]);
        }
        assert forall|k: int| 0 <= k < t.len() implies !(#[trigger] q1(t[k]) && q2(t[k])) by {
            assert(t[k] == s[k]);
        }
        lemma_cnt_split(t, p, q1, q2);
        assert(p(s[s.len() - 1]) == (q1(s[s.len() - 1]) || q2(s[s.len() - 1])));
        assert(!(q1(s[s.len() - 1]) && q2(s[s.len() - 1])));
    }
}

proof fn lemma_cnt_ext(s: Seq<usize>, p: spec_fn(usize) -> bool, q: spec_fn(usize) -> bool)
    requires
        forall|k: int| 0 <= k < s.len() ==> #[trigger] p(s[k]) == q(s[k]),
    ensures
        cnt(s, p) == cnt(s, q),
    decreases s.len(),
{
    if s.len() > 0 {
        let t = s.drop_last();
        assert forall|k: int| 0 <= k < t.len() implies #[trigger] p(t[k]) == q(t[k]) by {
            assert(t[k] == s[k]);
        }
        lemma_cnt_ext(t, p, q);
        assert(p(s[s.len() - 1]) == q(s[s.len() - 1]));
    }
}

proof fn lemma_cnt_all(s: Seq<usize>, p: spec_fn(usize) -> bool)
    requires
        forall|k: int| 0 <= k < s.len() ==> #[trigger] p(s[k]),
    ensures
        cnt(s, p) == s.len(),
    decreases s.len(),
{
    if s.len() > 0 {
        assert(p(s[s.len() - 1]));
        lemma_cnt_all(s.drop_last(), p);
    }
}

proof fn lemma_cnt_none(s: Seq<usize>, p: spec_fn(usize) -> bool)
    requires
        forall|k: int| 0 <= k < s.len() ==> !#[trigger] p(s[k]),
    ensures
        cnt(s, p) == 0,
    decreases s.len(),
{
    if s.len() > 0 {
        assert(!p(s[s.len() - 1]));
        lemma_cnt_none(s.drop_last(), p);
    }
}

proof fn lemma_cnt_le_len(s: Seq<usize>, p: spec_fn(usize) -> bool)
    ensures
        cnt(s, p) <= s.len(),
    decreases s.len(),
{
    if s.len() > 0 {
        lemma_cnt_le_len(s.drop_last(), p);
    }
}

proof fn lemma_cnt_single(x: usize, p: spec_fn(usize) -> bool)
    ensures
        cnt(seq![x], p) == (if p(x) { 1nat } else { 0nat }),
{
    reveal_with_fuel(cnt, 2);
    assert(seq![x].drop_last() =~= Seq::<usize>::empty());
}

/// Counting does not depend on the order of the elements.
proof fn lemma_cnt_perm(s1: Seq<usize>, s2: Seq<usize>, p: spec_fn(usize) -> bool)
    requires
        s1.to_multiset() == s2.to_multiset(),
    ensures
        cnt(s1, p) == cnt(s2, p),
    decreases s1.len(),
{
    broadcast use group_to_multiset_ensures;

    if s1.len() == 0 {
        assert(s2.to_multiset().len() == 0);
        assert(s2.len() == 0);
    } else {
        let x = s1.last();
        let rest = s1.drop_last();
        assert(s1 =~= rest.push(x));
        assert(s1.to_multiset() == rest.to_multiset().insert(x));
        assert(s1.to_multiset().count(x) > 0);
        assert(s2.contains(x));
        let k = choose|k: int| 0 <= k < s2.len() && s2[k] == x;
        vstd::seq_lib::to_multiset_remove(s2, k);
        assert(rest.to_multiset() =~= s2.to_multiset().remove(x));
        lemma_cnt_perm(rest, s2.remove(k), p);
        let a = s2.subrange(0, k);
        let b = s2.subrange(k + 1, s2.len() as int);
        assert(s2 =~= a + seq![x] + b);
        assert(s2.remove(k) =~= a + b);
        assert(rest =~= s1.drop_last());
        lemma_cnt_add(a + seq![x], b, p);
        lemma_cnt_add(a, seq![x], p);
        lemma_cnt_add(a, b, p);
        lemma_cnt_single(x, p);
    }
}

/// A prefix of the indices `0..n`.
proof fn lemma_iota_drop_last(n: nat)
    requires
        n > 0,
    ensures
        iota(n).drop_last() == iota((n - 1) as nat),
        iota(n).last() == (n - 1) as usize,
{
    assert(iota(n).drop_last() =~= iota((n - 1) as nat));
}

/// Counting `p` of the previous rotation over all indices counts `p` itself.
proof fn lemma_cnt_prev(n: nat, p: spec_fn(usize) -> bool)
    requires
        1 <= n <= usize::MAX,
    ensures
        cnt(iota(n), |i: usize| p(prev_rot(n as int, i as int) as usize)) == cnt(iota(n), p),
{
    let q = |i: usize| p(prev_rot(n as int, i as int) as usize);
    let m = (n - 1) as nat;
    let tail = Seq::new(m, |t: int| (t + 1) as usize);
    assert(iota(n) =~= seq![0usize] + tail);
    lemma_cnt_add(seq![0usize], tail, q);
    lemma_cnt_single(0usize, q);
    assert(prev_rot(n as int, 0) == m) by {
        lemma_small_mod(m, n);
    }
    lemma_cnt_shift(tail, iota(m), n, p);
    lemma_iota_drop_last(n);
    assert(cnt(seq![0usize], q) == (if p(m as usize) { 1nat } else { 0nat }));
    assert(cnt(iota(n), q) == cnt(seq![0usize], q) + cnt(tail, q));
    assert(cnt(iota(n), p) == cnt(iota(m), p) + (if p(m as usize) { 1nat } else { 0nat }));
}

proof fn lemma_cnt_shift(tail: Seq<usize>, base: Seq<usize>, n: nat, p: spec_fn(usize) -> bool)
    requires
        1 <= n <= usize::MAX,
        tail.len() == base.len(),
        base.len() <= n - 1,
        forall|t: int| 0 <= t < base.len() ==> #[trigger] base[t] == t as usize,
        forall|t: int| 0 <= t < tail.len() ==> #[trigger] tail[t] == (t + 1) as usize,
    ensures
        cnt(tail, |i: usize| p(prev_rot(n as int, i as int) as usize)) == cnt(base, p),
    decreases tail.len(),
{
    let q = |i: usize| p(prev_rot(n as int, i as int) as usize);
    if tail.len() > 0 {
        let l = tail.len() - 1;
        lemma_cnt_shift(tail.drop_last(), base.drop_last(), n, p);
        assert(prev_rot(n as int, l + 1) == l) by {
            lemma_mod_add_multiples_vanish(l, n as int);
            lemma_small_mod(l as nat, n);
        }
        assert(q(tail.last()) == p(base.last()));
    }
}

/// Rotation `i` is the previous rotation shifted left: its first `n - 1` bytes
/// follow the byte before `i`, and that byte closes it.
proof fn lemma_rotation_prev(d: Seq<u8>, i: int)
    requires
        d.len() >= 1,
        0 <= i < d.len(),
    ensures
        rotation(d, prev_rot(d.len() as int, i)) == seq![d[prev_rot(d.len() as int, i)]]
            + rotation(d, i).take(d.len() - 1),
        rotation(d, i) == rotation(d, i).take(d.len() - 1) + seq![d[prev_rot(d.len() as int, i)]],
        0 <= prev_rot(d.len() as int, i) < d.len(),
{
    let n = d.len() as int;
    let pi = prev_rot(n, i);
    if i == 0 {
        lemma_small_mod((n - 1) as nat, n as nat);
    } else {
        lemma_mod_add_multiples_vanish(i - 1, n);
        lemma_small_mod((i - 1) as nat, n as nat);
    }
    let a = rotation(d, pi);
    let b = seq![d[pi]] + rotation(d, i).take(n - 1);
    assert forall|t: int| 0 <= t < n implies a[t] == b[t] by {
        if t == 0 {
            lemma_small_mod(pi as nat, n as nat);
        } else if i == 0 {
            lemma_mod_add_multiples_vanish(t - 1, n);
        } else {
            assert(pi + t == i + (t - 1));
        }
    }
    assert(a =~= b);
    let r = rotation(d, i);
    assert(r =~= r.take(n - 1) + seq![d[pi]]);
}

/// The sorted rotation indices are the indices `0..n`, each once, in rotation order.
proof fn lemma_sa_facts(d: Seq<u8>)
    requires
        d.len() <= usize::MAX,
    ensures
        sorted_rotations(d).to_multiset() == iota(d.len()).to_multiset(),
        sorted_by(sorted_rotations(d), rot_order(d)),
        sorted_rotations(d).len() == d.len(),
        forall|p: int| 0 <= p < d.len() ==> #[trigger] sorted_rotations(d)[p] < d.len(),
        d.len() > 0 ==> sorted_rotations(d).contains(0usize),
{
    lemma_rot_order_total(d);
    iota(d.len()).lemma_sort_by_ensures(rot_order(d));
    lemma_perm(sorted_rotations(d), d.len());
    if d.len() > 0 {
        assert(sorted_rotations(d).contains((0int) as usize));
    }
}

/// Rotations whose preceding byte is below `c`.
pub open spec fn before_lt(d: Seq<u8>, c: u8) -> spec_fn(usize) -> bool {
    |i: usize| (d[prev_rot(d.len() as int, i as int)] as int) < c as int
}

/// Rotations whose preceding byte is `c`.
pub open spec fn before_eq(d: Seq<u8>, c: u8) -> spec_fn(usize) -> bool {
    |i: usize| d[prev_rot(d.len() as int, i as int)] == c
}

/// Rotations preceded by `c` and smaller than `q`.
pub open spec fn before_eq_lt(d: Seq<u8>, c: u8, q: Seq<u8>) -> spec_fn(usize) -> bool {
    |i: usize| d[prev_rot(d.len() as int, i as int)] == c && lex_lt(rotation(d, i as int), q)
}

/// Rotations preceded by `c` and equal to `q`.
pub open spec fn before_eq_eq(d: Seq<u8>, c: u8, q: Seq<u8>) -> spec_fn(usize) -> bool {
    |i: usize| d[prev_rot(d.len() as int, i as int)] == c && rotation(d, i as int) == q
}

/// Rotations smaller than `x`.
pub open spec fn rot_lt(d: Seq<u8>, x: Seq<u8>) -> spec_fn(usize) -> bool {
    |i: usize| lex_lt(rotation(d, i as int), x)
}

/// Rotations equal to `x`.
pub open spec fn rot_eq(d: Seq<u8>, x: Seq<u8>) -> spec_fn(usize) -> bool {
    |i: usize| rotation(d, i as int) == x
}

/// Rotations at most `x`.
pub open spec fn rot_le(d: Seq<u8>, x: Seq<u8>) -> spec_fn(usize) -> bool {
    |i: usize| lex_lt(rotation(d, i as int), x) || rotation(d, i as int) == x
}

/// Counts over a prefix of the last column are counts over the rows' rotations.
proof fn lemma_last_counts(d: Seq<u8>, j: int, c: u8)
    requires
        1 <= d.len() <= usize::MAX,
        0 <= j <= d.len(),
    ensures
        count_eq(bwt_last(d).subrange(0, j), c) == cnt(sorted_rotations(d).take(j), before_eq(d, c)),
        count_lt(bwt_last(d).subrange(0, j), c as int) == cnt(sorted_rotations(d).take(j), before_lt(d, c)),
    decreases j,
{
    let sa = sorted_rotations(d);
    let l = bwt_last(d);
    lemma_sa_facts(d);
    if j > 0 {
        lemma_last_counts(d, j - 1, c);
        assert(l.subrange(0, j).drop_last() =~= l.subrange(0, j - 1));
        assert(sa.take(j).drop_last() =~= sa.take(j - 1));
        assert(l.subrange(0, j).last() == d[prev_rot(d.len() as int, sa[j - 1] as int)]);
    }
}

/// `[b] + x` against `[c] + y` compares the first bytes, then the rests.
proof fn lemma_lex_cons(b: u8, x: Seq<u8>, c: u8, y: Seq<u8>)
    ensures
        lex_lt(seq![b] + x, seq![c] + y) == (b < c || (b == c && lex_lt(x, y))),
        (seq![b] + x == seq![c] + y) == (b == c && x == y),
{
    lemma_lex_concat(seq![b], x, seq![c], y);
    reveal_with_fuel(lex_lt, 2);
    assert(seq![b].drop_first() =~= Seq::<u8>::empty());
    assert(seq![c].drop_first() =~= Seq::<u8>::empty());
    if seq![b] + x == seq![c] + y {
        assert((seq![b] + x)[0] == b);
        assert(x =~= (seq![b] + x).drop_first());
        assert(y =~= (seq![c] + y).drop_first());
    }
    if b == c {
        assert(seq![b] =~= seq![c]);
    }
}

/// Rotations with the same last byte compare as their predecessors do.
proof fn lemma_prev_order(d: Seq<u8>, i: int, k: int)
    requires
        d.len() >= 1,
        0 <= i < d.len(),
        0 <= k < d.len(),
    ensures
        lex_lt(rotation(d, prev_rot(d.len() as int, i)), rotation(d, prev_rot(d.len() as int, k))) == (
        d[prev_rot(d.len() as int, i)] < d[prev_rot(d.len() as int, k)] || (d[prev_rot(
            d.len() as int,
            i,
        )] == d[prev_rot(d.len() as int, k)] && lex_lt(rotation(d, i), rotation(d, k)))),
        (rotation(d, prev_rot(d.len() as int, i)) == rotation(d, prev_rot(d.len() as int, k))) == (
        d[prev_rot(d.len() as int, i)] == d[prev_rot(d.len() as int, k)] && rotation(d, i) == rotation(
            d,
            k,
        )),
{
    let n = d.len() as int;
    let b = d[prev_rot(n, i)];
    let c = d[prev_rot(n, k)];
    let x = rotation(d, i).take(n - 1);
    let y = rotation(d, k).take(n - 1);
    lemma_rotation_prev(d, i);
    lemma_rotation_prev(d, k);
    lemma_lex_cons(b, x, c, y);
    if b == c {
        lemma_lex_concat(x, seq![b], y, seq![c]);
        lemma_lex_irrefl(seq![b]);
        if rotation(d, i) == rotation(d, k) {
            assert(x =~= y);
        }
    }
}

/// Rows holding rotations below the predecessor `pp` of row `j`'s rotation:
/// those preceded by a smaller byte, and those preceded by the same byte whose
/// rotation is below row `j`'s.
proof fn lemma_rows_below(d: Seq<u8>, j: int)
    requires
        2 <= d.len() <= usize::MAX,
        0 <= j < d.len(),
    ensures
        ({
            let sa = sorted_rotations(d);
            let c = bwt_last(d)[j];
            let q = rotation(d, sa[j] as int);
            let pp = rotation(d, prev_rot(d.len() as int, sa[j] as int));
            &&& cnt(sa, rot_lt(d, pp)) == count_lt(bwt_last(d), c as int) + cnt(sa, before_eq_lt(d, c, q))
            &&& cnt(sa, rot_eq(d, pp)) == cnt(sa, before_eq_eq(d, c, q))
        }),
{
    let n = d.len() as int;
    let sa = sorted_rotations(d);
    let l = bwt_last(d);
    let io = iota(d.len());
    lemma_sa_facts(d);
    let a = sa[j];
    let c = l[j];
    let q = rotation(d, a as int);
    let pp = rotation(d, prev_rot(n, a as int));
    lemma_rotation_prev(d, a as int);
    let lt_prev = |i: usize| rot_lt(d, pp)(prev_rot(n, i as int) as usize);
    let eq_prev = |i: usize| rot_eq(d, pp)(prev_rot(n, i as int) as usize);
    lemma_cnt_perm(sa, io, rot_lt(d, pp));
    lemma_cnt_prev(d.len(), rot_lt(d, pp));
    assert forall|k: int| 0 <= k < io.len() implies #[trigger] lt_prev(io[k]) == (before_lt(d, c)(io[k])
        || before_eq_lt(d, c, q)(io[k])) by {
        lemma_prev_order(d, k, a as int);
        lemma_rotation_prev(d, k);
        lemma_small_mod(prev_rot(n, k) as nat, n as nat);
    }
    assert forall|k: int| 0 <= k < io.len() implies !(#[trigger] before_lt(d, c)(io[k]) && before_eq_lt(
        d,
        c,
        q,
    )(io[k])) by {
    }
    lemma_cnt_split(io, lt_prev, before_lt(d, c), before_eq_lt(d, c, q));
    lemma_cnt_perm(sa, io, before_lt(d, c));
    lemma_cnt_perm(sa, io, before_eq_lt(d, c, q));
    lemma_cnt_perm(sa, io, rot_eq(d, pp));
    lemma_cnt_prev(d.len(), rot_eq(d, pp));
    assert forall|k: int| 0 <= k < io.len() implies #[trigger] eq_prev(io[k]) == before_eq_eq(d, c, q)(
        io[k],
    ) by {
        lemma_prev_order(d, k, a as int);
        lemma_rotation_prev(d, k);
        lemma_small_mod(prev_rot(n, k) as nat, n as nat);
    }
    lemma_cnt_ext(io, eq_prev, before_eq_eq(d, c, q));
    lemma_cnt_perm(sa, io, before_eq_eq(d, c, q));
    lemma_last_counts(d, n, c);
    assert(l.subrange(0, n) =~= l);
    assert(sa.take(n) =~= sa);
}

/// Among the rows before `j`, those preceded by row `j`'s last byte are the
/// ones below row `j`'s rotation and some, not all, of those equal to it.
proof fn lemma_rows_before_j(d: Seq<u8>, j: int)
    requires
        2 <= d.len() <= usize::MAX,
        0 <= j < d.len(),
    ensures
        ({
            let sa = sorted_rotations(d);
            let c = bwt_last(d)[j];
            let q = rotation(d, sa[j] as int);
            &&& cnt(sa, before_eq_lt(d, c, q)) <= count_eq(bwt_last(d).subrange(0, j), c)
            &&& count_eq(bwt_last(d).subrange(0, j), c) < cnt(sa, before_eq_lt(d, c, q)) + cnt(
                sa,
                before_eq_eq(d, c, q),
            )
        }),
{
    let n = d.len() as int;
    let sa = sorted_rotations(d);
    let l = bwt_last(d);
    lemma_sa_facts(d);
    let a = sa[j];
    let c = l[j];
    let q = rotation(d, a as int);
    lemma_last_counts(d, j, c);
    let ro = rot_order(d);
    let pre = sa.take(j);
    let suf = sa.skip(j);
    assert(sa =~= pre + suf);
    lemma_cnt_add(pre, suf, before_eq_lt(d, c, q));
    lemma_cnt_add(pre, suf, before_eq_eq(d, c, q));
    assert forall|k: int| 0 <= k < suf.len() implies !#[trigger] before_eq_lt(d, c, q)(suf[k]) by {
        assert(suf[k] == sa[k + j]);
        if k > 0 {
            assert(ro(sa[j], sa[k + j]));
            lemma_lex_trichotomy(q, rotation(d, sa[k + j] as int));
        } else {
            lemma_lex_irrefl(q);
        }
    }
    lemma_cnt_none(suf, before_eq_lt(d, c, q));
    assert(suf =~= seq![a] + suf.skip(1));
    lemma_cnt_add(seq![a], suf.skip(1), before_eq_eq(d, c, q));
    lemma_cnt_single(a, before_eq_eq(d, c, q));
    lemma_rotation_prev(d, a as int);
    assert(before_eq_eq(d, c, q)(a));
    assert forall|k: int| 0 <= k < pre.len() implies #[trigger] before_eq(d, c)(pre[k]) == (before_eq_lt(
        d,
        c,
        q,
    )(pre[k]) || before_eq_eq(d, c, q)(pre[k])) by {
        assert(pre[k] == sa[k]);
        assert(ro(sa[k], sa[j]));
    }
    assert forall|k: int| 0 <= k < pre.len() implies !(#[trigger] before_eq_lt(d, c, q)(pre[k])
        && before_eq_eq(d, c, q)(pre[k])) by {
        lemma_lex_irrefl(q);
    }
    lemma_cnt_split(pre, before_eq(d, c), before_eq_lt(d, c, q), before_eq_eq(d, c, q));
}

/// Rows are sorted, so the rows holding rotation `x` are those from the count
/// of smaller rotations up to that count plus the count of rotations equal to `x`.
proof fn lemma_row_interval(d: Seq<u8>, x: Seq<u8>, r0: int)
    requires
        2 <= d.len() <= usize::MAX,
        0 <= r0 < d.len(),
        cnt(sorted_rotations(d), rot_lt(d, x)) <= r0,
        r0 < cnt(sorted_rotations(d), rot_lt(d, x)) + cnt(sorted_rotations(d), rot_eq(d, x)),
    ensures
        rotation(d, sorted_rotations(d)[r0] as int) == x,
{
    let sa = sorted_rotations(d);
    lemma_sa_facts(d);
    let ro = rot_order(d);
    let y = rotation(d, sa[r0] as int);
    lemma_lex_trichotomy(y, x);
    if lex_lt(y, x) {
        let head = sa.take(r0 + 1);
        assert forall|k: int| 0 <= k < head.len() implies #[trigger] rot_lt(d, x)(head[k]) by {
            assert(head[k] == sa[k]);
            if k < r0 {
                assert(ro(sa[k], sa[r0]));
                if lex_lt(rotation(d, sa[k] as int), y) {
                    lemma_lex_trans(rotation(d, sa[k] as int), y, x);
                }
            }
        }
        lemma_cnt_all(head, rot_lt(d, x));
        assert(sa =~= head + sa.skip(r0 + 1));
        lemma_cnt_add(head, sa.skip(r0 + 1), rot_lt(d, x));
        assert(false);
    }
    if lex_lt(x, y) {
        let head = sa.take(r0);
        let tail = sa.skip(r0);
        assert forall|k: int| 0 <= k < tail.len() implies !#[trigger] rot_le(d, x)(tail[k]) by {
            assert(tail[k] == sa[k + r0]);
            if k > 0 {
                assert(ro(sa[r0], sa[k + r0]));
                if lex_lt(y, rotation(d, sa[k + r0] as int)) {
                    lemma_lex_trans(x, y, rotation(d, sa[k + r0] as int));
                }
            }
            lemma_lex_trichotomy(x, rotation(d, sa[k + r0] as int));
        }
        lemma_cnt_none(tail, rot_le(d, x));
        assert(sa =~= head + tail);
        lemma_cnt_add(head, tail, rot_le(d, x));
        lemma_cnt_le_len(head, rot_le(d, x));
        assert forall|k: int| 0 <= k < sa.len() implies #[trigger] rot_le(d, x)(sa[k]) == (rot_lt(d, x)(sa[k])
            || rot_eq(d, x)(sa[k])) by {
        }
        assert forall|k: int| 0 <= k < sa.len() implies !(#[trigger] rot_lt(d, x)(sa[k]) && rot_eq(d, x)(
            sa[k],
        )) by {
            lemma_lex_irrefl(x);
        }
        lemma_cnt_split(sa, rot_le(d, x), rot_lt(d, x), rot_eq(d, x));
        assert(false);
    }
}

/// The row `lf(j)` holds a rotation equal to the one before the rotation of row `j`.
proof fn lemma_lf_row(d: Seq<u8>, j: int)
    requires
        2 <= d.len() <= usize::MAX,
        0 <= j < d.len(),
    ensures
        0 <= lf(bwt_last(d), j) < d.len(),
        rotation(d, sorted_rotations(d)[lf(bwt_last(d), j)] as int) == rotation(
            d,
            prev_rot(d.len() as int, sorted_rotations(d)[j] as int),
        ),
{
    let l = bwt_last(d);
    lemma_lf_bound(l, j);
    lemma_rows_below(d, j);
    lemma_rows_before_j(d, j);
    let pp = rotation(d, prev_rot(d.len() as int, sorted_rotations(d)[j] as int));
    lemma_row_interval(d, pp, lf(l, j));
}

/// After `t` LF steps from the primary row, the row holds rotation `n - t`, and
/// its last-column byte is input byte `n - 1 - t`.
proof fn lemma_walk_rows(d: Seq<u8>, t: nat)
    requires
        2 <= d.len() <= u32::MAX,
        t < d.len(),
    ensures
        0 <= lf_walk(bwt_last(d), bwt_primary(d) as int, t) < d.len(),
        rotation(d, sorted_rotations(d)[lf_walk(bwt_last(d), bwt_primary(d) as int, t)] as int) == rotation(
            d,
            (d.len() - t) % (d.len() as int),
        ),
        bwt_last(d)[lf_walk(bwt_last(d), bwt_primary(d) as int, t)] == d[d.len() - 1 - t],
    decreases t,
{
    let n = d.len() as int;
    let sa = sorted_rotations(d);
    let l = bwt_last(d);
    let p0 = bwt_primary(d) as int;
    lemma_sa_facts(d);
    let w = lf_walk(l, p0, t);
    if t == 0 {
        let p = choose|p: int| 0 <= p < sa.len() && sa[p] == 0;
        assert(sa.contains(0usize));
        assert(0 <= p < n && sa[p] == 0);
        assert(p0 == p);
        lemma_small_mod(0, n as nat);
        assert((n - 0) % n == 0) by {
            lemma_mod_add_multiples_vanish(0, n);
        }
    } else {
        lemma_walk_rows(d, (t - 1) as nat);
        let v = lf_walk(l, p0, (t - 1) as nat);
        lemma_lf_row(d, v);
        let idx = (n - (t - 1)) % n;
        let cur = (n - t) % n;
        if t == 1 {
            lemma_mod_add_multiples_vanish(0, n);
            lemma_small_mod((n - 1) as nat, n as nat);
        } else {
            lemma_small_mod((n - t + 1) as nat, n as nat);
            lemma_mod_add_multiples_vanish(n - t, n);
            lemma_small_mod((n - t) as nat, n as nat);
        }
        assert(prev_rot(n, idx) == cur);
        lemma_rotation_prev(d, sa[v] as int);
        lemma_rotation_prev(d, idx);
        assert(rotation(d, prev_rot(n, sa[v] as int)) == rotation(d, cur));
    }
    lemma_rotation_prev(d, sa[w] as int);
    let cur = (n - t) % n;
    if t == 0 {
        lemma_mod_add_multiples_vanish(0, n);
        lemma_small_mod(0, n as nat);
    } else {
        lemma_small_mod((n - t) as nat, n as nat);
    }
    lemma_rotation_prev(d, cur);
    if t == 0 {
        lemma_small_mod((n - 1) as nat, n as nat);
    } else {
        lemma_mod_add_multiples_vanish(n - t - 1, n);
        lemma_small_mod((n - t - 1) as nat, n as nat);
    }
    assert(prev_rot(n, cur) == n - 1 - t);
    assert(rotation(d, sa[w] as int)[n - 1] == d[prev_rot(n, sa[w] as int)]);
    assert(rotation(d, cur)[n - 1] == d[n - 1 - t]);
}

/// Inverting the Burrows-Wheeler transform gives back the input: the LF walk
/// from the primary row, read backwards, spells the original bytes.
pub proof fn law_bwt_roundtrip(d: Seq<u8>)
    requires
        d.len() <= u32::MAX,
    ensures
        bwt_inverse(bwt_primary(d), bwt_last(d)) == d,
{
    let n = d.len() as int;
    let l = bwt_last(d);
    lemma_sa_facts(d);
    if n <= 1 {
        if n == 1 {
            assert(sorted_rotations(d)[0] < 1);
            lemma_small_mod(0, 1);
        }
        assert(l =~= d);
    } else {
        let inv = bwt_inverse(bwt_primary(d), l);
        assert forall|i: int| 0 <= i < n implies inv[i] == d[i] by {
            lemma_walk_rows(d, (n - 1 - i) as nat);
        }
        assert(inv =~= d);
    }
}

/// The primary row lies inside the last column.
pub proof fn lemma_primary_bound(d: Seq<u8>)
    requires
        1 <= d.len() <= usize::MAX,
    ensures
        bwt_primary(d) < d.len(),
        bwt_last(d).len() == d.len(),
{
    let sa = sorted_rotations(d);
    lemma_sa_facts(d);
    assert(sa.contains(0usize));
    let p = choose|p: int| 0 <= p < sa.len() && sa[p] == 0;
    assert(0 <= p < d.len());
}

/// Chunk counts: none for no bytes, one up to a chunk, one more per full chunk.
proof fn lemma_chunk_count(len: nat, cs: nat)
    requires
        0 < cs,
    ensures
        len == 0 ==> chunk_count(len, cs) == 0,
        0 < len <= cs ==> chunk_count(len, cs) == 1,
        len > cs ==> chunk_count(len, cs) == chunk_count((len - cs) as nat, cs) + 1,
        len > 0 ==> chunk_count(len, cs) >= 1,
        chunk_count(len, cs) <= len,
{
    let q = len / cs;
    let r = len % cs;
    vstd::arithmetic::div_mod::lemma_fundamental_div_mod(len as int, cs as int);
    if len > cs {
        vstd::arithmetic::div_mod::lemma_div_plus_one((len - cs) as int, cs as int);
        lemma_mod_add_multiples_vanish((len - cs) as int, cs as int);
    }
    if len == cs {
        vstd::arithmetic::div_mod::lemma_div_basics(cs as int);
        vstd::arithmetic::div_mod::lemma_mod_self_0(cs as int);
    }
    if len < cs {
        lemma_small_mod(len, cs);
        vstd::arithmetic::div_mod::lemma_basic_div(len as int, cs as int);
    }
    assert(q <= len) by {
        vstd::arithmetic::div_mod::lemma_div_is_ordered_by_denominator(len as int, 1, cs as int);
    }
    assert(r > 0 ==> q < len) by (nonlinear_arith)
        requires
            len == cs * q + r,
            cs >= 1,
            0 <= r,
    ;
}

/// The fields of one chunk `[len(4)][primary(4)][last column]` followed by more.
proof fn lemma_chunk_fields(n: nat, p: u32, last: Seq<u8>, tail: Seq<u8>)
    requires
        n <= u32::MAX,
        last.len() == n,
    ensures
        ({
            let rest = le32_bytes(n as u32) + le32_bytes(p) + last + tail;
            &&& rest.len() >= 8 + n
            &&& le32_at(rest, 0) == n
            &&& le32_at(rest, 4) == p
            &&& rest.subrange(8, 8 + n as int) == last
            &&& rest.subrange(8 + n as int, rest.len() as int) == tail
        }),
{
    let rest = le32_bytes(n as u32) + le32_bytes(p) + last + tail;
    lemma_le32_roundtrip(n as u32, Seq::empty(), le32_bytes(p) + last + tail);
    assert(Seq::<u8>::empty() + le32_bytes(n as u32) + (le32_bytes(p) + last + tail) =~= rest);
    lemma_le32_roundtrip(p, le32_bytes(n as u32), last + tail);
    assert(le32_bytes(n as u32) + le32_bytes(p) + (last + tail) =~= rest);
    assert(rest.subrange(8, 8 + n as int) =~= last);
    assert(rest.subrange(8 + n as int, rest.len() as int) =~= tail);
}

/// A stream of chunk BWTs decodes, chunk by chunk, to the bytes it was made from.
#[verifier::spinoff_prover]
#[verifier::rlimit(40)]
proof fn lemma_bwt_chunks_roundtrip(d: Seq<u8>, cs: nat)
    requires
        0 < cs,
        d.len() <= u32::MAX,
    ensures
        bwt_chunks_valid(bwt_chunks(d, cs), chunk_count(d.len(), cs)),
        bwt_chunks_inverse(bwt_chunks(d, cs), chunk_count(d.len(), cs)) == d,
    decreases d.len(),
{
    lemma_chunk_count(d.len(), cs);
    if d.len() > 0 {
        let n = if cs < d.len() { cs } else { d.len() };
        let c = d.subrange(0, n as int);
        let more = d.subrange(n as int, d.len() as int);
        let k = chunk_count(d.len(), cs);
        let rest = bwt_chunks(d, cs);
        let tail = bwt_chunks(more, cs);
        let p = bwt_primary(c);
        let last = bwt_last(c);
        assert(rest == le32_bytes(n as u32) + le32_bytes(p) + last + tail) by {
            lemma_bwt_chunks_step(d, cs);
        }
        assert(bwt_chunks_valid(tail, (k - 1) as nat) && bwt_chunks_inverse(tail, (k - 1) as nat) == more) by {
            lemma_chunk_count(more.len(), cs);
            lemma_bwt_chunks_roundtrip(more, cs);
        }
        assert(p < n && last.len() == n && bwt_inverse(p, last) == c) by {
            lemma_primary_bound(c);
            law_bwt_roundtrip(c);
        }
        lemma_chunk_fields(n, p, last, tail);
        lemma_bwt_chunks_inverse_step(rest, k);
        assert(d =~= c + more);
    }
}

/// Chunked BWT decoding undoes chunked encoding, for every chunk size.
pub proof fn law_bwt_chunked_roundtrip(d: Seq<u8>, cs: nat)
    requires
        0 < cs,
        d.len() <= u32::MAX,
    ensures
        bwt_chunked_decodable(le32_bytes(chunk_count(d.len(), cs) as u32) + bwt_chunks(d, cs)),
        bwt_chunked_inverse(le32_bytes(chunk_count(d.len(), cs) as u32) + bwt_chunks(d, cs)) == d,
{
    let k = chunk_count(d.len(), cs);
    let body = bwt_chunks(d, cs);
    let e = le32_bytes(k as u32) + body;
    lemma_bwt_chunks_roundtrip(d, cs);
    lemma_chunk_count(d.len(), cs);
    lemma_le32_roundtrip(k as u32, Seq::empty(), body);
    assert(Seq::<u8>::empty() + le32_bytes(k as u32) + body =~= e);
    assert(e.subrange(4, e.len() as int) =~= body);
}

/// The (primary, last column) pairs of the `cs`-byte chunks of `d`.
pub open spec fn bwt_chunk_list(d: Seq<u8>, cs: nat) -> Seq<(u32, Seq<u8>)>
    decreases d.len(),
{
    if d.len() == 0 || cs == 0 {
        Seq::empty()
    } else {
        let n = if cs < d.len() { cs } else { d.len() };
        let c = d.subrange(0, n as int);
        seq![(bwt_primary(c), bwt_last(c))] + bwt_chunk_list(d.subrange(n as int, d.len() as int), cs)
    }
}

proof fn lemma_chunks_bytes_front(x: (u32, Seq<u8>), rest: Seq<(u32, Seq<u8>)>)
    ensures
        crate::mtf::bwt_chunks_bytes(seq![x] + rest) == le32_bytes(x.1.len() as u32) + le32_bytes(x.0) + x.1
            + crate::mtf::bwt_chunks_bytes(rest),
    decreases rest.len(),
{
    let l = seq![x] + rest;
    if rest.len() == 0 {
        assert(l.drop_last() =~= Seq::<(u32, Seq<u8>)>::empty());
        assert(l.last() == x);
        assert(rest =~= Seq::<(u32, Seq<u8>)>::empty());
        assert(crate::mtf::bwt_chunks_bytes(Seq::<(u32, Seq<u8>)>::empty()) == Seq::<u8>::empty());
        assert(crate::mtf::bwt_chunks_bytes(l) == crate::mtf::bwt_chunks_bytes(l.drop_last()) + le32_bytes(
            x.1.len() as u32,
        ) + le32_bytes(x.0) + x.1);
        assert(Seq::<u8>::empty() + le32_bytes(x.1.len() as u32) + le32_bytes(x.0) + x.1 =~= le32_bytes(
            x.1.len() as u32,
        ) + le32_bytes(x.0) + x.1 + Seq::<u8>::empty());
    } else {
        assert(l.drop_last() =~= seq![x] + rest.drop_last());
        assert(l.last() == rest.last());
        lemma_chunks_bytes_front(x, rest.drop_last());
        let h = le32_bytes(x.1.len() as u32) + le32_bytes(x.0) + x.1;
        let y = rest.last();
        let t = le32_bytes(y.1.len() as u32) + le32_bytes(y.0) + y.1;
        let b0 = crate::mtf::bwt_chunks_bytes(rest.drop_last());
        assert(crate::mtf::bwt_chunks_bytes(rest) == b0 + t);
        assert(crate::mtf::bwt_chunks_bytes(l) == crate::mtf::bwt_chunks_bytes(l.drop_last()) + t);
        assert(crate::mtf::bwt_chunks_bytes(l.drop_last()) == h + b0);
        assert(h + b0 + t =~= h + (b0 + t));
    }
}

#[verifier::spinoff_prover]
#[verifier::rlimit(100)]
proof fn lemma_chunked_mtf_roundtrip(d: Seq<u8>, cs: nat)
    requires
        0 < cs,
        d.len() + 4 <= u32::MAX,
    ensures
        crate::mtf::mtf_bwt_chunks(crate::mtf::bwt_chunks_mtf(bwt_chunks(d, cs), chunk_count(d.len(), cs)))
            == bwt_chunk_list(d, cs),
        crate::mtf::bwt_chunks_bytes(bwt_chunk_list(d, cs)) == bwt_chunks(d, cs),
        bwt_chunk_list(d, cs).len() == chunk_count(d.len(), cs),
        crate::mtf::bwt_chunks_mtf(bwt_chunks(d, cs), chunk_count(d.len(), cs)).len() == d.len() + 8 * chunk_count(
            d.len(),
            cs,
        ),
    decreases d.len(),
{
    lemma_chunk_count(d.len(), cs);
    if d.len() == 0 {
        assert(crate::mtf::bwt_chunks_bytes(Seq::<(u32, Seq<u8>)>::empty()) == Seq::<u8>::empty());
    } else {
        let n = if cs < d.len() { cs } else { d.len() };
        let c = d.subrange(0, n as int);
        let rd = d.subrange(n as int, d.len() as int);
        let p = bwt_primary(c);
        let l = bwt_last(c);
        let e2 = bwt_chunks(rd, cs);
        let e = bwt_chunks(d, cs);
        let k = chunk_count(d.len(), cs);
        lemma_chunk_count(rd.len(), cs);
        assert(k - 1 == chunk_count(rd.len(), cs)) by {
            if d.len() <= cs {
                assert(rd.len() == 0);
            }
        }
        lemma_chunked_mtf_roundtrip(rd, cs);
        assert(l.len() == n);
        let pal = le32_bytes(p) + l;
        assert(e =~= le32_bytes(n as u32) + pal + e2);
        lemma_le32_roundtrip(n as u32, Seq::empty(), pal + e2);
        assert(Seq::<u8>::empty() + le32_bytes(n as u32) + (pal + e2) =~= e);
        assert(le32_at(e, 0) == n);
        assert(e.subrange(4, 8 + n as int) =~= pal);
        assert(e.subrange(8 + n as int, e.len() as int) =~= e2);
        let m2 = crate::mtf::bwt_chunks_mtf(e2, (k - 1) as nat);
        let mp = crate::mtf::mtf_spec(pal);
        crate::mtf::law_mtf_roundtrip(pal);
        let m = crate::mtf::bwt_chunks_mtf(e, k);
        assert(m == le32_bytes(pal.len() as u32) + mp + m2);
        lemma_le32_roundtrip(pal.len() as u32, Seq::empty(), mp + m2);
        assert(Seq::<u8>::empty() + le32_bytes(pal.len() as u32) + (mp + m2) =~= m);
        assert(le32_at(m, 0) == 4 + n);
        assert(m.subrange(4, 8 + n as int) =~= mp);
        assert(m.subrange(8 + n as int, m.len() as int) =~= m2);
        lemma_le32_roundtrip(p, Seq::empty(), l);
        assert(Seq::<u8>::empty() + le32_bytes(p) + l =~= pal);
        assert(pal.subrange(4, pal.len() as int) =~= l);
        assert(crate::mtf::mtf_bwt_chunks(m) == seq![(p, l)] + crate::mtf::mtf_bwt_chunks(m2));
        lemma_chunks_bytes_front((p, l), bwt_chunk_list(rd, cs));
        assert(le32_bytes(n as u32) + le32_bytes(p) + l + e2 =~= e);
    }
}

/// Chunk-wise MTF decoding gives back the chunked BWT stream that chunk-wise
/// MTF encoding was given.
pub proof fn law_bwt_chunked_mtf_roundtrip(d: Seq<u8>, cs: nat)
    requires
        0 < cs,
        0 < d.len(),
        d.len() + 4 <= u32::MAX,
        chunk_count(d.len(), cs) <= 1_000_000,
    ensures
        ({
            let p = le32_bytes(chunk_count(d.len(), cs) as u32) + bwt_chunks(d, cs);
            let m = crate::mtf::bwt_chunked_mtf_bytes(p);
            let ch = crate::mtf::mtf_bwt_chunks(m);
            &&& m.len() == d.len() + 8 * chunk_count(d.len(), cs)
            &&& le32_bytes(ch.len() as u32) + crate::mtf::bwt_chunks_bytes(ch) == p
        }),
{
    let k = chunk_count(d.len(), cs);
    let e = bwt_chunks(d, cs);
    let p = le32_bytes(k as u32) + e;
    lemma_chunk_count(d.len(), cs);
    lemma_chunked_mtf_roundtrip(d, cs);
    lemma_le32_roundtrip(k as u32, Seq::empty(), e);
    assert(Seq::<u8>::empty() + le32_bytes(k as u32) + e =~= p);
    assert(p.subrange(4, p.len() as int) =~= e);
}

/// Bounds on the chunk count.
pub proof fn lemma_chunk_count_pub(len: nat, cs: nat)
    requires
        0 < cs,
    ensures
        len > 0 ==> chunk_count(len, cs) >= 1,
        len > cs ==> chunk_count(len, cs) >= 2,
        chunk_count(len, cs) <= len,
{
    lemma_chunk_count(len, cs);
    if len > cs {
        lemma_chunk_count((len - cs) as nat, cs);
    }
}

} // verus!
