//! A merge sort of indices by a table of two-part keys.
//!
//! Index `a` comes before index `b` when `keys[a]` is lexicographically smaller,
//! and equal keys keep index order, so the order is total and the result is
//! unique.
use vstd::prelude::*;
use vstd::relations::{sorted_by, total_ordering};
use vstd::seq_lib::{group_to_multiset_ensures, lemma_multiset_commutative, lemma_sorted_unique};

verus! {

/// `a` is at most `b` in the order of (`keys[a]`, `a`), keys compared
/// lexicographically.
pub open spec fn key_leq(keys: Seq<(u64, u64)>, a: usize, b: usize) -> bool {
    let ka = keys[a as int];
    let kb = keys[b as int];
    ka.0 < kb.0 || (ka.0 == kb.0 && (ka.1 < kb.1 || (ka.1 == kb.1 && a <= b)))
}

/// The order of indices by `keys`, as a relation.
pub open spec fn key_order(keys: Seq<(u64, u64)>) -> spec_fn(usize, usize) -> bool {
    |a: usize, b: usize| key_leq(keys, a, b)
}

pub proof fn lemma_key_order_total(keys: Seq<(u64, u64)>)
    ensures
        total_ordering(key_order(keys)),
{
}

fn key_le(keys: &[(u64, u64)], a: usize, b: usize) -> (r: bool)
    requires
        a < keys@.len(),
        b < keys@.len(),
    ensures
        r == key_order(keys@)(a, b),
{
    let ka = keys[a];
    let kb = keys[b];
    ka.0 < kb.0 || (ka.0 == kb.0 && (ka.1 < kb.1 || (ka.1 == kb.1 && a <= b)))
}

fn merge_idx(keys: &[(u64, u64)], l: &Vec<usize>, r: &Vec<usize>) -> (out: Vec<usize>)
    requires
        sorted_by(l@, key_order(keys@)),
        sorted_by(r@, key_order(keys@)),
        forall|k: int| 0 <= k < l@.len() ==> l@[k] < keys@.len(),
        forall|k: int| 0 <= k < r@.len() ==> r@[k] < keys@.len(),
    ensures
        sorted_by(out@, key_order(keys@)),
        forall|k: int| 0 <= k < out@.len() ==> out@[k] < keys@.len(),
        out@.to_multiset() == l@.to_multiset().add(r@.to_multiset()),
{
    broadcast use group_to_multiset_ensures;
    broadcast use vstd::multiset::group_multiset_axioms;

    let ghost leq = key_order(keys@);
    let mut out: Vec<usize> = Vec::new();
    let mut i: usize = 0;
    let mut j: usize = 0;
    assert(l@.subrange(0, 0) =~= Seq::<usize>::empty());
    assert(r@.subrange(0, 0) =~= Seq::<usize>::empty());
    while i < l.len() || j < r.len()
        invariant
            leq == key_order(keys@),
            forall|k: int| 0 <= k < l@.len() ==> l@[k] < keys@.len(),
            forall|k: int| 0 <= k < r@.len() ==> r@[k] < keys@.len(),
            forall|k: int| 0 <= k < out@.len() ==> out@[k] < keys@.len(),
            i <= l@.len(),
            j <= r@.len(),
            out@.len() == i + j,
            sorted_by(l@, leq),
            sorted_by(r@, leq),
            sorted_by(out@, leq),
            out@.to_multiset() == l@.subrange(0, i as int).to_multiset().add(
                r@.subrange(0, j as int).to_multiset(),
            ),
            forall|k: int| 0 <= k < out@.len() && i < l@.len() ==> leq(#[trigger] out@[k], l@[i as int]),
            forall|k: int| 0 <= k < out@.len() && j < r@.len() ==> leq(#[trigger] out@[k], r@[j as int]),
        decreases l@.len() + r@.len() - i - j,
    {
        let take_left = if i < l.len() && j < r.len() {
            key_le(keys, l[i], r[j])
        } else {
            i < l.len()
        };
        if take_left {
            let x = l[i];
            let ghost old_out = out@;
            proof {
                assert(l@.subrange(0, i + 1) =~= l@.subrange(0, i as int).push(x));
            }
            out.push(x);
            proof {
                let ml = l@.subrange(0, i as int).to_multiset();
                let mr = r@.subrange(0, j as int).to_multiset();
                assert(out@ == old_out.push(x));
                vstd::seq_lib::to_multiset_build(old_out, x);
                vstd::seq_lib::to_multiset_build(l@.subrange(0, i as int), x);
                assert(ml.insert(x).add(mr) =~= ml.add(mr).insert(x));
            }
            i = i + 1;
            proof {
                assert forall|k: int| 0 <= k < out@.len() && i < l@.len() implies leq(
                    #[trigger] out@[k],
                    l@[i as int],
                ) by {
                    assert(leq(x, l@[i as int]));
                    if k < out@.len() - 1 {
                        assert(leq(out@[k], x));
                    }
                }
                assert forall|k: int| 0 <= k < out@.len() && j < r@.len() implies leq(
                    #[trigger] out@[k],
                    r@[j as int],
                ) by {
                    if k < out@.len() - 1 {
                        assert(leq(out@[k], r@[j as int]));
                    }
                }
            }
        } else {
            let y = r[j];
            let ghost old_out = out@;
            proof {
                assert(r@.subrange(0, j + 1) =~= r@.subrange(0, j as int).push(y));
            }
            out.push(y);
            proof {
                let ml = l@.subrange(0, i as int).to_multiset();
                let mr = r@.subrange(0, j as int).to_multiset();
                assert(out@ == old_out.push(y));
                vstd::seq_lib::to_multiset_build(old_out, y);
                vstd::seq_lib::to_multiset_build(r@.subrange(0, j as int), y);
                assert(ml.add(mr.insert(y)) =~= ml.add(mr).insert(y));
            }
            j = j + 1;
            proof {
                assert forall|k: int| 0 <= k < out@.len() && j < r@.len() implies leq(
                    #[trigger] out@[k],
                    r@[j as int],
                ) by {
                    assert(leq(y, r@[j as int]));
                    if k < out@.len() - 1 {
                        assert(leq(out@[k], y));
                    }
                }
                assert forall|k: int| 0 <= k < out@.len() && i < l@.len() implies leq(
                    #[trigger] out@[k],
                    l@[i as int],
                ) by {
                    if k < out@.len() - 1 {
                        assert(leq(out@[k], l@[i as int]));
                    }
                }
            }
        }
    }
    assert(l@.subrange(0, i as int) =~= l@);
    assert(r@.subrange(0, j as int) =~= r@);
    out
}

/// Sort indices by `keys` (ties keep index order).
pub fn sort_by_keys(idx: &[usize], keys: &[(u64, u64)]) -> (out: Vec<usize>)
    requires
        forall|k: int| 0 <= k < idx@.len() ==> idx@[k] < keys@.len(),
    ensures
        out@ == idx@.sort_by(key_order(keys@)),
        sorted_by(out@, key_order(keys@)),
        out@.to_multiset() == idx@.to_multiset(),
        forall|k: int| 0 <= k < out@.len() ==> out@[k] < keys@.len(),
{
    let ghost leq = key_order(keys@);
    let out = sort_rec(idx, keys);
    proof {
        lemma_key_order_total(keys@);
        idx@.lemma_sort_by_ensures(leq);
        lemma_sorted_unique(out@, idx@.sort_by(leq), leq);
    }
    out
}

fn sort_rec(v: &[usize], keys: &[(u64, u64)]) -> (out: Vec<usize>)
    requires
        forall|k: int| 0 <= k < v@.len() ==> v@[k] < keys@.len(),
    ensures
        sorted_by(out@, key_order(keys@)),
        out@.to_multiset() == v@.to_multiset(),
        forall|k: int| 0 <= k < out@.len() ==> out@[k] < keys@.len(),
    decreases v@.len(),
{
    if v.len() <= 1 {
        let mut out: Vec<usize> = Vec::new();
        if v.len() == 1 {
            out.push(v[0]);
            assert(out@ =~= v@);
        } else {
            assert(out@ =~= v@);
        }
        return out;
    }
    let mid = v.len() / 2;
    let left = sort_rec(&v[0..mid], keys);
    let right = sort_rec(&v[mid..v.len()], keys);
    let out = merge_idx(keys, &left, &right);
    proof {
        let a = v@.subrange(0, mid as int);
        let b = v@.subrange(mid as int, v@.len() as int);
        assert(v@ =~= a + b);
        lemma_multiset_commutative(a, b);
    }
    out
}

} // verus!
