//! Huffman coder for BWT+MTF output.
//!
//! Format: `[num_syms(1)][codebook: sym(1) code(4) len(1) per symbol]
//! [bitstream_bytes(4)][num_symbols(4)][bitstream]`, codes written most
//! significant bit first; a `num_syms` byte of 0 stands for all 256 symbols.
//! A single distinct symbol is stored as `[1][sym][0(4)][1][count(4)]`.
use crate::bit_io::{bit_of, bits_value, bytes_bits, pad_bits, lemma_bits_value_push, lemma_bytes_bits_index, lemma_u64_bit, lemma_u8_bit, BitWriter};
use crate::bwt::iota;
use crate::bwt::count_eq;
use crate::le::{le32_at, le32_bytes, push_u32_le, read_u32_le};
use crate::mtf::slice_range;
use crate::sort::{key_order, sort_by_keys};
use vstd::arithmetic::power2::{lemma2_to64, pow2};
use vstd::prelude::*;

verus! {

// ───────────────────────────── tree construction ─────────────────────────────

/// A heap entry: frequency, symbol key (0 for internal nodes, `sym + 1` for
/// leaves), creation index, and the node it stands for.
type HeapItem = (u64, u16, u64, usize);

/// A tree node: children (internal nodes) or a symbol (leaves).
type TreeNode = (Option<usize>, Option<usize>, Option<u8>);

pub open spec fn item_less(a: (u64, u16, u64, usize), b: (u64, u16, u64, usize)) -> bool {
    a.0 < b.0 || (a.0 == b.0 && a.1 < b.1) || (a.0 == b.0 && a.1 == b.1 && a.2 < b.2)
}

fn less(a: HeapItem, b: HeapItem) -> (r: bool)
    ensures
        r == item_less(a, b),
{
    a.0 < b.0 || (a.0 == b.0 && a.1 < b.1) || (a.0 == b.0 && a.1 == b.1 && a.2 < b.2)
}

/// Every node refers only to nodes created before it.
pub open spec fn arena_ok(arena: Seq<(Option<usize>, Option<usize>, Option<u8>)>) -> bool {
    forall|i: int|
        0 <= i < arena.len() ==> (#[trigger] arena[i].0 matches Some(l) ==> l < i) && (arena[i].1 matches Some(
            r,
        ) ==> r < i)
}

/// Every heap entry names an existing node.
pub open spec fn heap_ok(heap: Seq<(u64, u16, u64, usize)>, n: nat) -> bool {
    forall|i: int| 0 <= i < heap.len() ==> #[trigger] heap[i].3 < n
}

/// Sum of the heap entries' frequencies.
pub open spec fn freq_sum(heap: Seq<(u64, u16, u64, usize)>) -> int
    decreases heap.len(),
{
    if heap.len() == 0 {
        0
    } else {
        freq_sum(heap.drop_last()) + heap.last().0
    }
}

proof fn lemma_freq_sum_update(heap: Seq<(u64, u16, u64, usize)>, i: int, v: (u64, u16, u64, usize))
    requires
        0 <= i < heap.len(),
    ensures
        freq_sum(heap.update(i, v)) == freq_sum(heap) - heap[i].0 + v.0,
    decreases heap.len(),
{
    if i < heap.len() - 1 {
        lemma_freq_sum_update(heap.drop_last(), i, v);
        assert(heap.update(i, v).drop_last() =~= heap.drop_last().update(i, v));
    } else {
        assert(heap.update(i, v).drop_last() =~= heap.drop_last());
    }
}

proof fn lemma_freq_sum_first(heap: Seq<(u64, u16, u64, usize)>)
    requires
        heap.len() > 0,
    ensures
        freq_sum(heap) == heap[0].0 + freq_sum(heap.remove(0)),
    decreases heap.len(),
{
    if heap.len() > 1 {
        lemma_freq_sum_first(heap.drop_last());
        assert(heap.remove(0).drop_last() =~= heap.drop_last().remove(0));
    } else {
        assert(heap.remove(0) =~= Seq::<(u64, u16, u64, usize)>::empty());
    }
}

proof fn lemma_freq_sum_nonneg(heap: Seq<(u64, u16, u64, usize)>)
    ensures
        freq_sum(heap) >= 0,
    decreases heap.len(),
{
    if heap.len() > 0 {
        lemma_freq_sum_nonneg(heap.drop_last());
    }
}

/// `heap` with entries `i` and `j` exchanged.
pub open spec fn swap_at(heap: Seq<(u64, u16, u64, usize)>, i: int, j: int) -> Seq<(u64, u16, u64, usize)> {
    heap.update(i, heap[j]).update(j, heap[i])
}

/// The entry among `i` and its children that `sift_down` moves up: the
/// smaller child when it is less than entry `i`.
pub open spec fn sift_down_pick(heap: Seq<(u64, u16, u64, usize)>, i: int) -> int {
    let len = heap.len() as int;
    let s1 = if i < len / 2 && item_less(heap[2 * i + 1], heap[i]) { 2 * i + 1 } else { i };
    if len >= 2 && i < (len - 1) / 2 && item_less(heap[2 * i + 2], heap[s1]) { 2 * i + 2 } else { s1 }
}

/// `heap` after entry `i` is moved down past every smaller child.
pub open spec fn sift_down_spec(heap: Seq<(u64, u16, u64, usize)>, i: int) -> Seq<(u64, u16, u64, usize)>
    decreases heap.len() - i,
{
    if i < 0 || i >= heap.len() {
        heap
    } else {
        let s = sift_down_pick(heap, i);
        if s != i && i < s < heap.len() {
            sift_down_spec(swap_at(heap, i, s), s)
        } else {
            heap
        }
    }
}

/// `heap` after entry `i` is moved up past every greater parent.
pub open spec fn sift_up_spec(heap: Seq<(u64, u16, u64, usize)>, i: int) -> Seq<(u64, u16, u64, usize)>
    decreases i,
{
    if i <= 0 || i >= heap.len() {
        heap
    } else {
        let p = (i - 1) / 2;
        if item_less(heap[i], heap[p]) {
            sift_up_spec(swap_at(heap, i, p), p)
        } else {
            heap
        }
    }
}

fn swap_items(heap: &mut Vec<HeapItem>, i: usize, j: usize, ghost_n: Ghost<nat>)
    requires
        i < old(heap)@.len(),
        j < old(heap)@.len(),
        heap_ok(old(heap)@, ghost_n@),
    ensures
        final(heap)@ == swap_at(old(heap)@, i as int, j as int),
        final(heap)@.len() == old(heap)@.len(),
        heap_ok(final(heap)@, ghost_n@),
        freq_sum(final(heap)@) == freq_sum(old(heap)@),
{
    let a = heap[i];
    let b = heap[j];
    let ghost before = heap@;
    heap.set(i, b);
    heap.set(j, a);
    proof {
        lemma_freq_sum_update(before, i as int, b);
        lemma_freq_sum_update(before.update(i as int, b), j as int, a);
        assert forall|t: int| 0 <= t < heap@.len() implies #[trigger] heap@[t].3 < ghost_n@ by {
            if t != i && t != j {
                assert(heap@[t] == before[t]);
            }
        }
    }
}

fn sift_down(heap: &mut Vec<HeapItem>, i: usize, ghost_n: Ghost<nat>)
    requires
        i < old(heap)@.len(),
        heap_ok(old(heap)@, ghost_n@),
    ensures
        final(heap)@ == sift_down_spec(old(heap)@, i as int),
        final(heap)@.len() == old(heap)@.len(),
        heap_ok(final(heap)@, ghost_n@),
        freq_sum(final(heap)@) == freq_sum(old(heap)@),
{
    let len = heap.len();
    let ghost old_i = i;
    let mut i = i;
    loop
        invariant
            heap@.len() == len,
            i < len,
            heap_ok(heap@, ghost_n@),
            freq_sum(heap@) == freq_sum(old(heap)@),
            sift_down_spec(heap@, i as int) == sift_down_spec(old(heap)@, old_i as int),
        ensures
            heap@ == sift_down_spec(old(heap)@, old_i as int),
        decreases len - i,
    {
        let mut smallest = i;
        if i < len / 2 {
            let left = 2 * i + 1;
            if less(heap[left], heap[i]) {
                smallest = left;
            }
        }
        if len >= 2 && i < (len - 1) / 2 {
            let right = 2 * i + 2;
            if less(heap[right], heap[smallest]) {
                smallest = right;
            }
        }
        assert(smallest == sift_down_pick(heap@, i as int));
        if smallest != i {
            swap_items(heap, i, smallest, ghost_n);
            i = smallest;
        } else {
            assert(sift_down_spec(heap@, i as int) == heap@);
            break ;
        }
    }
}

fn sift_up(heap: &mut Vec<HeapItem>, i: usize, ghost_n: Ghost<nat>)
    requires
        i < old(heap)@.len(),
        heap_ok(old(heap)@, ghost_n@),
    ensures
        final(heap)@ == sift_up_spec(old(heap)@, i as int),
        final(heap)@.len() == old(heap)@.len(),
        heap_ok(final(heap)@, ghost_n@),
        freq_sum(final(heap)@) == freq_sum(old(heap)@),
{
    let ghost old_i = i;
    let mut i = i;
    while i > 0
        invariant
            sift_up_spec(heap@, i as int) == sift_up_spec(old(heap)@, old_i as int),
            heap@.len() == old(heap)@.len(),
            i < heap@.len(),
            heap_ok(heap@, ghost_n@),
            freq_sum(heap@) == freq_sum(old(heap)@),
        ensures
            heap@ == sift_up_spec(old(heap)@, old_i as int),
        decreases i,
    {
        let parent = (i - 1) / 2;
        if less(heap[i], heap[parent]) {
            swap_items(heap, i, parent, ghost_n);
            i = parent;
        } else {
            assert(sift_up_spec(heap@, i as int) == heap@);
            break ;
        }
    }
}

/// The code table after `collect` from `node` with code `code` at depth
/// `depth`: leaves below `node` are set, left before right.
pub open spec fn collect_spec(
    arena: Seq<(Option<usize>, Option<usize>, Option<u8>)>,
    node: int,
    code: u32,
    depth: u32,
    table: Seq<(u32, u32)>,
) -> Seq<(u32, u32)>
    decreases node,
{
    if !(0 <= node < arena.len()) {
        table
    } else {
        let (l, r, sym) = arena[node];
        if l is None && r is None {
            match sym {
                Some(s) => table.update(s as int, (code, depth)),
                None => table,
            }
        } else {
            let t1 = match l {
                Some(lc) => if lc < node {
                    collect_spec(arena, lc as int, code << 1u32, (depth + 1) as u32, table)
                } else {
                    table
                },
                None => table,
            };
            match r {
                Some(rc) => if rc < node {
                    collect_spec(arena, rc as int, (code << 1u32) | 1u32, (depth + 1) as u32, t1)
                } else {
                    t1
                },
                None => t1,
            }
        }
    }
}

/// Codes of the leaves below `node`: each leaf gets the path to it (0 = left,
/// 1 = right, codes kept to 32 bits) and its depth.
fn collect(
    arena: &Vec<TreeNode>,
    node: usize,
    code: u32,
    depth: u32,
    table: &mut Vec<(u32, u32)>,
)
    requires
        node < arena@.len(),
        arena_ok(arena@),
        depth + node < 0x1_0000,
        old(table)@.len() == 256,
    ensures
        final(table)@.len() == 256,
        final(table)@ == collect_spec(arena@, node as int, code, depth, old(table)@),
    decreases node,
{
    let (l, r, sym) = arena[node];
    if l.is_none() && r.is_none() {
        if let Some(s) = sym {
            table.set(s as usize, (code, depth));
        }
    } else {
        if let Some(lc) = l {
            collect(arena, lc, code << 1u32, depth + 1, table);
        }
        if let Some(rc) = r {
            collect(arena, rc, (code << 1u32) | 1, depth + 1, table);
        }
    }
}

proof fn lemma_freq_sum_remove(h: Seq<(u64, u16, u64, usize)>, k: int)
    requires
        0 <= k < h.len(),
    ensures
        freq_sum(h) == h[k].0 + freq_sum(h.remove(k)),
    decreases h.len(),
{
    if k == h.len() - 1 {
        assert(h.remove(k) =~= h.drop_last());
    } else {
        lemma_freq_sum_remove(h.drop_last(), k);
        assert(h.remove(k).drop_last() =~= h.drop_last().remove(k));
        assert(h.remove(k).last() == h.last());
    }
}

proof fn lemma_freq_sum_two(h: Seq<(u64, u16, u64, usize)>, i: int, j: int)
    requires
        0 <= i < h.len(),
        0 <= j < h.len(),
        i != j,
    ensures
        h[i].0 + h[j].0 <= freq_sum(h),
{
    lemma_freq_sum_remove(h, i);
    let r = h.remove(i);
    let j2 = if j < i { j } else { j - 1 };
    assert(r[j2] == h[j]);
    lemma_freq_sum_remove(r, j2);
    lemma_freq_sum_nonneg(r.remove(j2));
}

/// Sum of the frequencies of `sorted`.
pub open spec fn wsum(sorted: Seq<(u8, u32)>) -> int
    decreases sorted.len(),
{
    if sorted.len() == 0 {
        0
    } else {
        wsum(sorted.drop_last()) + sorted.last().1
    }
}

/// Symbol `s` is at a leaf of the tree below `node`.
pub open spec fn syms_below(arena: Seq<(Option<usize>, Option<usize>, Option<u8>)>, node: int, s: u8) -> bool
    decreases node,
{
    if !(0 <= node < arena.len()) {
        false
    } else {
        let (l, r, sym) = arena[node];
        if l is None && r is None {
            sym == Some(s)
        } else {
            (match l {
                Some(lc) => lc < node && syms_below(arena, lc as int, s),
                None => false,
            }) || (match r {
                Some(rc) => rc < node && syms_below(arena, rc as int, s),
                None => false,
            })
        }
    }
}

proof fn lemma_syms_below_push(
    arena: Seq<(Option<usize>, Option<usize>, Option<u8>)>,
    e: (Option<usize>, Option<usize>, Option<u8>),
    node: int,
    s: u8,
)
    requires
        0 <= node < arena.len(),
    ensures
        syms_below(arena.push(e), node, s) == syms_below(arena, node, s),
    decreases node,
{
    let a2 = arena.push(e);
    assert(a2[node] == arena[node]);
    let (l, r, sym) = arena[node];
    if let Some(lc) = l {
        if lc < node {
            lemma_syms_below_push(arena, e, lc as int, s);
        }
    }
    if let Some(rc) = r {
        if rc < node {
            lemma_syms_below_push(arena, e, rc as int, s);
        }
    }
}

proof fn lemma_collect_untouched(
    arena: Seq<(Option<usize>, Option<usize>, Option<u8>)>,
    node: int,
    code: u32,
    depth: u32,
    table: Seq<(u32, u32)>,
    s: u8,
)
    requires
        !syms_below(arena, node, s),
        table.len() == 256,
    ensures
        collect_spec(arena, node, code, depth, table).len() == 256,
        collect_spec(arena, node, code, depth, table)[s as int] == table[s as int],
    decreases node,
{
    if 0 <= node < arena.len() {
        let (l, r, sym) = arena[node];
        if !(l is None && r is None) {
            let t1 = match l {
                Some(lc) => if lc < node {
                    collect_spec(arena, lc as int, code << 1u32, (depth + 1) as u32, table)
                } else {
                    table
                },
                None => table,
            };
            if let Some(lc) = l {
                if lc < node {
                    lemma_collect_untouched(arena, lc as int, code << 1u32, (depth + 1) as u32, table, s);
                }
            }
            if let Some(rc) = r {
                if rc < node {
                    lemma_collect_untouched(arena, rc as int, (code << 1u32) | 1u32, (depth + 1) as u32, t1, s);
                }
            }
        }
    }
}

/// Position of the least entry of `items` in the order of `item_less`.
fn min_item_index(items: &Vec<HeapItem>) -> (k: usize)
    requires
        items@.len() >= 1,
    ensures
        k < items@.len(),
        forall|j: int| 0 <= j < items@.len() ==> !item_less(#[trigger] items@[j], items@[k as int]),
{
    let mut k: usize = 0;
    let mut j: usize = 1;
    while j < items.len()
        invariant
            1 <= j <= items@.len(),
            k < j,
            forall|q: int| 0 <= q < j ==> !item_less(#[trigger] items@[q], items@[k as int]),
        decreases items@.len() - j,
    {
        if less(items[j], items[k]) {
            k = j;
        }
        j = j + 1;
    }
    k
}

/// The majority facts of the tree construction: while two or more entries
/// are left, the entry of leaf `xi` (symbol `x`, frequency `w`) is one of
/// them and no other entry's tree holds `x`; once one is left, `xi` is a child
/// of its root and the other child's tree does not hold `x`.
pub open spec fn majority_state(
    arena: Seq<(Option<usize>, Option<usize>, Option<u8>)>,
    items: Seq<(u64, u16, u64, usize)>,
    xi: int,
    x: u8,
    w: u64,
) -> bool {
    &&& 0 <= xi < arena.len()
    &&& arena[xi] == (None::<usize>, None::<usize>, Some(x))
    &&& items.len() >= 2 ==> exists|k: int| 0 <= k < items.len() && (#[trigger] items[k]).3 == xi
    &&& forall|k: int| 0 <= k < items.len() && (#[trigger] items[k]).3 == xi ==> items[k].0 == w
    &&& items.len() >= 2 ==> forall|k: int|
        0 <= k < items.len() && (#[trigger] items[k]).3 != xi ==> !syms_below(arena, items[k].3 as int, x)
    &&& items.len() == 1 ==> {
        let root = items[0].3 as int;
        &&& 0 <= root < arena.len()
        &&& arena[root].2 is None
        &&& ((arena[root].0 == Some(xi as usize) && arena[root].1 is Some && arena[root].1->Some_0 < root
            && !syms_below(arena, arena[root].1->Some_0 as int, x)) || (arena[root].1 == Some(xi as usize)
            && arena[root].0 is Some && arena[root].0->Some_0 < root && !syms_below(
            arena,
            arena[root].0->Some_0 as int,
            x,
        )))
    }
}

proof fn lemma_wsum_remove(s: Seq<(u8, u32)>, k: int)
    requires
        0 <= k < s.len(),
    ensures
        wsum(s) == s[k].1 + wsum(s.remove(k)),
        wsum(s.remove(k)) >= 0,
    decreases s.len(),
{
    if k == s.len() - 1 {
        assert(s.remove(k) =~= s.drop_last());
        lemma_wsum_nonneg(s.drop_last());
    } else {
        lemma_wsum_remove(s.drop_last(), k);
        assert(s.remove(k).drop_last() =~= s.drop_last().remove(k));
        assert(s.remove(k).last() == s.last());
    }
}

proof fn lemma_wsum_nonneg(s: Seq<(u8, u32)>)
    ensures
        wsum(s) >= 0,
    decreases s.len(),
{
    if s.len() > 0 {
        lemma_wsum_nonneg(s.drop_last());
    }
}

proof fn lemma_wsum_two(s: Seq<(u8, u32)>, i: int, j: int)
    requires
        0 <= i < s.len(),
        0 <= j < s.len(),
        i != j,
    ensures
        s[i].1 + s[j].1 <= wsum(s),
{
    lemma_wsum_remove(s, i);
    let r = s.remove(i);
    let j2 = if j < i { j } else { j - 1 };
    assert(r[j2] == s[j]);
    lemma_wsum_remove(r, j2);
}

proof fn lemma_root_one_bit(
    arena: Seq<(Option<usize>, Option<usize>, Option<u8>)>,
    root: int,
    xi: int,
    x: u8,
    w: u64,
    items: Seq<(u64, u16, u64, usize)>,
    t0: Seq<(u32, u32)>,
)
    requires
        majority_state(arena, items, xi, x, w),
        arena_ok(arena),
        items.len() == 1,
        root == items[0].3,
        t0.len() == 256,
        xi <= usize::MAX,
    ensures
        collect_spec(arena, root, 0, 0, t0)[x as int].1 == 1,
{
    let (l, r, sym) = arena[root];
    let c0: u32 = 0;
    let d0: u32 = 0;
    let cl: u32 = c0 << 1u32;
    let cr: u32 = (c0 << 1u32) | 1u32;
    let d1: u32 = (d0 + 1) as u32;
    assert(d1 == 1);
    assert(0 <= root < arena.len());
    assert(arena[root].0 matches Some(q) ==> q < root);
    assert(arena[root].1 matches Some(q) ==> q < root);
    let case_left = arena[root].0 == Some(xi as usize) && arena[root].1 is Some && arena[root].1->Some_0 < root
        && !syms_below(arena, arena[root].1->Some_0 as int, x);
    let case_right = arena[root].1 == Some(xi as usize) && arena[root].0 is Some && arena[root].0->Some_0 < root
        && !syms_below(arena, arena[root].0->Some_0 as int, x);
    assert(case_left || case_right);
    assert(l is Some && r is Some);
    let lc = l->Some_0;
    let rc = r->Some_0;
    assert(lc < root && rc < root);
    let t1 = collect_spec(arena, lc as int, cl, d1, t0);
    assert(collect_spec(arena, root, c0, d0, t0) == collect_spec(arena, rc as int, cr, d1, t1));
    assert(arena[xi] == (None::<usize>, None::<usize>, Some(x)));
    if case_left {
        assert(lc == xi);
        assert(collect_spec(arena, xi, cl, d1, t0) == t0.update(x as int, (cl, d1)));
        assert(t1 == t0.update(x as int, (cl, d1)));
        lemma_collect_untouched(arena, rc as int, cr, d1, t1, x);
    } else {
        assert(rc == xi);
        lemma_collect_untouched(arena, lc as int, cl, d1, t0, x);
        assert(t1.len() == 256);
        assert(collect_spec(arena, xi, cr, d1, t1) == t1.update(x as int, (cr, d1)));
    }
}

#[verifier::spinoff_prover]
#[verifier::rlimit(60)]
proof fn lemma_majority_step(
    a0: Seq<(Option<usize>, Option<usize>, Option<u8>)>,
    i0: Seq<(u64, u16, u64, usize)>,
    ka: int,
    i1: Seq<(u64, u16, u64, usize)>,
    kb: int,
    i2: Seq<(u64, u16, u64, usize)>,
    l0: (u64, u16, u64, usize),
    r0: (u64, u16, u64, usize),
    left: (u64, u16, u64, usize),
    right: (u64, u16, u64, usize),
    a_new: Seq<(Option<usize>, Option<usize>, Option<u8>)>,
    items_new: Seq<(u64, u16, u64, usize)>,
    xi: int,
    x: u8,
    w: u64,
    total: int,
)
    requires
        majority_state(a0, i0, xi, x, w),
        2 * w > total,
        freq_sum(i0) == total,
        i0.len() >= 2,
        heap_ok(i0, a0.len()),
        forall|a: int, b: int| 0 <= a < b < i0.len() ==> (#[trigger] i0[a]).3 != (#[trigger] i0[b]).3,
        0 <= ka < i0.len(),
        l0 == i0[ka],
        forall|j: int| 0 <= j < i0.len() ==> !item_less(#[trigger] i0[j], l0),
        i1 == i0.remove(ka),
        0 <= kb < i1.len(),
        r0 == i1[kb],
        forall|j: int| 0 <= j < i1.len() ==> !item_less(#[trigger] i1[j], r0),
        i2 == i1.remove(kb),
        (left == l0 && right == r0) || (left == r0 && right == l0),
        a_new == a0.push((Some(left.3), Some(right.3), None::<u8>)),
        items_new.len() == i2.len() + 1,
        forall|j: int| 0 <= j < i2.len() ==> #[trigger] items_new[j] == i2[j],
        items_new[i2.len() as int].0 == left.0 + right.0,
        items_new[i2.len() as int].3 == a0.len(),
    ensures
        majority_state(a_new, items_new, xi, x, w),
{
    let kx = choose|k: int| 0 <= k < i0.len() && (#[trigger] i0[k]).3 == xi;
    assert(i0[kx].0 == w);
    assert forall|k: int| 0 <= k < i0.len() && k != kx implies #[trigger] i0[k].0 < w by {
        lemma_freq_sum_two(i0, k, kx);
    }
    let other = if kx == 0 { 1int } else { 0int };
    assert(!item_less(i0[other], l0));
    assert(l0.0 <= i0[other].0);
    assert(ka != kx);
    assert(l0.3 != xi);
    let kx1 = if kx < ka { kx } else { kx - 1 };
    assert(i1[kx1] == i0[kx]);
    assert(xi < a0.len());
    assert(a_new[xi] == a0[xi]);
    if i1.len() >= 2 {
        let o1 = if kx1 == 0 { 1int } else { 0int };
        let o0 = if o1 < ka { o1 } else { o1 + 1 };
        assert(i1[o1] == i0[o0]);
        assert(o0 != kx);
        assert(i0[o0].0 < w);
        assert(!item_less(i1[o1], r0));
        assert(r0.0 < w);
        let kbi = if kb < ka { kb } else { kb + 1 };
        assert(r0 == i0[kbi]);
        assert(r0.3 != xi);
        assert(!syms_below(a0, l0.3 as int, x));
        assert(!syms_below(a0, r0.3 as int, x));
        let kx2 = if kx1 < kb { kx1 } else { kx1 - 1 };
        assert(kx1 != kb);
        assert(i2[kx2] == i1[kx1]);
        assert(items_new[kx2].3 == xi);
        assert forall|k: int| 0 <= k < items_new.len() && (#[trigger] items_new[k]).3 == xi implies items_new[k].0
            == w by {
            if k < i2.len() {
                let k1 = if k < kb { k } else { k + 1 };
                let k0 = if k1 < ka { k1 } else { k1 + 1 };
                assert(i1[k1] == i2[k]);
                assert(i0[k0] == i1[k1]);
            }
        }
        assert forall|k: int| 0 <= k < items_new.len() && (#[trigger] items_new[k]).3 != xi implies !syms_below(
            a_new,
            items_new[k].3 as int,
            x,
        ) by {
            if k < i2.len() {
                let k1 = if k < kb { k } else { k + 1 };
                let k0 = if k1 < ka { k1 } else { k1 + 1 };
                assert(i1[k1] == i2[k]);
                assert(i0[k0] == i1[k1]);
                assert(i0[k0].3 < a0.len());
                lemma_syms_below_push(a0, (Some(left.3), Some(right.3), None::<u8>), i0[k0].3 as int, x);
            } else {
                let root = a0.len() as int;
                assert(l0.3 < a0.len() && r0.3 < a0.len());
                lemma_syms_below_push(a0, (Some(left.3), Some(right.3), None::<u8>), l0.3 as int, x);
                lemma_syms_below_push(a0, (Some(left.3), Some(right.3), None::<u8>), r0.3 as int, x);
                assert(a_new[root] == (Some(left.3), Some(right.3), None::<u8>));
            }
        }
        assert(items_new.len() >= 2);
        assert(exists|k: int| 0 <= k < items_new.len() && (#[trigger] items_new[k]).3 == xi);
        assert(a_new[xi] == (None::<usize>, None::<usize>, Some(x)));
    } else {
        assert(i1.len() == 1);
        assert(kx1 == 0 && kb == 0);
        assert(r0 == i0[kx]);
        assert(r0.3 == xi);
        assert(!syms_below(a0, l0.3 as int, x));
        assert(l0.3 < a0.len());
        lemma_syms_below_push(a0, (Some(left.3), Some(right.3), None::<u8>), l0.3 as int, x);
        assert(i2.len() == 0);
        let root = a0.len() as int;
        assert(items_new[0].3 == root);
        assert(a_new[root] == (Some(left.3), Some(right.3), None::<u8>));
        assert(items_new.len() == 1);
    }
}

/// Code table (code, length) per symbol from the symbols sorted by (frequency
/// descending, symbol ascending): the two least entries (by frequency, then
/// leaves before internal nodes by symbol, then age) are merged until one
/// tree is left, the child with the larger symbol on the left.  A symbol
/// whose frequency is more than all others together gets a one-bit code.
fn huffman_table(sorted: &Vec<(u8, u32)>) -> (table: Vec<(u32, u32)>)
    requires
        2 <= sorted@.len() <= 256,
        forall|i: int, j: int| 0 <= i < j < sorted@.len() ==> sorted@[i].0 != sorted@[j].0,
    ensures
        table@.len() == 256,
        forall|i: int|
            0 <= i < sorted@.len() && 2 * (#[trigger] sorted@[i]).1 > wsum(sorted@) ==> table@[sorted@[i].0 as int].1
                == 1,
{
    let n = sorted.len();
    let ghost total = wsum(sorted@);
    let ghost maj = exists|i: int| 0 <= i < n && 2 * (#[trigger] sorted@[i]).1 > total;
    let ghost xi: int = choose|i: int| 0 <= i < n && 2 * (#[trigger] sorted@[i]).1 > total;
    let ghost x: u8 = sorted@[xi].0;
    let ghost w: u64 = sorted@[xi].1 as u64;
    let mut arena: Vec<TreeNode> = Vec::new();
    let mut items: Vec<HeapItem> = Vec::new();
    let mut i: usize = 0;
    while i < n
        invariant
            n == sorted@.len(),
            n <= 256,
            i <= n,
            arena@.len() == i,
            items@.len() == i,
            arena_ok(arena@),
            heap_ok(items@, arena@.len()),
            freq_sum(items@) == wsum(sorted@.subrange(0, i as int)),
            freq_sum(items@) <= i * 0x1_0000_0000,
            forall|k: int| 0 <= k < i ==> #[trigger] arena@[k] == (None::<usize>, None::<usize>, Some(sorted@[k].0)),
            forall|k: int| 0 <= k < i ==> (#[trigger] items@[k]).3 == k && items@[k].0 == sorted@[k].1,
        decreases n - i,
    {
        let (s, f) = sorted[i];
        arena.push((None, None, Some(s)));
        let ghost hb = items@;
        items.push((f as u64, s as u16 + 1, i as u64, i));
        proof {
            assert(items@.drop_last() =~= hb);
            assert(sorted@.subrange(0, i + 1).drop_last() =~= sorted@.subrange(0, i as int));
        }
        i = i + 1;
    }
    assert(sorted@.subrange(0, n as int) =~= sorted@);
    proof {
        if maj {
            assert forall|k: int| 0 <= k < items@.len() && (#[trigger] items@[k]).3 != xi implies !syms_below(
                arena@,
                items@[k].3 as int,
                x,
            ) by {
                assert(items@[k].3 == k);
                assert(sorted@[k].0 != x) by {
                    if k < xi {
                        assert(sorted@[k].0 != sorted@[xi].0);
                    } else {
                        assert(sorted@[xi].0 != sorted@[k].0);
                    }
                }
            }
            assert(items@[xi].3 == xi);
        }
    }
    let mut next_idx: u64 = n as u64;
    while items.len() > 1
        invariant
            arena_ok(arena@),
            heap_ok(items@, arena@.len()),
            items@.len() >= 1,
            arena@.len() + items@.len() <= 2 * n,
            n <= 256,
            next_idx == arena@.len(),
            freq_sum(items@) == total,
            total <= n * 0x1_0000_0000,
            forall|a: int, b: int| 0 <= a < b < items@.len() ==> (#[trigger] items@[a]).3 != (#[trigger] items@[b]).3,
            maj ==> 2 * w > total && majority_state(arena@, items@, xi, x, w),
        decreases items@.len(),
    {
        let ghost a0 = arena@;
        let ghost i0 = items@;
        let ka = min_item_index(&items);
        proof {
            lemma_freq_sum_remove(i0, ka as int);
            lemma_freq_sum_nonneg(i0.remove(ka as int));
        }
        let mut left = items.remove(ka);
        let ghost i1 = items@;
        let kb = min_item_index(&items);
        proof {
            lemma_freq_sum_remove(i1, kb as int);
            lemma_freq_sum_nonneg(i1.remove(kb as int));
        }
        let mut right = items.remove(kb);
        let ghost i2 = items@;
        let ghost l0 = left;
        let ghost r0 = right;
        if right.1 > left.1 {
            let tmp = left;
            left = right;
            right = tmp;
        }
        let id = arena.len();
        arena.push((Some(left.3), Some(right.3), None));
        let ghost hb = items@;
        items.push((left.0 + right.0, 0u16, next_idx, id));
        proof {
            assert(items@.drop_last() =~= hb);
            assert(freq_sum(items@) == freq_sum(hb) + left.0 + right.0);
            assert forall|j: int| 0 <= j < items@.len() implies #[trigger] items@[j].3 < arena@.len() by {
                if j < items@.len() - 1 {
                    assert(items@[j] == hb[j]);
                    assert(exists|q: int| 0 <= q < i1.len() && i1[q] == hb[j]) by {
                        let q = if j < kb { j } else { j + 1 };
                        assert(i1[q] == hb[j]);
                    }
                    let q = choose|q: int| 0 <= q < i1.len() && i1[q] == hb[j];
                    let q0 = if q < ka { q } else { q + 1 };
                    assert(i0[q0] == i1[q]);
                }
            }
            assert forall|j: int| 0 <= j < arena@.len() implies (#[trigger] arena@[j].0 matches Some(l) ==> l < j)
                && (arena@[j].1 matches Some(r) ==> r < j) by {
                if j < arena@.len() - 1 {
                    assert(arena@[j] == a0[j]);
                }
            }
            assert forall|a: int, b: int| 0 <= a < b < items@.len() implies (#[trigger] items@[a]).3
                != (#[trigger] items@[b]).3 by {
                if b == items@.len() - 1 {
                    assert(items@[a] == hb[a]);
                    assert(hb[a].3 < a0.len());
                } else {
                    assert(items@[a] == i2[a] && items@[b] == i2[b]);
                    let a1 = if a < kb { a } else { a + 1 };
                    let b1 = if b < kb { b } else { b + 1 };
                    assert(i1[a1] == i2[a] && i1[b1] == i2[b]);
                    let a2 = if a1 < ka { a1 } else { a1 + 1 };
                    let b2 = if b1 < ka { b1 } else { b1 + 1 };
                    assert(i0[a2] == i1[a1] && i0[b2] == i1[b1]);
                }
            }
            if maj {
                lemma_majority_step(a0, i0, ka as int, i1, kb as int, i2, l0, r0, left, right, arena@, items@, xi, x, w, total);
            }
        }
        next_idx = next_idx + 1;
    }
    let root = items[0].3;
    let mut table: Vec<(u32, u32)> = vec![(0u32, 0u32); 256];
    let ghost t0 = table@;
    collect(&arena, root, 0, 0, &mut table);
    proof {
        if maj {
            lemma_root_one_bit(arena@, root as int, xi, x, w, items@, t0);
            assert forall|i: int|
                0 <= i < sorted@.len() && 2 * (#[trigger] sorted@[i]).1 > wsum(sorted@) implies table@[sorted@[i].0 as int].1
                == 1 by {
                if i != xi {
                    assert(sorted@[i].1 + sorted@[xi].1 <= total) by {
                        lemma_wsum_two(sorted@, i, xi);
                    }
                }
            }
        }
    }
    table
}

// ───────────────────────────── encoding ─────────────────────────────

/// The bits of a `len`-bit code, most significant first (bits above 31 are 0).
pub open spec fn code_bits(code: u32, len: nat) -> Seq<bool> {
    Seq::new(len, |j: int| (len - 1 - j) < 32 && bit_of(code as nat, (len - 1 - j) as nat))
}

/// The code bits of `data` under the table `tab` of (code, length) per symbol.
pub open spec fn huff_bits(tab: Seq<(u32, u32)>, data: Seq<u8>) -> Seq<bool>
    decreases data.len(),
{
    if data.len() == 0 {
        Seq::empty()
    } else {
        huff_bits(tab, data.drop_last()) + code_bits(tab[data.last() as int].0, tab[data.last() as int].1 as nat)
    }
}

/// The symbols below `k` that occur in `data`, in increasing order.
pub open spec fn present(data: Seq<u8>, k: nat) -> Seq<u8>
    decreases k,
{
    if k == 0 {
        Seq::empty()
    } else {
        let prev = present(data, (k - 1) as nat);
        if count_eq(data, (k - 1) as u8) > 0 {
            prev.push((k - 1) as u8)
        } else {
            prev
        }
    }
}

/// Codebook bytes `[sym][code(4)][len]` of the symbols `syms`.
pub open spec fn codebook_bytes(tab: Seq<(u32, u32)>, syms: Seq<u8>) -> Seq<u8>
    decreases syms.len(),
{
    if syms.len() == 0 {
        Seq::empty()
    } else {
        let s = syms.last();
        codebook_bytes(tab, syms.drop_last()) + seq![s] + le32_bytes(tab[s as int].0) + seq![
            tab[s as int].1 as u8,
        ]
    }
}

/// `out` is `data` Huffman-coded with the code table `tab`.
pub open spec fn huff_coded_with(out: Seq<u8>, tab: Seq<(u32, u32)>, data: Seq<u8>) -> bool {
    let syms = present(data, 256);
    let head = seq![syms.len() as u8] + codebook_bytes(tab, syms);
    let hl = head.len() as int;
    &&& tab.len() == 256
    &&& out.len() >= hl + 8
    &&& out.subrange(0, hl) == head
    &&& le32_at(out, hl) == (out.len() - hl - 8) as u32
    &&& le32_at(out, hl + 4) == data.len() as u32
    &&& bytes_bits(out.subrange(hl + 8, out.len() as int)) == pad_bits(huff_bits(tab, data))
}

/// Output for data with one distinct symbol `s` occurring `n` times.
pub open spec fn single_symbol_bytes(s: u8, n: nat) -> Seq<u8> {
    seq![1u8, s] + le32_bytes(0) + seq![1u8] + le32_bytes(n as u32)
}

proof fn lemma_count_eq_push(s: Seq<u8>, b: u8, c: u8)
    ensures
        count_eq(s.push(b), c) == count_eq(s, c) + if b == c { 1nat } else { 0nat },
{
    assert(s.push(b).drop_last() =~= s);
}

proof fn lemma_count_eq_bound(s: Seq<u8>, c: u8)
    ensures
        count_eq(s, c) <= s.len(),
    decreases s.len(),
{
    if s.len() > 0 {
        lemma_count_eq_bound(s.drop_last(), c);
    }
}

proof fn lemma_huff_bits_push(tab: Seq<(u32, u32)>, data: Seq<u8>, b: u8)
    ensures
        huff_bits(tab, data.push(b)) == huff_bits(tab, data) + code_bits(tab[b as int].0, tab[b as int].1 as nat),
{
    assert(data.push(b).drop_last() =~= data);
}

/// Positions of `d` whose byte lies in `s`.
pub open spec fn count_in(d: Seq<u8>, s: Set<u8>) -> nat
    decreases d.len(),
{
    if d.len() == 0 {
        0
    } else {
        count_in(d.drop_last(), s) + if s.contains(d.last()) { 1nat } else { 0nat }
    }
}

/// The symbols named by the entries of `sorted`.
pub open spec fn sym_set(sorted: Seq<(u8, u32)>) -> Set<u8> {
    Set::new(|c: u8| exists|j: int| 0 <= j < sorted.len() && (#[trigger] sorted[j]).0 == c)
}

proof fn lemma_count_in_bound(d: Seq<u8>, s: Set<u8>)
    ensures
        count_in(d, s) <= d.len(),
    decreases d.len(),
{
    if d.len() > 0 {
        lemma_count_in_bound(d.drop_last(), s);
    }
}

proof fn lemma_count_in_insert(d: Seq<u8>, s: Set<u8>, a: u8)
    requires
        !s.contains(a),
    ensures
        count_in(d, s.insert(a)) == count_in(d, s) + count_eq(d, a),
    decreases d.len(),
{
    if d.len() > 0 {
        lemma_count_in_insert(d.drop_last(), s, a);
    }
}

/// With entries of distinct symbols each weighted by its count in `d`, the
/// weights add up to the number of positions of `d` that hold one of them.
proof fn lemma_wsum_counts(d: Seq<u8>, sorted: Seq<(u8, u32)>)
    requires
        forall|i: int, j: int| 0 <= i < j < sorted.len() ==> sorted[i].0 != sorted[j].0,
        forall|j: int| 0 <= j < sorted.len() ==> (#[trigger] sorted[j]).1 == count_eq(d, sorted[j].0),
    ensures
        wsum(sorted) == count_in(d, sym_set(sorted)),
    decreases sorted.len(),
{
    if sorted.len() == 0 {
        assert(sym_set(sorted) =~= Set::<u8>::empty());
        lemma_count_in_empty(d);
    } else {
        let p = sorted.drop_last();
        let a = sorted.last().0;
        assert forall|j: int| 0 <= j < p.len() implies (#[trigger] p[j]).1 == count_eq(d, p[j].0) by {
            assert(p[j] == sorted[j]);
        }
        lemma_wsum_counts(d, p);
        assert(sym_set(sorted) =~= sym_set(p).insert(a)) by {
            assert forall|c: u8| sym_set(sorted).contains(c) implies sym_set(p).insert(a).contains(c) by {
                let j = choose|j: int| 0 <= j < sorted.len() && (#[trigger] sorted[j]).0 == c;
                if j < p.len() {
                    assert(p[j] == sorted[j]);
                }
            }
            assert forall|c: u8| sym_set(p).insert(a).contains(c) implies sym_set(sorted).contains(c) by {
                if c != a {
                    let j = choose|j: int| 0 <= j < p.len() && (#[trigger] p[j]).0 == c;
                    assert(sorted[j] == p[j]);
                } else {
                    assert(sorted[sorted.len() - 1].0 == c);
                }
            }
        }
        assert(!sym_set(p).contains(a)) by {
            if sym_set(p).contains(a) {
                let j = choose|j: int| 0 <= j < p.len() && (#[trigger] p[j]).0 == a;
                assert(sorted[j] == p[j]);
            }
        }
        lemma_count_in_insert(d, sym_set(p), a);
    }
}

proof fn lemma_count_in_empty(d: Seq<u8>)
    ensures
        count_in(d, Set::<u8>::empty()) == 0,
    decreases d.len(),
{
    if d.len() > 0 {
        lemma_count_in_empty(d.drop_last());
    }
}

/// Every symbol that makes up more than half of `data` has a one-bit code in
/// `tab`.
pub open spec fn majority_one_bit(tab: Seq<(u32, u32)>, data: Seq<u8>) -> bool {
    forall|c: u8| #![trigger count_eq(data, c)] 2 * count_eq(data, c) > data.len() ==> tab[c as int].1 == 1
}

/// What `huffman_encode` gives for `data`: nothing for no data, the
/// one-symbol form where a single symbol occurs, and otherwise the data coded
/// with a table in which a symbol making up more than half of the data has a
/// one-bit code.
pub open spec fn huffman_output(out: Seq<u8>, data: Seq<u8>) -> bool {
    &&& data.len() == 0 ==> out == Seq::<u8>::empty()
    &&& data.len() > 0 && present(data, 256).len() == 1 ==> out == single_symbol_bytes(present(data, 256)[0], data.len())
    &&& data.len() > 0 && present(data, 256).len() != 1 ==> exists|tab: Seq<(u32, u32)>|
        huff_coded_with(out, tab, data) && majority_one_bit(tab, data)
}

/// Entry `i` of a codebook starts at byte `6 * i`: the symbol, then its code,
/// then its length.
proof fn lemma_codebook_entry(tab: Seq<(u32, u32)>, syms: Seq<u8>, i: int)
    requires
        0 <= i < syms.len(),
    ensures
        codebook_bytes(tab, syms).len() == 6 * syms.len(),
        codebook_bytes(tab, syms)[6 * i] == syms[i],
        codebook_bytes(tab, syms)[6 * i + 5] == tab[syms[i] as int].1 as u8,
    decreases syms.len(),
{
    lemma_codebook_len(tab, syms.drop_last());
    if i < syms.len() - 1 {
        lemma_codebook_entry(tab, syms.drop_last(), i);
        assert(syms.drop_last()[i] == syms[i]);
    }
}

proof fn lemma_codebook_len(tab: Seq<(u32, u32)>, syms: Seq<u8>)
    ensures
        codebook_bytes(tab, syms).len() == 6 * syms.len(),
    decreases syms.len(),
{
    if syms.len() > 0 {
        lemma_codebook_len(tab, syms.drop_last());
    }
}

/// A symbol that makes up more than half of the data is coded in one bit:
/// the output's codebook holds an entry for it whose length byte is 1.
pub proof fn law_huffman_majority_one_bit(data: Seq<u8>, out: Seq<u8>, c: u8)
    requires
        huffman_output(out, data),
        2 * count_eq(data, c) > data.len(),
    ensures
        exists|i: int|
            0 <= i < present(data, 256).len() && #[trigger] present(data, 256)[i] == c && out[1 + 6 * i] == c && out[6
                + 6 * i] == 1,
{
    lemma_present_misses(data, 256);
    lemma_present_nonempty(data);
    assert(present(data, 256).contains(c as int as u8));
    let syms = present(data, 256);
    let t = choose|t: int| 0 <= t < syms.len() && syms[t] == c;
    if syms.len() == 1 {
        assert(t == 0);
        assert(out[1] == c);
        assert(out[6] == 1);
    } else {
        let tab = choose|tab: Seq<(u32, u32)>| huff_coded_with(out, tab, data) && majority_one_bit(tab, data);
        assert(tab[c as int].1 == 1);
        let head = seq![syms.len() as u8] + codebook_bytes(tab, syms);
        lemma_codebook_entry(tab, syms, t);
        assert(out.subrange(0, head.len() as int) == head);
        assert(out[1 + 6 * t] == head[1 + 6 * t]);
        assert(out[6 + 6 * t] == head[6 + 6 * t]);
    }
}

/// Encode data with Huffman coding.
pub fn huffman_encode(data: &[u8]) -> (out: Vec<u8>)
    requires
        data@.len() <= u32::MAX,
    ensures
        huffman_output(out@, data@),
{
    if data.len() == 0 {
        return Vec::new();
    }
    let ghost d = data@;
    let mut freq: Vec<u32> = vec![0u32; 256];
    let mut i: usize = 0;
    assert(d.subrange(0, 0) =~= Seq::<u8>::empty());
    while i < data.len()
        invariant
            d == data@,
            d.len() <= u32::MAX,
            i <= d.len(),
            freq@.len() == 256,
            forall|c: int| 0 <= c < 256 ==> #[trigger] freq@[c] == count_eq(d.subrange(0, i as int), c as u8),
        decreases d.len() - i,
    {
        let b = data[i];
        proof {
            lemma_count_eq_bound(d.subrange(0, i as int), b);
            assert(d.subrange(0, i + 1) =~= d.subrange(0, i as int).push(b));
            assert forall|c: int| 0 <= c < 256 implies #[trigger] count_eq(d.subrange(0, i + 1), c as u8) == count_eq(
                d.subrange(0, i as int),
                c as u8,
            ) + if b == c as u8 { 1nat } else { 0nat } by {
                lemma_count_eq_push(d.subrange(0, i as int), b, c as u8);
            }
        }
        let v = freq[b as usize] + 1;
        freq.set(b as usize, v);
        i = i + 1;
    }
    assert(d.subrange(0, d.len() as int) =~= d);
    // symbols present, in increasing order
    let mut syms: Vec<usize> = Vec::new();
    let mut keys: Vec<(u64, u64)> = Vec::new();
    let mut c: usize = 0;
    while c < 256
        invariant
            c <= 256,
            freq@.len() == 256,
            forall|t: int| 0 <= t < 256 ==> #[trigger] freq@[t] == count_eq(d, t as u8),
            keys@.len() == c,
            forall|t: int| 0 <= t < c ==> #[trigger] keys@[t] == ((0xFFFF_FFFFu64 - freq@[t]) as u64, 0u64),
            syms@.len() == present(d, c as nat).len(),
            forall|t: int| 0 <= t < syms@.len() ==> #[trigger] syms@[t] as int == present(d, c as nat)[t] as int,
            forall|t: int| 0 <= t < syms@.len() ==> #[trigger] syms@[t] < c,
            forall|a: int, b: int| 0 <= a < b < syms@.len() ==> #[trigger] syms@[a] < #[trigger] syms@[b],
        decreases 256 - c,
    {
        keys.push(((0xFFFF_FFFFu64 - freq[c] as u64), 0u64));
        if freq[c] > 0 {
            syms.push(c);
        }
        c = c + 1;
    }
    if syms.len() == 1 {
        let s = syms[0] as u8;
        let count = freq[syms[0]];
        let mut out: Vec<u8> = Vec::new();
        out.push(1u8);
        out.push(s);
        push_u32_le(&mut out, 0);
        out.push(1u8);
        push_u32_le(&mut out, count);
        proof {
            lemma_present_count(d, 256);
            assert(present(d, 256)[0] == s);
            lemma_present_single(d, 256, s);
        }
        assert(out@ =~= single_symbol_bytes(present(d, 256)[0], d.len()));
        return out;
    }
    let order = sort_by_keys(syms.as_slice(), keys.as_slice());
    let mut sorted: Vec<(u8, u32)> = Vec::new();
    let mut t: usize = 0;
    while t < order.len()
        invariant
            t <= order@.len(),
            forall|j: int| 0 <= j < order@.len() ==> #[trigger] order@[j] < keys@.len(),
            keys@.len() == 256,
            freq@.len() == 256,
            sorted@.len() == t,
            forall|j: int| 0 <= j < t ==> (#[trigger] sorted@[j]).0 == order@[j] as u8 && sorted@[j].1 == freq@[order@[j] as int],
        decreases order@.len() - t,
    {
        let sym = order[t];
        sorted.push((sym as u8, freq[sym]));
        t = t + 1;
    }
    proof {
        assert(syms@.no_duplicates()) by {
            assert forall|a: int, b: int| 0 <= a < syms@.len() && 0 <= b < syms@.len() && a != b implies syms@[a]
                != syms@[b] by {
                if a < b {
                    assert(syms@[a] < syms@[b]);
                } else {
                    assert(syms@[b] < syms@[a]);
                }
            }
        }
        syms@.lemma_multiset_has_no_duplicates();
        order@.lemma_multiset_has_no_duplicates_conv();
        assert forall|i: int, j: int| 0 <= i < j < sorted@.len() implies sorted@[i].0 != sorted@[j].0 by {
            assert(order@[i] != order@[j]);
            assert(order@[i] < 256 && order@[j] < 256);
        }
    }
    proof {
        vstd::seq_lib::to_multiset_len(order@);
        vstd::seq_lib::to_multiset_len(syms@);
        lemma_present_count(d, 256);
        lemma_present_nonempty(d);
    }
    let table = huffman_table(&sorted);
    proof {
        assert forall|j: int| 0 <= j < sorted@.len() implies (#[trigger] sorted@[j]).1 == count_eq(d, sorted@[j].0) by {
            assert(order@[j] < 256);
            assert(freq@[order@[j] as int] == count_eq(d, order@[j] as int as u8));
        }
        lemma_wsum_counts(d, sorted@);
        lemma_count_in_bound(d, sym_set(sorted@));
        lemma_present_misses(d, 256);
        assert forall|c: u8| #![trigger count_eq(d, c)] 2 * count_eq(d, c) > d.len() implies table@[c as int].1 == 1 by {
            assert(present(d, 256).contains(c as int as u8));
            let t = choose|t: int| 0 <= t < present(d, 256).len() && present(d, 256)[t] == c;
            assert(syms@[t] as int == c as int);
            assert(syms@.contains(c as usize));
            vstd::seq_lib::to_multiset_contains(syms@, c as usize);
            vstd::seq_lib::to_multiset_contains(order@, c as usize);
            let j = choose|j: int| 0 <= j < order@.len() && order@[j] == c as usize;
            assert(sorted@[j].0 == c);
            assert(sorted@[j].1 == count_eq(d, c));
        }
    }
    let mut bw = BitWriter::new();
    let mut j: usize = 0;
    assert(huff_bits(table@, d.subrange(0, 0)) =~= Seq::<bool>::empty());
    while j < data.len()
        invariant
            d == data@,
            j <= d.len(),
            table@.len() == 256,
            bw.wf(),
            bw.bits() == huff_bits(table@, d.subrange(0, j as int)),
        decreases d.len() - j,
    {
        let b = data[j];
        let (code, len) = table[b as usize];
        let ghost before = bw.bits();
        let mut k: u32 = len;
        while k > 0
            invariant
                bw.wf(),
                k <= len,
                bw.bits() == before + code_bits(code, len as nat).subrange(0, (len - k) as int),
            decreases k,
        {
            k = k - 1;
            let bit: u8 = if k < 32 {
                proof {
                    lemma_u64_bit(code as u64, k as u64);
                }
                ((code as u64 >> k as u64) & 1) as u8
            } else {
                0
            };
            bw.write_bit(bit);
            assert(bw.bits() =~= before + code_bits(code, len as nat).subrange(0, (len - k) as int));
        }
        proof {
            lemma_huff_bits_push(table@, d.subrange(0, j as int), b);
            assert(d.subrange(0, j + 1) =~= d.subrange(0, j as int).push(b));
            assert(code_bits(code, len as nat).subrange(0, len as int) =~= code_bits(code, len as nat));
        }
        j = j + 1;
    }
    assert(d.subrange(0, d.len() as int) =~= d);
    let bitstream = bw.flush();
    let mut out: Vec<u8> = Vec::new();
    out.push(syms.len() as u8);
    let mut q: usize = 0;
    assert(out@ =~= seq![syms@.len() as u8] + codebook_bytes(table@, present(d, 256).subrange(0, 0)));
    while q < syms.len()
        invariant
            q <= syms@.len(),
            syms@.len() == present(d, 256).len(),
            forall|t: int| 0 <= t < syms@.len() ==> #[trigger] syms@[t] as int == present(d, 256)[t] as int,
            forall|t: int| 0 <= t < syms@.len() ==> #[trigger] syms@[t] < 256,
            table@.len() == 256,
            out@ == seq![syms@.len() as u8] + codebook_bytes(table@, present(d, 256).subrange(0, q as int)),
        decreases syms@.len() - q,
    {
        let sym = syms[q];
        let (code, len) = table[sym];
        let ghost before = out@;
        out.push(sym as u8);
        push_u32_le(&mut out, code);
        out.push(len as u8);
        proof {
            let ps = present(d, 256);
            assert(ps.subrange(0, q + 1).drop_last() =~= ps.subrange(0, q as int));
            assert(ps.subrange(0, q + 1).last() == sym as u8);
            assert(out@ =~= seq![syms@.len() as u8] + codebook_bytes(table@, ps.subrange(0, q + 1)));
        }
        q = q + 1;
    }
    assert(present(d, 256).subrange(0, syms@.len() as int) =~= present(d, 256));
    let ghost hl: int = out@.len() as int;
    push_u32_le(&mut out, bitstream.len() as u32);
    push_u32_le(&mut out, data.len() as u32);
    let ghost before_bits = out@;
    out.extend_from_slice(bitstream.as_slice());
    proof {
        let o = out@;
        crate::le::lemma_le32_roundtrip(bitstream@.len() as u32, o.subrange(0, hl), o.subrange(hl + 4, o.len() as int));
        assert(o =~= o.subrange(0, hl) + le32_bytes(bitstream@.len() as u32) + o.subrange(hl + 4, o.len() as int));
        crate::le::lemma_le32_roundtrip(d.len() as u32, o.subrange(0, hl + 4), o.subrange(hl + 8, o.len() as int));
        assert(o =~= o.subrange(0, hl + 4) + le32_bytes(d.len() as u32) + o.subrange(hl + 8, o.len() as int));
        assert(o.subrange(hl + 8, o.len() as int) =~= bitstream@);
        assert(o.subrange(0, hl) =~= seq![syms@.len() as u8] + codebook_bytes(table@, present(d, 256)));
        assert(huff_coded_with(o, table@, d));
        assert(majority_one_bit(table@, d));
    }
    out
}

proof fn lemma_present_count(d: Seq<u8>, k: nat)
    requires
        k <= 256,
    ensures
        present(d, k).len() <= k,
        forall|t: int| 0 <= t < present(d, k).len() ==> #[trigger] present(d, k)[t] < k,
        forall|t: int| 0 <= t < present(d, k).len() ==> count_eq(d, #[trigger] present(d, k)[t]) > 0,
    decreases k,
{
    if k > 0 {
        lemma_present_count(d, (k - 1) as nat);
    }
}

/// With a single present symbol, every byte is that symbol.
proof fn lemma_present_single(d: Seq<u8>, k: nat, s: u8)
    requires
        k <= 256,
        present(d, 256).len() == 1,
        present(d, 256)[0] == s,
    ensures
        count_eq(d, s) == d.len(),
{
    lemma_present_misses(d, 256);
    assert forall|c: u8| count_eq(d, c) > 0 implies c == s by {
        assert(present(d, 256).contains(c as int as u8));
    }
    lemma_count_only(d, s);
}

proof fn lemma_present_misses(d: Seq<u8>, k: nat)
    requires
        k <= 256,
    ensures
        forall|c: int| 0 <= c < k && count_eq(d, c as u8) > 0 ==> #[trigger] present(d, k).contains(c as u8),
    decreases k,
{
    if k > 0 {
        lemma_present_misses(d, (k - 1) as nat);
        let prev = present(d, (k - 1) as nat);
        assert forall|c: int| 0 <= c < k && count_eq(d, c as u8) > 0 implies #[trigger] present(d, k).contains(
            c as u8,
        ) by {
            if c < k - 1 {
                assert(prev.contains(c as u8));
                let w = choose|w: int| 0 <= w < prev.len() && prev[w] == c as u8;
                assert(present(d, k)[w] == c as u8);
            } else {
                assert(present(d, k).last() == c as u8);
            }
        }
    }
}

/// When `s` is the only byte value that occurs, every byte is `s`.
proof fn lemma_count_only(d: Seq<u8>, s: u8)
    requires
        forall|c: u8| count_eq(d, c) > 0 ==> c == s,
    ensures
        count_eq(d, s) == d.len(),
    decreases d.len(),
{
    if d.len() > 0 {
        let b = d.last();
        assert(count_eq(d, b) > 0);
        let dd = d.drop_last();
        assert forall|c: u8| count_eq(dd, c) > 0 implies c == s by {
            assert(count_eq(d, c) >= count_eq(dd, c));
        }
        lemma_count_only(dd, s);
    }
}

/// Nonempty data has a present symbol.
proof fn lemma_present_nonempty(d: Seq<u8>)
    requires
        d.len() > 0,
    ensures
        present(d, 256).len() >= 1,
{
    lemma_present_misses(d, 256);
    let b = d.last();
    assert(count_eq(d, b) > 0);
    assert(present(d, 256).contains(b as int as u8));
}

// ───────────────────────────── decoding ─────────────────────────────

/// Number of codebook entries.
pub open spec fn hd_n(d: Seq<u8>) -> int {
    if d[0] == 0 { 256 } else { d[0] as int }
}

/// Codebook entry `i`: (symbol, code, length).
pub open spec fn hd_entry(d: Seq<u8>, i: int) -> (u8, u32, u8) {
    (d[1 + 6 * i], le32_at(d, 2 + 6 * i), d[6 + 6 * i])
}

/// Position of the bitstream length field.
pub open spec fn hd_pos(d: Seq<u8>) -> int {
    1 + 6 * hd_n(d)
}

/// Sort keys of the entries: longest code first, ties in codebook order.
pub open spec fn hd_keys(d: Seq<u8>) -> Seq<(u64, u64)> {
    Seq::new(hd_n(d) as nat, |i: int| ((255 - d[6 + 6 * i]) as u64, 0u64))
}

/// Entry indices in matching order.
pub open spec fn hd_order(d: Seq<u8>) -> Seq<usize> {
    iota(hd_n(d) as nat).sort_by(key_order(hd_keys(d)))
}

/// The coded bits.
pub open spec fn hd_bits(d: Seq<u8>) -> Seq<bool> {
    let p = hd_pos(d);
    bytes_bits(d.subrange(p + 8, p + 8 + le32_at(d, p) as int))
}

/// Whether `d` holds a well-formed multi-symbol stream the decoder reads
/// without failing: the layout fits and every code is 1 to 63 bits long.
pub open spec fn hd_layout_ok(d: Seq<u8>) -> bool {
    let p = hd_pos(d);
    &&& d.len() >= 1
    &&& d.len() >= p + 8
    &&& d.len() >= p + 8 + le32_at(d, p)
    &&& forall|i: int| 0 <= i < hd_n(d) ==> 1 <= #[trigger] d[6 + 6 * i] <= 63
}

/// The entry matching the bits at `c` among `ord[j..]` with codes of at most `w` bits.
pub open spec fn hd_match(d: Seq<u8>, bits: Seq<bool>, ord: Seq<usize>, c: int, w: int, j: nat) -> Option<(u8, int)>
    decreases ord.len() - j,
{
    if j >= ord.len() {
        None
    } else {
        let e = hd_entry(d, ord[j as int] as int);
        let cl = e.2 as int;
        if cl <= w && bits_value(bits.subrange(c, c + cl)) == e.1 {
            Some((e.0, c + cl))
        } else {
            hd_match(d, bits, ord, c, w, j + 1)
        }
    }
}

/// Symbols decoded from bit `c` on, at most `left` of them: each step looks at
/// the next `maxd` bits (fewer at the end) and takes the first matching code;
/// decoding stops at the end of the bits or when no code matches.
pub open spec fn hd_decode(d: Seq<u8>, bits: Seq<bool>, ord: Seq<usize>, maxd: int, c: int, left: nat) -> Seq<u8>
    decreases left,
{
    if left == 0 {
        Seq::empty()
    } else {
        let w = if maxd < bits.len() - c { maxd } else { bits.len() - c };
        if w <= 0 {
            Seq::empty()
        } else {
            match hd_match(d, bits, ord, c, w, 0) {
                None => Seq::empty(),
                Some(m) => seq![m.0] + hd_decode(d, bits, ord, maxd, m.1, (left - 1) as nat),
            }
        }
    }
}

/// What `huffman_decode` gives for `d`.
pub open spec fn huff_decoded(d: Seq<u8>) -> Result<Seq<u8>, ()> {
    if d.len() == 0 {
        Ok(Seq::empty())
    } else if d[0] == 1 {
        Ok(Seq::new(le32_at(d, 7) as nat, |i: int| d[1]))
    } else {
        let ord = hd_order(d);
        let maxd = hd_entry(d, ord[0] as int).2 as int;
        Ok(hd_decode(d, hd_bits(d), ord, maxd, 0, le32_at(d, hd_pos(d) + 4) as nat))
    }
}

/// Inputs `huffman_decode` reads without failing.
pub open spec fn huff_readable(d: Seq<u8>) -> bool {
    d.len() == 0 || (d[0] == 1 && d.len() >= 11) || (d[0] != 1 && hd_layout_ok(d))
}

/// Whether `huffman_decode` reads `data` without failing.
pub fn huff_readable_check(data: &[u8]) -> (b: bool)
    ensures
        b == huff_readable(data@),
{
    let len = data.len();
    if len == 0 {
        return true;
    }
    if data[0] == 1 {
        return len >= 11;
    }
    let n: usize = if data[0] == 0 {
        256
    } else {
        data[0] as usize
    };
    let p = 1 + 6 * n;
    if len < p + 8 {
        return false;
    }
    let l = read_u32_le(data, p) as usize;
    if len - p - 8 < l {
        return false;
    }
    let mut i: usize = 0;
    while i < n
        invariant
            n == hd_n(data@),
            n >= 2,
            len == data@.len(),
            len >= 1 + 6 * n + 8,
            i <= n,
            forall|k: int| 0 <= k < i ==> 1 <= #[trigger] data@[6 + 6 * k] <= 63,
        decreases n - i,
    {
        let x = data[6 + 6 * i];
        if x < 1 || x > 63 {
            proof {
                let k = i as int;
                assert(!(1 <= data@[6 + 6 * k] <= 63));
                assert(0 <= k < hd_n(data@));
                assert(!hd_layout_ok(data@));
            }
            return false;
        }
        i = i + 1;
    }
    true
}

proof fn lemma_bits_value_prefix(s: Seq<bool>, cl: int)
    requires
        0 <= cl <= s.len(),
    ensures
        bits_value(s) / pow2((s.len() - cl) as nat) == bits_value(s.subrange(0, cl)),
    decreases s.len() - cl,
{
    vstd::arithmetic::power2::lemma_pow2_pos((s.len() - cl) as nat);
    if cl == s.len() {
        assert(s.subrange(0, cl) =~= s);
        lemma2_to64();
        assert(bits_value(s) / 1 == bits_value(s));
    } else {
        let t = s.drop_last();
        lemma_bits_value_prefix(t, cl);
        assert(t.push(s.last()) =~= s);
        lemma_bits_value_push(t, s.last());
        assert(t.subrange(0, cl) =~= s.subrange(0, cl));
        let k = (t.len() - cl) as nat;
        vstd::arithmetic::power2::lemma_pow2_unfold(k + 1);
        vstd::arithmetic::power2::lemma_pow2_pos(k);
        let x = bits_value(t) as int;
        let b: int = if s.last() { 1 } else { 0 };
        vstd::arithmetic::div_mod::lemma_div_denominator(2 * x + b, 2, pow2(k) as int);
        assert((2 * x + b) / 2 == x);
        assert(bits_value(s) == 2 * x + b);
        assert(pow2((s.len() - cl) as nat) == 2 * pow2(k));
        assert(bits_value(s) / pow2((s.len() - cl) as nat) == ((2 * x + b) / 2) / (pow2(k) as int));
    }
}

/// The next `w` bits from bit `c` of the bytes `bs` as a number.
fn window(bs: &[u8], c: u64, w: u64) -> (v: u64)
    requires
        bs@.len() <= u32::MAX,
        w <= 63,
        c + w <= bs@.len() * 8,
    ensures
        v as nat == bits_value(bytes_bits(bs@).subrange(c as int, c + w)),
{
    let ghost bits = bytes_bits(bs@);
    let mut v: u64 = 0;
    let mut t: u64 = 0;
    proof {
        lemma2_to64();
        assert(bits.subrange(c as int, c as int) =~= Seq::<bool>::empty());
    }
    while t < w
        invariant
            bs@.len() <= u32::MAX,
            w <= 63,
            c + w <= bs@.len() * 8,
            bits == bytes_bits(bs@),
            t <= w,
            v as nat == bits_value(bits.subrange(c as int, c + t)),
            v < pow2(t as nat),
        decreases w - t,
    {
        let p = c + t;
        let byte = bs[(p / 8) as usize];
        let sh = (7 - p % 8) as u8;
        let bit = (byte >> sh) & 1;
        proof {
            lemma_u8_bit(byte, sh);
            lemma_bytes_bits_index(bs@, p as int);
            assert(bits.subrange(c as int, c + t + 1) =~= bits.subrange(c as int, c + t).push(bits[p as int]));
            lemma_bits_value_push(bits.subrange(c as int, c + t), bits[p as int]);
            vstd::arithmetic::power2::lemma_pow2_unfold((t + 1) as nat);
            lemma2_to64();
            vstd::arithmetic::power2::lemma_pow2_strictly_increases((t + 1) as nat, 64);
        }
        v = v * 2 + bit as u64;
        t = t + 1;
    }
    v
}

/// Decode Huffman-coded data.
pub fn huffman_decode(data: &[u8]) -> (r: Result<Vec<u8>, &'static str>)
    requires
        huff_readable(data@),
    ensures
        r is Ok <==> huff_decoded(data@) is Ok,
        r is Ok ==> r->Ok_0@ == huff_decoded(data@)->Ok_0,
{
    let ghost d = data@;
    if data.len() == 0 {
        return Ok(Vec::new());
    }
    let num_syms: usize = if data[0] == 0 {
        256
    } else {
        data[0] as usize
    };
    if num_syms == 1 {
        let sym = data[1];
        let count = read_u32_le(data, 7) as usize;
        let out: Vec<u8> = vec![sym; count];
        assert(out@ =~= Seq::new(le32_at(d, 7) as nat, |i: int| d[1]));
        return Ok(out);
    }
    let mut keys: Vec<(u64, u64)> = Vec::new();
    let mut idx: Vec<usize> = Vec::new();
    let mut i: usize = 0;
    while i < num_syms
        invariant
            d == data@,
            num_syms == hd_n(d),
            2 <= num_syms <= 256,
            hd_layout_ok(d),
            i <= num_syms,
            keys@ == hd_keys(d).subrange(0, i as int),
            idx@ == iota(i as nat),
        decreases num_syms - i,
    {
        let len = data[6 + 6 * i];
        keys.push(((255 - len) as u64, 0u64));
        idx.push(i);
        i = i + 1;
        assert(keys@ =~= hd_keys(d).subrange(0, i as int));
        assert(idx@ =~= iota(i as nat));
    }
    assert(keys@ =~= hd_keys(d));
    let ord = sort_by_keys(idx.as_slice(), keys.as_slice());
    let p = 1 + 6 * num_syms;
    let bitstream_bytes = read_u32_le(data, p) as usize;
    let num_symbols = read_u32_le(data, p + 4) as usize;
    let bs = slice_range(data, p + 8, p + 8 + bitstream_bytes);
    let ghost bits = hd_bits(d);
    let ghost o = hd_order(d);
    proof {
        vstd::seq_lib::to_multiset_len(ord@);
        vstd::seq_lib::to_multiset_len(idx@);
    }
    if num_symbols == 0 {
        let out: Vec<u8> = Vec::new();
        assert(out@ =~= hd_decode(d, bits, o, hd_entry(d, o[0] as int).2 as int, 0, 0));
        return Ok(out);
    }
    let max_depth = data[6 + 6 * ord[0]] as u64;
    let total = bitstream_bytes as u64 * 8;
    let mut out: Vec<u8> = Vec::new();
    let mut c: u64 = 0;
    let mut left: usize = num_symbols;
    let ghost goal = hd_decode(d, bits, o, max_depth as int, 0, num_symbols as nat);
    assert(out@ + hd_decode(d, bits, o, max_depth as int, c as int, left as nat) =~= goal);
    loop
        invariant
            d == data@,
            num_syms == hd_n(d),
            2 <= num_syms <= 256,
            hd_layout_ok(d),
            ord@ == o,
            o.len() == num_syms,
            forall|j: int| 0 <= j < o.len() ==> #[trigger] o[j] < num_syms,
            bs@ == d.subrange(p + 8, p + 8 + bitstream_bytes),
            bits == bytes_bits(bs@),
            total == bs@.len() * 8,
            bs@.len() <= u32::MAX,
            1 <= max_depth <= 63,
            c <= total,
            out@ + hd_decode(d, bits, o, max_depth as int, c as int, left as nat) == goal,
        ensures
            out@ == goal,
        decreases left,
    {
        if left == 0 {
            assert(out@ =~= out@ + hd_decode(d, bits, o, max_depth as int, c as int, 0));
            break ;
        }
        let w = if max_depth < total - c {
            max_depth
        } else {
            total - c
        };
        if w == 0 {
            assert(out@ =~= out@ + hd_decode(d, bits, o, max_depth as int, c as int, left as nat));
            break ;
        }
        let win = window(bs, c, w);
        let mut j: usize = 0;
        let mut found = false;
        let mut sym: u8 = 0;
        let mut cl: u64 = 0;
        while j < num_syms
            invariant_except_break
                !found,
                hd_match(d, bits, o, c as int, w as int, 0) == hd_match(d, bits, o, c as int, w as int, j as nat),
            invariant
                d == data@,
                num_syms == hd_n(d),
                hd_layout_ok(d),
                ord@ == o,
                o.len() == num_syms,
                forall|jj: int| 0 <= jj < o.len() ==> #[trigger] o[jj] < num_syms,
                bits == bytes_bits(bs@),
                1 <= w <= 63,
                c + w <= total,
                total == bs@.len() * 8,
                win as nat == bits_value(bits.subrange(c as int, c + w)),
                j <= num_syms,
            ensures
                found ==> hd_match(d, bits, o, c as int, w as int, 0) == Some((sym, c + cl)) && cl <= w,
                !found ==> hd_match(d, bits, o, c as int, w as int, 0) is None,
            decreases num_syms - j,
        {
            let e = ord[j];
            let ecl = data[6 + 6 * e] as u64;
            if ecl <= w {
                let code = read_u32_le(data, 2 + 6 * e);
                proof {
                    vstd::bits::lemma_u64_shr_is_div(win, (w - ecl) as u64);
                    lemma_bits_value_prefix(bits.subrange(c as int, c + w), ecl as int);
                    assert(bits.subrange(c as int, c + w).subrange(0, ecl as int) =~= bits.subrange(c as int, c + ecl));
                }
                let top = win >> (w - ecl);
                if top == code as u64 {
                    found = true;
                    sym = data[1 + 6 * e];
                    cl = ecl;
                    assert(hd_match(d, bits, o, c as int, w as int, j as nat) == Some((sym, c + cl)));
                    break ;
                }
            }
            j = j + 1;
        }
        if !found {
            assert(out@ =~= out@ + hd_decode(d, bits, o, max_depth as int, c as int, left as nat));
            break ;
        }
        let ghost before = out@;
        out.push(sym);
        proof {
            assert(hd_decode(d, bits, o, max_depth as int, c as int, left as nat) == seq![sym] + hd_decode(
                d,
                bits,
                o,
                max_depth as int,
                c + cl,
                (left - 1) as nat,
            ));
            assert(out@ + hd_decode(d, bits, o, max_depth as int, c + cl, (left - 1) as nat) =~= before + hd_decode(
                d,
                bits,
                o,
                max_depth as int,
                c as int,
                left as nat,
            ));
        }
        c = c + cl;
        left = left - 1;
    }
    Ok(out)
}

} // verus!
