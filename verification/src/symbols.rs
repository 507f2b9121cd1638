//! SSP super-symbols: the bijection k <-> (op, i, j) and symbol lookup.
//!
//! Super-symbol `k >= 1` names a pair of 1-based positions in a sequence `S`:
//! for `i = 1` only `SUM(1, 1)` (k = 1); for `i > 1` the band of k values
//! `(i-1)^2 + 1 ..= i^2` lists `DIFF(i, i-1), ..., DIFF(i, 1)` and then
//! `SUM(i, 1), ..., SUM(i, i)`.  `SUM(i, j)` stands for `S[i] + S[j]`,
//! `DIFF(i, j)` for `S[i] - S[j]`.
use std::collections::HashMap;
use vstd::arithmetic::power2::*;
use vstd::prelude::*;
use vstd::std_specs::hash::*;
use vstd::string::StringSliceAdditionalSpecFns;

verus! {

broadcast use vstd::std_specs::hash::group_hash_axioms;

/// The operation name "SUM", as bytes.
pub open spec fn is_sum_op(op: &str) -> bool {
    op.spec_bytes() == seq![83u8, 85u8, 77u8]
}

/// The operation name "DIFF", as bytes.
pub open spec fn is_diff_op(op: &str) -> bool {
    op.spec_bytes() == seq![68u8, 73u8, 70u8, 70u8]
}

/// Super-symbol index of SUM(i, j) (`sum`) or DIFF(i, j) for `i >= 2`.
pub open spec fn rank_of(sum: bool, i: int, j: int) -> int {
    if sum {
        (i - 1) * (i - 1) + (i - 1) + j
    } else {
        (i - 1) * (i - 1) + (i - j)
    }
}

/// Whether `(op, i, j)` names a super-symbol (`op` other than DIFF counts as SUM
/// once `i > 1`).
pub open spec fn rank_valid(op: &str, i: int, j: int) -> bool {
    if i < 1 || j < 1 {
        false
    } else if i == 1 {
        is_sum_op(op) && j == 1
    } else if is_diff_op(op) {
        j < i
    } else {
        j <= i
    }
}

/// The super-symbol index of a valid `(op, i, j)`.
pub open spec fn rank_spec(op: &str, i: int, j: int) -> int {
    if i == 1 {
        1
    } else {
        rank_of(!is_diff_op(op), i, j)
    }
}

/// Inputs on which `rank_symbol` computes without overflow.
pub open spec fn rank_in_range(op: &str, i: int, j: int) -> bool {
    i <= 1 || j < 1 || ((i - 1) * (i - 1) <= u64::MAX && (rank_valid(op, i, j) ==> rank_spec(
        op,
        i,
        j,
    ) <= u64::MAX))
}

fn is_op(op: &str, lit: [u8; 4], n: usize) -> (b: bool)
    requires
        n <= 4,
    ensures
        b == (op.spec_bytes() == lit@.subrange(0, n as int)),
{
    let b = op.as_bytes();
    if b.len() != n {
        return false;
    }
    let mut i: usize = 0;
    while i < n
        invariant
            i <= n <= 4,
            b@ == op.spec_bytes(),
            b@.len() == n,
            forall|t: int| 0 <= t < i ==> b@[t] == lit@[t],
        decreases n - i,
    {
        if b[i] != lit[i] {
            return false;
        }
        i = i + 1;
    }
    assert(b@ =~= lit@.subrange(0, n as int));
    true
}

pub(crate) fn op_is_sum(op: &str) -> (b: bool)
    ensures
        b == is_sum_op(op),
{
    let r = is_op(op, [83u8, 85u8, 77u8, 0u8], 3);
    assert(seq![83u8, 85u8, 77u8, 0u8].subrange(0, 3) =~= seq![83u8, 85u8, 77u8]);
    assert([83u8, 85u8, 77u8, 0u8]@ =~= seq![83u8, 85u8, 77u8, 0u8]);
    r
}

fn op_is_diff(op: &str) -> (b: bool)
    ensures
        b == is_diff_op(op),
{
    let r = is_op(op, [68u8, 73u8, 70u8, 70u8], 4);
    assert([68u8, 73u8, 70u8, 70u8]@ =~= seq![68u8, 73u8, 70u8, 70u8]);
    assert(seq![68u8, 73u8, 70u8, 70u8].subrange(0, 4) =~= seq![68u8, 73u8, 70u8, 70u8]);
    r
}

/// Convert (op, i, j) to super-symbol index k (1-based).
pub fn rank_symbol(op: &str, i: u64, j: u64) -> (r: Result<u64, &'static str>)
    requires
        rank_in_range(op, i as int, j as int),
    ensures
        r is Ok <==> rank_valid(op, i as int, j as int),
        r is Ok ==> r->Ok_0 == rank_spec(op, i as int, j as int),
{
    if i < 1 || j < 1 {
        return Err("i and j must be >= 1");
    }
    if i == 1 {
        if !op_is_sum(op) || j != 1 {
            return Err("i=1 only allows SUM(1,1)");
        }
        return Ok(1);
    }
    let base = (i - 1) * (i - 1);
    if op_is_diff(op) {
        if j >= i {
            return Err("DIFF requires j < i");
        }
        Ok(base + (i - j))
    } else {
        if j > i {
            return Err("SUM requires j <= i");
        }
        Ok(base + (i - 1) + j)
    }
}

/// Integer square root of `n`.
pub open spec fn is_isqrt(n: int, r: int) -> bool {
    r >= 0 && r * r <= n < (r + 1) * (r + 1)
}

fn isqrt(n: u64) -> (r: u64)
    ensures
        is_isqrt(n as int, r as int),
        r < 0x1_0000_0000,
{
    let mut lo: u64 = 0;
    let mut hi: u64 = 0x1_0000_0000;
    assert(0x1_0000_0000 * 0x1_0000_0000 > u64::MAX) by (nonlinear_arith);
    while hi - lo > 1
        invariant
            lo < hi <= 0x1_0000_0000,
            lo * lo <= n,
            n < hi * hi,
        decreases hi - lo,
    {
        let mid = lo + (hi - lo) / 2;
        assert(mid <= 0xFFFF_FFFF ==> mid * mid <= 0xFFFF_FFFE_0000_0001) by (nonlinear_arith);
        if mid <= 0xFFFF_FFFF && mid * mid <= n {
            lo = mid;
        } else {
            assert(mid * mid > n) by (nonlinear_arith)
                requires
                    mid > 0xFFFF_FFFF || mid * mid > n,
                    n <= u64::MAX,
                    mid <= 0x1_0000_0000,
            ;
            hi = mid;
        }
    }
    assert(hi == lo + 1);
    lo
}

/// The (op is SUM, i, j) that super-symbol `k >= 1` names.
pub open spec fn unrank_spec(k: int) -> (bool, int, int) {
    let i = choose_isqrt(k - 1) + 1;
    let pos = k - (i - 1) * (i - 1);
    if i == 1 {
        (true, 1, 1)
    } else if pos <= i - 1 {
        (false, i, i - pos)
    } else {
        (true, i, pos - (i - 1))
    }
}

/// The integer square root of a non-negative number.
pub open spec fn choose_isqrt(n: int) -> int {
    choose|r: int| is_isqrt(n, r)
}

pub proof fn lemma_isqrt_unique(n: int, r1: int, r2: int)
    requires
        is_isqrt(n, r1),
        is_isqrt(n, r2),
    ensures
        r1 == r2,
{
    if r1 < r2 {
        assert((r1 + 1) * (r1 + 1) <= r2 * r2) by (nonlinear_arith)
            requires
                r1 + 1 <= r2,
                r1 >= 0,
        ;
    } else if r2 < r1 {
        assert((r2 + 1) * (r2 + 1) <= r1 * r1) by (nonlinear_arith)
            requires
                r2 + 1 <= r1,
                r2 >= 0,
        ;
    }
}

pub proof fn lemma_choose_isqrt(n: int, r: int)
    requires
        is_isqrt(n, r),
    ensures
        choose_isqrt(n) == r,
{
    lemma_isqrt_unique(n, r, choose_isqrt(n));
}

/// The operation name returned for SUM or DIFF.
pub open spec fn op_name_ok(op: &str, sum: bool) -> bool {
    if sum {
        is_sum_op(op)
    } else {
        is_diff_op(op)
    }
}

fn name_sum() -> (r: &'static str)
    ensures
        is_sum_op(r),
{
    let r = "SUM";
    proof {
        reveal_strlit("SUM");
        vstd::string::is_ascii_spec_bytes(r);
        assert(r.spec_bytes() =~= seq![83u8, 85u8, 77u8]);
    }
    r
}

fn name_diff() -> (r: &'static str)
    ensures
        is_diff_op(r),
{
    let r = "DIFF";
    proof {
        reveal_strlit("DIFF");
        vstd::string::is_ascii_spec_bytes(r);
        assert(r.spec_bytes() =~= seq![68u8, 73u8, 70u8, 70u8]);
    }
    r
}

/// Convert super-symbol index k (1-based) to (op, i, j), i and j 1-based.
pub fn unrank_symbol(k: u64) -> (r: Result<(&'static str, u64, u64), &'static str>)
    ensures
        r is Ok <==> k >= 1,
        r is Ok ==> ({
            let u = unrank_spec(k as int);
            &&& op_name_ok(r->Ok_0.0, u.0)
            &&& r->Ok_0.1 == u.1
            &&& r->Ok_0.2 == u.2
        }),
{
    if k < 1 {
        return Err("k must be >= 1");
    }
    let root = isqrt(k - 1);
    proof {
        lemma_choose_isqrt(k - 1, root as int);
    }
    let i = root + 1;
    assert(root * root <= k - 1);
    let base = root * root;
    let pos = k - base;
    if i == 1 {
        return Ok((name_sum(), 1, 1));
    }
    assert(k - 1 < (root + 1) * (root + 1));
    assert((root + 1) * (root + 1) == root * root + 2 * root + 1) by (nonlinear_arith);
    if pos <= i - 1 {
        Ok((name_diff(), i, i - pos))
    } else {
        Ok((name_sum(), i, pos - (i - 1)))
    }
}

/// The number the super-symbol `k` stands for in `s`, if its positions exist.
pub open spec fn symbol_value(k: int, s: Seq<u64>) -> Option<int> {
    if k < 1 {
        None
    } else {
        let u = unrank_spec(k);
        if u.1 < 1 || u.2 < 1 || u.1 > s.len() || u.2 > s.len() {
            None
        } else if u.0 {
            Some(s[u.1 - 1] + s[u.2 - 1])
        } else {
            Some(s[u.1 - 1] - s[u.2 - 1])
        }
    }
}

pub proof fn lemma_unrank_bounds(k: int)
    requires
        k >= 1,
    ensures
        1 <= unrank_spec(k).2 <= unrank_spec(k).1,
        !unrank_spec(k).0 ==> unrank_spec(k).2 < unrank_spec(k).1,
        unrank_spec(k).1 >= 1,
{
    let r = choose_isqrt(k - 1);
    lemma_isqrt_exists(k - 1);
    assert((r + 1) * (r + 1) == r * r + 2 * r + 1) by (nonlinear_arith);
}

pub proof fn lemma_isqrt_exists(n: int)
    requires
        n >= 0,
    ensures
        is_isqrt(n, choose_isqrt(n)),
    decreases n,
{
    if n == 0 {
        assert(is_isqrt(0, 0));
    } else {
        lemma_isqrt_exists(n - 1);
        let r = choose_isqrt(n - 1);
        if n < (r + 1) * (r + 1) {
            assert(is_isqrt(n, r));
        } else {
            assert((r + 2) * (r + 2) == (r + 1) * (r + 1) + 2 * r + 3) by (nonlinear_arith);
            assert(is_isqrt(n, r + 1));
        }
    }
}

/// Inputs on which `decode_symbol` computes without overflow.
pub open spec fn decode_in_range(k: int, s: Seq<u64>) -> bool {
    match symbol_value(k, s) {
        Some(v) => 0 <= v <= u64::MAX,
        None => true,
    }
}

/// Recover a number from super-symbol k and sequence s.
pub fn decode_symbol(k: u64, s: &[u64]) -> (r: Result<u64, &'static str>)
    requires
        decode_in_range(k as int, s@),
    ensures
        r is Ok <==> symbol_value(k as int, s@) is Some,
        r is Ok ==> r->Ok_0 == symbol_value(k as int, s@)->Some_0,
{
    let (op, i, j) = match unrank_symbol(k) {
        Ok(t) => t,
        Err(e) => {
            return Err(e);
        },
    };
    proof {
        lemma_unrank_bounds(k as int);
    }
    if i == 0 || j == 0 || i > s.len() as u64 || j > s.len() as u64 {
        return Err("index out of range in decode_symbol");
    }
    let iu = i as usize;
    let ju = j as usize;
    let si = s[iu - 1];
    let sj = s[ju - 1];
    let sum = op_is_sum(op);
    proof {
        let u = unrank_spec(k as int);
        assert(sum == u.0) by {
            if u.0 {
            } else {
                assert(is_diff_op(op));
            }
        }
    }
    if sum {
        Ok(si + sj)
    } else {
        Ok(si - sj)
    }
}

/// Unranking a super-symbol and ranking the result gives the super-symbol back.
pub proof fn law_unrank_rank(k: int)
    requires
        k >= 1,
    ensures
        ({
            let u = unrank_spec(k);
            &&& 1 <= u.2 <= u.1
            &&& u.1 == 1 ==> u.0 && u.2 == 1 && k == 1
            &&& u.1 > 1 ==> rank_of(u.0, u.1, u.2) == k
            &&& !u.0 ==> u.2 < u.1
        }),
{
    lemma_isqrt_exists(k - 1);
    lemma_unrank_bounds(k);
    let r = choose_isqrt(k - 1);
    assert((r + 1) * (r + 1) == r * r + 2 * r + 1) by (nonlinear_arith);
    if r == 0 {
        assert(k - 1 < 1);
    }
}

/// Ranking a valid (op, i, j) and unranking the index gives (op, i, j) back.
pub proof fn law_rank_unrank(sum: bool, i: int, j: int)
    requires
        1 <= j <= i,
        !sum ==> j < i,
        i == 1 ==> sum,
    ensures
        i > 1 ==> unrank_spec(rank_of(sum, i, j)) == (sum, i, j),
        i == 1 ==> unrank_spec(1) == (true, 1int, 1int),
        i > 1 ==> rank_of(sum, i, j) >= 1,
{
    if i == 1 {
        assert(is_isqrt(0, 0)) by (nonlinear_arith);
        lemma_choose_isqrt(0, 0);
    } else {
        let k = rank_of(sum, i, j);
        let r = i - 1;
        assert(r * r <= k - 1);
        assert(k - 1 < (r + 1) * (r + 1)) by (nonlinear_arith)
            requires
                k <= r * r + 2 * r + 1,
                r >= 1,
        ;
        lemma_choose_isqrt(k - 1, r);
    }
}

/// Values of `s` add up without overflow.
pub open spec fn sums_fit(s: Seq<u64>) -> bool {
    forall|a: int, b: int| 0 <= a < s.len() && 0 <= b < s.len() ==> #[trigger] s[a] + #[trigger] s[b]
        <= u64::MAX
}

/// A lookup table from values to their (last) positions in `s`.
pub open spec fn index_of_seq(m: Map<u64, usize>, s: Seq<u64>) -> bool {
    &&& forall|v: u64| #[trigger] m.contains_key(v) ==> m[v] < s.len() && s[m[v] as int] == v
    &&& forall|i: int| 0 <= i < s.len() ==> #[trigger] m.contains_key(s[i])
}

fn build_index(s: &[u64]) -> (m: HashMap<u64, usize>)
    ensures
        index_of_seq(m@, s@),
        forall|i: int| 0 <= i < s@.len() ==> i <= m@[#[trigger] s@[i]],
{
    let mut m: HashMap<u64, usize> = HashMap::new();
    let mut i: usize = 0;
    while i < s.len()
        invariant
            i <= s@.len(),
            forall|v: u64| #[trigger] m@.contains_key(v) ==> m@[v] < i && s@[m@[v] as int] == v,
            forall|t: int| 0 <= t < i ==> #[trigger] m@.contains_key(s@[t]),
            forall|t: int| 0 <= t < i ==> t <= m@[#[trigger] s@[t]],
        decreases s@.len() - i,
    {
        m.insert(s[i], i);
        i = i + 1;
    }
    m
}

/// What a `find_symbol` answer claims: `n = S[i] + S[j]` (SUM), or
/// `S[j] = S[i] - n` saturating at zero (DIFF), at super-symbol `k`.
pub open spec fn found_ok(n: u64, s: Seq<u64>, r: (u64, &str, u64, u64)) -> bool {
    let (k, op, i, j) = r;
    &&& 1 <= j <= i <= s.len()
    &&& (is_sum_op(op) || is_diff_op(op))
    &&& k == rank_of(is_sum_op(op), i as int, j as int)
    &&& is_sum_op(op) ==> s[i - 1] + s[j - 1] == n
    &&& is_diff_op(op) ==> j < i && s[j - 1] == (if s[i - 1] >= n { s[i - 1] - n } else { 0 })
}

/// Last position `hi` of the SUM search: just before the first value of `s`
/// (from `t` on) that reaches `n`, else the last position.
pub open spec fn sum_hi_lim(s: Seq<u64>, n: u64, t: nat) -> int
    decreases s.len() - t,
{
    if t >= s.len() {
        s.len() - 1
    } else if s[t as int] >= n {
        if t > 0 { t - 1 } else { 0 }
    } else {
        sum_hi_lim(s, n, t + 1)
    }
}

/// Best SUM super-symbol of the two-pointer search from `lo`, `hi` with the
/// best so far `bk`: pairs `S[hi] + S[lo] = n` at rank `(i-1)^2 + (i-1) + j`,
/// stopping once no smaller rank is left.
pub open spec fn sum_search(s: Seq<u64>, n: u64, lo: int, hi: int, bk: Option<u64>) -> Option<u64>
    decreases hi + s.len() - lo,
{
    if lo > hi || hi >= s.len() || lo < 0 {
        bk
    } else {
        let i_sym = hi + 1;
        let k_min = i_sym * i_sym - i_sym + 1;
        if bk is Some && k_min >= bk->Some_0 {
            bk
        } else {
            let sum = s[lo] + s[hi];
            if sum == n {
                let k = (i_sym - 1) * (i_sym - 1) + (i_sym - 1) + lo + 1;
                let nb = if bk is None || k < bk->Some_0 { Some(k as u64) } else { bk };
                sum_search(s, n, lo + 1, if hi > 0 { hi - 1 } else { hi }, nb)
            } else if sum < n {
                sum_search(s, n, lo + 1, hi, bk)
            } else if hi == 0 {
                bk
            } else {
                sum_search(s, n, lo, hi - 1, bk)
            }
        }
    }
}

/// `S[i] - n`, saturating at zero.
pub open spec fn diff_target(s: Seq<u64>, n: u64, i: int) -> u64 {
    if s[i] >= n { (s[i] - n) as u64 } else { 0 }
}

/// A DIFF pair at position `i` through the value index `m`: the target
/// value of `i` is indexed at a smaller position.
pub open spec fn diff_at(m: Map<u64, usize>, s: Seq<u64>, n: u64, i: int) -> bool {
    m.contains_key(diff_target(s, n, i)) && m[diff_target(s, n, i)] < i
}

/// A DIFF pair at position `i` through the index of last positions: the
/// target value of `i` occurs before `i` and not from `i` on.
pub open spec fn diff_at_last(s: Seq<u64>, n: u64, i: int) -> bool {
    &&& exists|j: int| 0 <= j < i && s[j] == diff_target(s, n, i)
    &&& forall|j: int| i <= j < s.len() ==> s[j] != diff_target(s, n, i)
}

/// A DIFF pair through the value index `m` at some position.
pub open spec fn diff_found(m: Map<u64, usize>, s: Seq<u64>, n: u64) -> bool {
    exists|i: int| 0 <= i < s.len() && #[trigger] diff_at(m, s, n, i)
}

/// A DIFF pair through the index of last positions at some position.
pub open spec fn diff_found_last(s: Seq<u64>, n: u64) -> bool {
    exists|i: int| 0 <= i < s.len() && #[trigger] diff_at_last(s, n, i)
}

/// Through an index of last positions, a DIFF pair at `i` is one through `m`.
proof fn lemma_diff_at_last(m: Map<u64, usize>, s: Seq<u64>, n: u64, i: int)
    requires
        0 <= i < s.len(),
        index_of_seq(m, s),
        forall|k: int| 0 <= k < s.len() ==> k <= m[#[trigger] s[k]],
    ensures
        diff_at(m, s, n, i) <==> diff_at_last(s, n, i),
{
    let tg = diff_target(s, n, i);
    if diff_at(m, s, n, i) {
        assert(s[m[tg] as int] == tg);
        assert forall|j: int| i <= j < s.len() implies s[j] != tg by {
            if s[j] == tg {
                assert(j <= m[s[j]]);
            }
        }
    }
    if diff_at_last(s, n, i) {
        let j = choose|j: int| 0 <= j < i && s[j] == tg;
        assert(m.contains_key(s[j]));
        assert(s[m[tg] as int] == tg);
    }
}

/// Find a super-symbol k with n = S[i] op S[j] (two-pointer search over SUM
/// pairs, then a value-index search over DIFF pairs).  `s_index`, when given,
/// maps each value of `s` to a position holding it.
pub fn find_symbol(n: u64, s: &[u64], s_index: Option<&HashMap<u64, usize>>) -> (r: Option<
    (u64, &'static str, u64, u64),
>)
    requires
        s@.len() < 0x1_0000_0000,
        sums_fit(s@),
    ensures
        n == 0 || s@.len() == 0 ==> r is None,
        n != 0 && s@.len() != 0 ==> (r is Some <==> sum_search(s@, n, 0, sum_hi_lim(s@, n, 0), None) is Some
            || match s_index {
            Some(m) => diff_found(m@, s@, n),
            None => diff_found_last(s@, n),
        }),
        n != 0 && s@.len() != 0 && sum_search(s@, n, 0, sum_hi_lim(s@, n, 0), None) is None && r is Some ==> ({
            let i = r->Some_0.2 as int - 1;
            &&& 0 <= i < s@.len()
            &&& match s_index {
                Some(m) => diff_at(m@, s@, n, i) && forall|k: int| 0 <= k < i ==> !#[trigger] diff_at(m@, s@, n, k),
                None => diff_at_last(s@, n, i) && forall|k: int| 0 <= k < i ==> !#[trigger] diff_at_last(s@, n, k),
            }
        }),
        (s_index is None || index_of_seq(s_index->Some_0@, s@)) && r is Some ==> found_ok(
            n,
            s@,
            r->Some_0,
        ),
        n != 0 && s@.len() != 0 && sum_search(s@, n, 0, sum_hi_lim(s@, n, 0), None) is Some ==> r is Some
            && r->Some_0.0 <= sum_search(s@, n, 0, sum_hi_lim(s@, n, 0), None)->Some_0,
{
    if n == 0 {
        return None;
    }
    let len = s.len();
    if len == 0 {
        return None;
    }
    let built: HashMap<u64, usize>;
    let index: &HashMap<u64, usize> = match s_index {
        Some(idx) => idx,
        None => {
            built = build_index(s);
            &built
        },
    };
    let ghost consistent = s_index is None || index_of_seq(s_index->Some_0@, s@);
    assert(consistent ==> index_of_seq(index@, s@));
    let mut best_k: Option<u64> = None;
    let mut best_result: Option<(u64, &'static str, u64, u64)> = None;
    // Upper bound: the position before the first value >= n.
    let mut hi_lim: usize = len - 1;
    let mut t: usize = 0;
    while t < len
        invariant
            t <= len == s@.len(),
            len > 0,
            hi_lim < len,
            sum_hi_lim(s@, n, 0) == sum_hi_lim(s@, n, t as nat),
            t > 0 ==> hi_lim == t - 1,
        ensures
            hi_lim == sum_hi_lim(s@, n, 0),
        decreases len - t,
    {
        if s[t] >= n {
            hi_lim = if t > 0 {
                t - 1
            } else {
                0
            };
            break ;
        }
        hi_lim = t;
        t = t + 1;
    }
    let mut lo: usize = 0;
    let mut hi: usize = hi_lim;
    let ghost s1 = sum_search(s@, n, 0, hi_lim as int, None);
    assert(len * len < 0x1_0000_0000 * 0x1_0000_0000) by (nonlinear_arith)
        requires
            len < 0x1_0000_0000,
    ;
    while lo <= hi
        invariant
            hi < len == s@.len(),
            lo <= len,
            len < 0x1_0000_0000,
            sums_fit(s@),
            best_k is None <==> best_result is None,
            best_result is Some ==> found_ok(n, s@, best_result->Some_0),
            best_result is Some ==> best_k->Some_0 == best_result->Some_0.0,
            sum_search(s@, n, lo as int, hi as int, best_k) == s1,
        ensures
            best_k == s1,
            best_k is None <==> best_result is None,
            best_result is Some ==> found_ok(n, s@, best_result->Some_0),
        decreases hi + len - lo,
    {
        let i_sym: u64 = (hi + 1) as u64;
        assert(i_sym * i_sym <= 0xFFFF_FFFE_0000_0001) by (nonlinear_arith)
            requires
                i_sym <= 0xFFFF_FFFF,
        ;
        assert(i_sym * i_sym >= i_sym) by (nonlinear_arith)
            requires
                i_sym >= 1,
        ;
        let k_min = i_sym * i_sym - i_sym + 1;
        match best_k {
            Some(bk) => {
                if k_min >= bk {
                    break ;
                }
            },
            None => {},
        }
        let sum = s[lo] + s[hi];
        if sum == n {
            let j_sym: u64 = (lo + 1) as u64;
            assert((i_sym - 1) * (i_sym - 1) <= i_sym * i_sym) by (nonlinear_arith)
                requires
                    i_sym >= 1,
            ;
            let k = (i_sym - 1) * (i_sym - 1) + (i_sym - 1) + j_sym;
            let better = match best_k {
                Some(bk) => k < bk,
                None => true,
            };
            if better {
                best_k = Some(k);
                best_result = Some((k, name_sum(), i_sym, j_sym));
                proof {
                    vstd::string::is_ascii_spec_bytes("SUM");
                }
            }
            lo = lo + 1;
            if hi > 0 {
                hi = hi - 1;
            }
        } else if sum < n {
            lo = lo + 1;
        } else {
            if hi == 0 {
                break ;
            }
            hi = hi - 1;
        }
    }
    let mut idx_i: usize = 0;
    let ghost im = index@;
    while idx_i < len
        invariant
            idx_i <= len == s@.len(),
            len < 0x1_0000_0000,
            im == index@,
            consistent ==> index_of_seq(index@, s@),
            best_k is Some <==> best_result is Some,
            best_result is Some ==> best_k->Some_0 == best_result->Some_0.0,
            consistent && best_result is Some ==> found_ok(n, s@, best_result->Some_0),
            s1 is Some ==> best_result is Some,
            s1 is None ==> (best_result is Some <==> exists|k: int| 0 <= k < idx_i && #[trigger] diff_at(im, s@, n, k)),
            s1 is None && best_result is Some ==> best_result->Some_0.2 >= 1 && best_result->Some_0.2 <= idx_i
                && diff_at(im, s@, n, best_result->Some_0.2 - 1) && forall|k: int|
                0 <= k < best_result->Some_0.2 - 1 ==> !#[trigger] diff_at(im, s@, n, k),
            s1 is None && best_result is Some ==> best_k->Some_0 <= idx_i * idx_i,
            s1 is Some ==> best_k is Some && best_k->Some_0 <= s1->Some_0,
        ensures
            best_result is None ==> idx_i == len,
        decreases len - idx_i,
    {
        let i_sym: u64 = (idx_i + 1) as u64;
        assert((i_sym - 1) * (i_sym - 1) <= 0xFFFF_FFFC_0000_0004) by (nonlinear_arith)
            requires
                1 <= i_sym <= 0xFFFF_FFFF,
        ;
        let i_base = (i_sym - 1) * (i_sym - 1);
        assert(i_base == idx_i * idx_i);
        match best_k {
            Some(bk) => {
                if i_base + 1 >= bk {
                    break ;
                }
            },
            None => {},
        }
        let ghost had = best_result is Some;
        let ghost mut found_here = false;
        let target = if s[idx_i] >= n {
            s[idx_i] - n
        } else {
            0
        };
        match index.get(&target) {
            Some(j_ref) => {
                let j_idx = *j_ref;
                if j_idx < idx_i {
                    let j_sym = (j_idx + 1) as u64;
                    let k = i_base + (i_sym - j_sym);
                    let better = match best_k {
                        Some(bk) => k < bk,
                        None => true,
                    };
                    if better {
                        best_k = Some(k);
                        best_result = Some((k, name_diff(), i_sym, j_sym));
                        proof {
                            found_here = true;
                            assert(k <= (idx_i + 1) * (idx_i + 1)) by (nonlinear_arith)
                                requires
                                    k == idx_i * idx_i + (i_sym - j_sym),
                                    i_sym == idx_i + 1,
                                    j_sym >= 1,
                            ;
                        }
                    }
                }
            },
            None => {},
        }
        proof {
            assert(target == diff_target(s@, n, idx_i as int));
            if s1 is None {
                assert(!had ==> (found_here <==> diff_at(im, s@, n, idx_i as int)));
                assert(had ==> !found_here);
                if had {
                    assert((idx_i + 1) * (idx_i + 1) >= idx_i * idx_i) by (nonlinear_arith);
                }
            }
        }
        idx_i = idx_i + 1;
    }
    proof {
        if s_index is None {
            assert forall|k: int| 0 <= k < s@.len() implies (#[trigger] diff_at(im, s@, n, k) <==> diff_at_last(s@, n, k)) by {
                lemma_diff_at_last(im, s@, n, k);
            }
        }
        if s1 is None && best_result is Some {
            let i = best_result->Some_0.2 as int - 1;
            if s_index is None {
                assert(diff_at_last(s@, n, i));
                assert forall|k: int| 0 <= k < i implies !#[trigger] diff_at_last(s@, n, k) by {
                    assert(!diff_at(im, s@, n, k));
                }
            } else {
                assert(im == s_index->Some_0@);
            }
        }
        if s1 is None {
            assert(best_result is Some <==> diff_found(im, s@, n));
            if s_index is None {
                assert(diff_found(im, s@, n) <==> diff_found_last(s@, n)) by {
                    if diff_found(im, s@, n) {
                        let i = choose|i: int| 0 <= i < s@.len() && #[trigger] diff_at(im, s@, n, i);
                        assert(diff_at_last(s@, n, i));
                    }
                    if diff_found_last(s@, n) {
                        let i = choose|i: int| 0 <= i < s@.len() && #[trigger] diff_at_last(s@, n, i);
                        assert(diff_at(im, s@, n, i));
                    }
                }
            }
        }
    }
    best_result
}

/// Largest packed index `k * 2 + odd` whose ULEB128 form is shorter than a raw
/// block of `block_bits` bits.
pub open spec fn lut_max_pk(block_bits: nat) -> nat {
    if block_bits / 8 >= 9 {
        u64::MAX as nat
    } else {
        (vstd::arithmetic::power2::pow2((block_bits / 8) * 7) - 1) as nat
    }
}

/// A lookup-table entry value -> packed index that decodes back to the value:
/// `pk = k * 2 + odd` stands for `symbol_value(k) + odd`, and `pk = 1` for 1.
pub open spec fn lut_entry_ok(v: u64, pk: u64, s: Seq<u64>, block_bits: nat) -> bool {
    &&& pk <= lut_max_pk(block_bits)
    &&& 0 < v < vstd::arithmetic::power2::pow2(block_bits)
    &&& (pk == 1 && v == 1) || (pk / 2 >= 1 && symbol_value((pk / 2) as int, s) == Some(
        (v - pk % 2) as int,
    ))
}

pub open spec fn lut_ok(m: Map<u64, u64>, s: Seq<u64>, block_bits: nat) -> bool {
    forall|v: u64| #[trigger] m.contains_key(v) ==> lut_entry_ok(v, m[v], s, block_bits)
}

fn lut_put(lut: &mut HashMap<u64, u64>, v: u64, pk: u64, Ghost(s): Ghost<Seq<u64>>, Ghost(bb): Ghost<nat>)
    requires
        lut_ok(old(lut)@, s, bb),
        lut_entry_ok(v, pk, s, bb),
    ensures
        lut_ok(final(lut)@, s, bb),
        old(lut)@.contains_key(v) ==> final(lut)@ == old(lut)@,
        !old(lut)@.contains_key(v) ==> final(lut)@ == old(lut)@.insert(v, pk),
{
    if !lut.contains_key(&v) {
        lut.insert(v, pk);
    }
}

/// Build a lookup table value -> packed_k (k*2+odd) for the sequence `s`, for
/// block sizes up to 16 bits (empty otherwise).  Each value keeps the first
/// packed index found for it.
#[verifier::spinoff_prover]
pub fn build_lut(s: &[u64], block_bits: usize) -> (lut: HashMap<u64, u64>)
    requires
        sums_fit(s@),
    ensures
        block_bits > 16 ==> lut@ == Map::<u64, u64>::empty(),
        lut_ok(lut@, s@, block_bits as nat),
{
    let mut lut: HashMap<u64, u64> = HashMap::new();
    if block_bits > 16 {
        return lut;
    }
    proof {
        lemma2_to64();
        assert(lut@ =~= Map::<u64, u64>::empty());
    }
    let bb = block_bits as u64;
    proof {
        vstd::bits::lemma_u64_shl_is_mul(1, bb);
    }
    let max_val: u64 = 1u64 << bb;
    let mub: u64 = bb / 8;
    let shift: u64 = mub * 7;
    proof {
        vstd::bits::lemma_u64_shl_is_mul(1, shift);
    }
    let max_pk: u64 = (1u64 << shift) - 1;
    assert(max_pk as nat == lut_max_pk(block_bits as nat));
    let root = isqrt(max_pk);
    assert(root <= 127) by (nonlinear_arith)
        requires
            root * root <= max_pk,
            max_pk <= 16383,
    ;
    let max_i: usize = if (root as usize) + 2 < s.len() {
        (root as usize) + 2
    } else {
        s.len()
    };
    let ghost sq = s@;
    let ghost bbn = block_bits as nat;
    let mut i: usize = 0;
    while i < max_i
        invariant
            max_i <= s@.len(),
            max_i <= 129,
            sq == s@,
            bbn == block_bits,
            max_val as nat == pow2(bbn),
            max_pk as nat == lut_max_pk(bbn),
            sums_fit(s@),
            lut_ok(lut@, sq, bbn),
        decreases max_i - i,
    {
        let si = s[i];
        let i_sym = (i + 1) as u64;
        let mut j: usize = 0;
        while j <= i
            invariant
                i < max_i <= s@.len(),
                max_i <= 129,
                sq == s@,
                bbn == block_bits,
                si == s@[i as int],
                i_sym == i + 1,
                max_val as nat == pow2(bbn),
                max_pk as nat == lut_max_pk(bbn),
                sums_fit(s@),
                lut_ok(lut@, sq, bbn),
            decreases i + 1 - j,
        {
            let sj = s[j];
            let j_sym = (j + 1) as u64;
            assert(si + sj <= u64::MAX);
            let sum = si + sj;
            assert((i_sym - 1) * (i_sym - 1) <= 16384) by (nonlinear_arith)
                requires
                    1 <= i_sym <= 129,
            ;
            if sum > 0 && sum < max_val {
                let k = (i_sym - 1) * (i_sym - 1) + (i_sym - 1) + j_sym;
                proof {
                    law_rank_unrank(true, i_sym as int, j_sym as int);
                    law_unrank_rank(1);
                }
                let pk_even = k * 2;
                assert(k == rank_of(true, i_sym as int, j_sym as int));
                assert(unrank_spec(k as int) == (true, i_sym as int, j_sym as int));
                assert(symbol_value(k as int, sq) == Some(sum as int));
                assert(pk_even / 2 == k);
                if pk_even <= max_pk {
                    lut_put(&mut lut, sum, pk_even, Ghost(sq), Ghost(bbn));
                }
                if sum + 1 < max_val {
                    let pk_odd = k * 2 + 1;
                    if pk_odd <= max_pk {
                        lut_put(&mut lut, sum + 1, pk_odd, Ghost(sq), Ghost(bbn));
                    }
                }
            }
            if i > j {
                let diff = if si >= sj {
                    si - sj
                } else {
                    0
                };
                if diff > 0 && diff < max_val {
                    let k = (i_sym - 1) * (i_sym - 1) + (i_sym - j_sym);
                    proof {
                        law_rank_unrank(false, i_sym as int, j_sym as int);
                    }
                    let pk_even = k * 2;
                    if pk_even <= max_pk {
                        lut_put(&mut lut, diff, pk_even, Ghost(sq), Ghost(bbn));
                    }
                    if diff + 1 < max_val {
                        let pk_odd = k * 2 + 1;
                        if pk_odd <= max_pk {
                            lut_put(&mut lut, diff + 1, pk_odd, Ghost(sq), Ghost(bbn));
                        }
                    }
                }
            }
            j = j + 1;
        }
        i = i + 1;
    }
    // value 1 sentinel
    if !lut.contains_key(&1) && block_bits >= 8 {
        proof {
            lemma_pow2_strictly_increases(0, bbn);
        }
        lut.insert(1, 1);
    }
    // extended DIFF pairs: large i, small gap i - j
    let gap_max: usize = if max_i < 5 {
        max_i
    } else {
        5
    };
    let ext_max_i: usize = if max_i * 4 < s.len() {
        max_i * 4
    } else {
        s.len()
    };
    let mut i: usize = max_i;
    while i < ext_max_i
        invariant
            ext_max_i <= s@.len(),
            ext_max_i <= 516,
            gap_max <= 5,
            sq == s@,
            bbn == block_bits,
            max_val as nat == pow2(bbn),
            max_pk as nat == lut_max_pk(bbn),
            lut_ok(lut@, sq, bbn),
        decreases ext_max_i - i,
    {
        let si = s[i];
        let i_sym = (i + 1) as u64;
        let mut gap: usize = 1;
        while gap <= gap_max
            invariant
                i < ext_max_i <= s@.len(),
                ext_max_i <= 516,
                gap_max <= 5,
                gap >= 1,
                sq == s@,
                bbn == block_bits,
                si == s@[i as int],
                i_sym == i + 1,
                max_val as nat == pow2(bbn),
                max_pk as nat == lut_max_pk(bbn),
                lut_ok(lut@, sq, bbn),
            decreases gap_max + 1 - gap,
        {
            if gap > i {
                break ;
            }
            let j = i - gap;
            let sj = s[j];
            let diff = if si >= sj {
                si - sj
            } else {
                0
            };
            assert((i_sym - 1) * (i_sym - 1) <= 516 * 516) by (nonlinear_arith)
                requires
                    1 <= i_sym <= 516,
            ;
            if diff != 0 && diff < max_val {
                let j_sym = (j + 1) as u64;
                let k = (i_sym - 1) * (i_sym - 1) + (i_sym - j_sym);
                proof {
                    law_rank_unrank(false, i_sym as int, j_sym as int);
                }
                let pk_even = k * 2;
                if pk_even <= max_pk {
                    lut_put(&mut lut, diff, pk_even, Ghost(sq), Ghost(bbn));
                }
            }
            gap = gap + 1;
        }
        i = i + 1;
    }
    lut
}

} // verus!
