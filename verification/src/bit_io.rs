//! MSB-first bit packing (`BitWriter` / `BitReader`) and ULEB128 integers.
//!
//! Bit streams are modelled as `Seq<bool>`; a byte contributes its bits from
//! the most significant one down (`byte_bits`).
use vstd::arithmetic::div_mod::*;
use vstd::arithmetic::power2::*;
use vstd::bits::*;
use vstd::prelude::*;

verus! {

// ───────────────────────────── bit-level model ─────────────────────────────

/// Bit `k` (counting from the least significant bit) of `v`.
pub open spec fn bit_of(v: nat, k: nat) -> bool {
    (v / pow2(k)) % 2 == 1
}

/// The `n` low bits of `v`, most significant first.
pub open spec fn bits_of(v: nat, n: nat) -> Seq<bool> {
    Seq::new(n, |i: int| bit_of(v, (n - 1 - i) as nat))
}

/// The number that a bit sequence (most significant bit first) denotes.
pub open spec fn bits_value(s: Seq<bool>) -> nat
    decreases s.len(),
{
    if s.len() == 0 {
        0
    } else {
        2 * bits_value(s.drop_last()) + (if s.last() { 1nat } else { 0nat })
    }
}

/// The bits of a byte sequence, each byte most significant bit first.
pub open spec fn bytes_bits(bs: Seq<u8>) -> Seq<bool> {
    Seq::new(bs.len() * 8, |i: int| bit_of(bs[i / 8] as nat, (7 - i % 8) as nat))
}

/// `n` zero bits.
pub open spec fn zero_bits(n: nat) -> Seq<bool> {
    Seq::new(n, |i: int| false)
}

/// A bit sequence padded with zero bits up to the next byte boundary.
pub open spec fn pad_bits(bits: Seq<bool>) -> Seq<bool> {
    bits + zero_bits(((8 - bits.len() % 8) % 8) as nat)
}

/// Rice code of `value` with parameter `k`: the quotient `value / 2^k` in
/// unary (that many ones, then a zero), then the `k` low bits.
pub open spec fn rice_bits(value: nat, k: nat) -> Seq<bool> {
    Seq::new(value / pow2(k), |i: int| true).push(false) + bits_of(value % pow2(k), k)
}

pub proof fn lemma_pow2_step(k: nat)
    requires
        k >= 1,
    ensures
        pow2(k) == 2 * pow2((k - 1) as nat),
        pow2((k - 1) as nat) > 0,
{
    lemma_pow2_unfold(k);
    lemma_pow2_pos((k - 1) as nat);
}

pub proof fn lemma_bit0(v: nat)
    ensures
        bit_of(v, 0) == (v % 2 == 1),
{
    lemma2_to64();
    assert(v / 1 == v);
}

pub proof fn lemma_bit_succ(v: nat, k: nat)
    ensures
        bit_of(v, k + 1) == bit_of(v / 2, k),
{
    lemma_pow2_step(k + 1);
    assert((k + 1 - 1) as nat == k);
    lemma_div_denominator(v as int, 2, pow2(k) as int);
    assert(pow2(k + 1) == 2 * pow2(k));
}

/// Appending one bit on the right doubles the value.
pub proof fn lemma_bits_of_push(v: nat, c: nat, n: nat)
    requires
        c < 2,
    ensures
        bits_of(2 * v + c, n + 1) =~= bits_of(v, n).push(c == 1),
{
    let l = bits_of(2 * v + c, n + 1);
    let r = bits_of(v, n).push(c == 1);
    assert forall|i: int| 0 <= i < n + 1 implies #[trigger] l[i] == r[i] by {
        if i == n {
            lemma_bit0(2 * v + c);
            assert(l[i] == bit_of(2 * v + c, 0));
        } else {
            let k = (n - 1 - i) as nat;
            assert(l[i] == bit_of(2 * v + c, k + 1));
            lemma_bit_succ(2 * v + c, k);
            lemma_div_multiples_vanish_fancy(v as int, c as int, 2);
            assert((2 * v + c) / 2 == v);
            assert(r[i] == bits_of(v, n)[i]);
        }
    }
}

/// Dropping the last bit halves the value.
pub proof fn lemma_bits_of_drop_last(v: nat, n: nat)
    requires
        n >= 1,
    ensures
        bits_of(v, n).drop_last() =~= bits_of(v / 2, (n - 1) as nat),
        bits_of(v, n).last() == (v % 2 == 1),
{
    lemma_bit0(v);
    assert(bits_of(v, n).last() == bit_of(v, 0));
    let l = bits_of(v, n).drop_last();
    let r = bits_of(v / 2, (n - 1) as nat);
    assert forall|i: int| 0 <= i < n - 1 implies #[trigger] l[i] == r[i] by {
        let k = (n - 2 - i) as nat;
        assert(l[i] == bit_of(v, k + 1));
        lemma_bit_succ(v, k);
    }
}

pub proof fn lemma_bits_value_push(s: Seq<bool>, b: bool)
    ensures
        bits_value(s.push(b)) == 2 * bits_value(s) + (if b { 1nat } else { 0nat }),
{
    assert(s.push(b).drop_last() =~= s);
}

pub proof fn lemma_bits_value_bound(s: Seq<bool>)
    ensures
        bits_value(s) < pow2(s.len()),
    decreases s.len(),
{
    lemma2_to64();
    if s.len() > 0 {
        lemma_bits_value_bound(s.drop_last());
        lemma_pow2_step(s.len());
    }
}

/// Reading back the bits of a value gives the value modulo `2^n`.
pub proof fn lemma_bits_value_bits_of(v: nat, n: nat)
    ensures
        bits_value(bits_of(v, n)) == v % pow2(n),
    decreases n,
{
    lemma2_to64();
    if n == 0 {
        assert(bits_of(v, 0) =~= Seq::<bool>::empty());
    } else {
        lemma_bits_of_drop_last(v, n);
        lemma_bits_value_bits_of(v / 2, (n - 1) as nat);
        lemma_pow2_step(n);
        lemma_mod_breakdown(v as int, 2, pow2((n - 1) as nat) as int);
    }
}

/// The bits of a value below `2^n` determine it.
pub proof fn lemma_bits_of_small(v: nat, n: nat)
    requires
        v < pow2(n),
    ensures
        bits_value(bits_of(v, n)) == v,
{
    lemma_bits_value_bits_of(v, n);
    lemma_pow2_pos(n);
    lemma_small_mod(v, pow2(n));
}

pub proof fn lemma_bytes_bits_push(bs: Seq<u8>, b: u8)
    ensures
        bytes_bits(bs.push(b)) =~= bytes_bits(bs) + bits_of(b as nat, 8),
{
    let l = bytes_bits(bs.push(b));
    let r = bytes_bits(bs) + bits_of(b as nat, 8);
    assert(l.len() == r.len());
    assert forall|i: int| 0 <= i < l.len() implies #[trigger] l[i] == r[i] by {
        if i < bs.len() * 8 {
            assert(i / 8 < bs.len());
        } else {
            assert(i / 8 == bs.len());
        }
    }
}

pub proof fn lemma_bytes_bits_empty()
    ensures
        bytes_bits(Seq::<u8>::empty()) =~= Seq::<bool>::empty(),
{
}

pub proof fn lemma_bytes_bits_add(a: Seq<u8>, b: Seq<u8>)
    ensures
        bytes_bits(a + b) =~= bytes_bits(a) + bytes_bits(b),
{
    let l = bytes_bits(a + b);
    let r = bytes_bits(a) + bytes_bits(b);
    assert(l.len() == r.len());
    assert forall|i: int| 0 <= i < l.len() implies #[trigger] l[i] == r[i] by {
        if i < a.len() * 8 {
            assert(i / 8 < a.len());
        } else {
            let j = i - a.len() * 8;
            assert(i / 8 == a.len() + j / 8);
            assert(i % 8 == j % 8);
        }
    }
}

/// Bit `i` of a byte stream, read from its byte.
pub proof fn lemma_bytes_bits_index(bs: Seq<u8>, i: int)
    requires
        0 <= i < bs.len() * 8,
    ensures
        bytes_bits(bs)[i] == bit_of(bs[i / 8] as nat, (7 - i % 8) as nat),
        0 <= i / 8 < bs.len(),
{
}

/// A bit of a `u64` read with a shift and a mask.
pub proof fn lemma_u64_bit(v: u64, k: u64)
    requires
        k < 64,
    ensures
        ((v >> k) & 1) as nat == (if bit_of(v as nat, k as nat) { 1nat } else { 0nat }),
{
    lemma_u64_shr_is_div(v, k);
    let s = v >> k;
    assert(s & 1 == s % 2) by (bit_vector);
}

/// A bit of a `u8` read with a shift and a mask.
pub proof fn lemma_u8_bit(v: u8, k: u8)
    requires
        k < 8,
    ensures
        ((v >> k) & 1) as nat == (if bit_of(v as nat, k as nat) { 1nat } else { 0nat }),
{
    lemma_u8_shr_is_div(v, k);
    let s = v >> k;
    assert(s & 1 == s % 2) by (bit_vector);
}

// ───────────────────────────── ULEB128 model ─────────────────────────────

/// ULEB128 bytes of `x`: 7 data bits per byte, low group first, bit 7 set on
/// every byte but the last.
pub open spec fn uleb_bytes(x: nat) -> Seq<u8>
    decreases x,
{
    if x < 128 {
        seq![x as u8]
    } else {
        seq![(x % 128 + 128) as u8] + uleb_bytes(x / 128)
    }
}

/// Number of bytes a ULEB128 reader consumes from `s`: up to and including
/// the first byte without the continuation bit, or all of `s`.
pub open spec fn uleb_span(s: Seq<u8>) -> nat
    decreases s.len(),
{
    if s.len() == 0 {
        0
    } else if s[0] < 128 {
        1
    } else {
        1 + uleb_span(s.drop_first())
    }
}

/// Whether `s` starts with a complete ULEB128 number.
pub open spec fn uleb_complete(s: Seq<u8>) -> bool
    decreases s.len(),
{
    if s.len() == 0 {
        false
    } else if s[0] < 128 {
        true
    } else {
        uleb_complete(s.drop_first())
    }
}

/// The data groups of the first `n` bytes: `sum (s[i] % 128) * 2^(7 i)`.
pub open spec fn uleb_sum(s: Seq<u8>, n: nat) -> nat
    decreases n,
{
    if n == 0 {
        0
    } else {
        uleb_sum(s, (n - 1) as nat) + (s[n - 1] % 128) as nat * pow2((7 * (n - 1)) as nat)
    }
}

/// The 64-bit value a ULEB128 reader accumulates from `s`: groups beyond
/// bit 63 are lost.
pub open spec fn uleb_value(s: Seq<u8>) -> nat {
    uleb_sum(s, uleb_span(s)) % pow2(64)
}

/// A ULEB128 reader with a 64-bit shift register reaches at most ten bytes.
pub open spec fn uleb_safe(s: Seq<u8>) -> bool {
    uleb_span(s) <= 10
}

pub proof fn lemma_uleb_span_bound(s: Seq<u8>)
    ensures
        uleb_span(s) <= s.len(),
        s.len() > 0 ==> uleb_span(s) >= 1,
        uleb_complete(s) ==> uleb_span(s) >= 1 && s[uleb_span(s) - 1] < 128,
        forall|i: int| 0 <= i < uleb_span(s) - 1 ==> s[i] >= 128,
        !uleb_complete(s) ==> uleb_span(s) == s.len(),
    decreases s.len(),
{
    if s.len() > 0 && s[0] >= 128 {
        lemma_uleb_span_bound(s.drop_first());
        assert forall|i: int| 0 <= i < uleb_span(s) - 1 implies s[i] >= 128 by {
            if i > 0 {
                assert(s[i] == s.drop_first()[i - 1]);
            }
        }
    }
}

/// The span is determined by the first byte without continuation bit.
pub proof fn lemma_uleb_span_char(s: Seq<u8>, n: nat)
    requires
        n <= s.len(),
        forall|i: int| 0 <= i < n ==> s[i] >= 128,
    ensures
        n < s.len() && s[n as int] < 128 ==> uleb_span(s) == n + 1 && uleb_complete(s),
        n == s.len() ==> uleb_span(s) == n && !uleb_complete(s),
        n < s.len() ==> uleb_span(s) > n,
    decreases n,
{
    if n > 0 {
        assert forall|i: int| 0 <= i < n - 1 implies s.drop_first()[i] >= 128 by {
            assert(s.drop_first()[i] == s[i + 1]);
        }
        lemma_uleb_span_char(s.drop_first(), (n - 1) as nat);
    }
}

/// Bytes past the span do not matter.
pub proof fn lemma_uleb_sum_prefix(s: Seq<u8>, t: Seq<u8>, n: nat)
    requires
        n <= s.len(),
        n <= t.len(),
        s.subrange(0, n as int) =~= t.subrange(0, n as int),
    ensures
        uleb_sum(s, n) == uleb_sum(t, n),
    decreases n,
{
    if n > 0 {
        assert(s[n - 1] == s.subrange(0, n as int)[n - 1]);
        assert(t[n - 1] == t.subrange(0, n as int)[n - 1]);
        assert(s.subrange(0, n - 1) =~= s.subrange(0, n as int).subrange(0, n - 1));
        assert(t.subrange(0, n - 1) =~= t.subrange(0, n as int).subrange(0, n - 1));
        lemma_uleb_sum_prefix(s, t, (n - 1) as nat);
    }
}

pub proof fn lemma_uleb_sum_bound(s: Seq<u8>, n: nat)
    requires
        n <= s.len(),
    ensures
        uleb_sum(s, n) < pow2(7 * n),
    decreases n,
{
    lemma2_to64();
    if n > 0 {
        lemma_uleb_sum_bound(s, (n - 1) as nat);
        let p = pow2((7 * (n - 1)) as nat);
        lemma_pow2_adds((7 * (n - 1)) as nat, 7);
        assert((7 * (n - 1)) as nat + 7 == 7 * n);
        lemma2_to64();
        let d = (s[n - 1] % 128) as nat;
        assert(d * p <= 127 * p) by (nonlinear_arith)
            requires
                d <= 127,
        ;
    }
}

pub proof fn lemma_pow2_7(n: nat)
    requires
        n >= 1,
    ensures
        pow2(7 * n) == 128 * pow2((7 * (n - 1)) as nat),
{
    lemma2_to64();
    lemma_pow2_adds(7, (7 * (n - 1)) as nat);
    assert(7 + (7 * (n - 1)) as nat == 7 * n);
}

/// Shifting the first byte off a ULEB128 sum.
pub proof fn lemma_uleb_sum_cons(a: u8, t: Seq<u8>, n: nat)
    requires
        n <= t.len(),
    ensures
        uleb_sum(seq![a] + t, n + 1) == (a % 128) as nat + 128 * uleb_sum(t, n),
    decreases n,
{
    lemma2_to64();
    let s = seq![a] + t;
    if n == 0 {
        assert(s[0] == a);
        assert(uleb_sum(s, 1) == uleb_sum(s, 0) + (s[0] % 128) as nat * pow2(0));
    } else {
        lemma_uleb_sum_cons(a, t, (n - 1) as nat);
        assert(s[n as int] == t[n - 1]);
        assert(uleb_sum(s, n + 1) == uleb_sum(s, n) + (s[n as int] % 128) as nat * pow2(7 * n));
        assert(uleb_sum(t, n) == uleb_sum(t, (n - 1) as nat) + (t[n - 1] % 128) as nat * pow2(
            (7 * (n - 1)) as nat,
        ));
        lemma_pow2_7(n);
        let d = (t[n - 1] % 128) as nat;
        let p = pow2((7 * (n - 1)) as nat);
        assert(d * (128 * p) == 128 * (d * p)) by (nonlinear_arith);
    }
}

/// ULEB128 round trip: a reader finds exactly the written bytes and value.
pub proof fn lemma_uleb_roundtrip(x: nat, rest: Seq<u8>)
    ensures
        uleb_span(uleb_bytes(x) + rest) == uleb_bytes(x).len(),
        uleb_complete(uleb_bytes(x) + rest),
        uleb_sum(uleb_bytes(x) + rest, uleb_bytes(x).len()) == x,
        uleb_bytes(x).len() >= 1,
    decreases x,
{
    lemma2_to64();
    let s = uleb_bytes(x) + rest;
    if x < 128 {
        assert(s[0] == x as u8);
        assert(uleb_sum(s, 1) == uleb_sum(s, 0) + (s[0] % 128) as nat * pow2(0));
    } else {
        lemma_uleb_roundtrip(x / 128, rest);
        let t = uleb_bytes(x / 128) + rest;
        assert(s =~= seq![(x % 128 + 128) as u8] + t);
        assert(s.drop_first() =~= t);
        lemma_uleb_sum_cons((x % 128 + 128) as u8, t, uleb_bytes(x / 128).len());
    }
}

/// A ULEB128 encoding of a 64-bit number fits in ten bytes.
pub proof fn lemma_uleb_len(x: nat)
    ensures
        uleb_bytes(x).len() >= 1,
        uleb_bytes(x).len() >= 2 ==> x >= pow2((7 * (uleb_bytes(x).len() - 1)) as nat),
        x < pow2(64) ==> uleb_bytes(x).len() <= 10,
    decreases x,
{
    lemma2_to64();
    lemma2_to64_rest();
    if x >= 128 {
        lemma_uleb_len(x / 128);
        let n = uleb_bytes(x / 128).len();
        assert(uleb_bytes(x).len() == 1 + n);
        if n >= 2 {
            lemma_pow2_7(n);
        } else {
            assert(pow2(7) == 128);
        }
        if x < pow2(64) && n >= 10 {
            lemma_pow2_7(n);
            if n > 10 {
                lemma_pow2_strictly_increases(70, 7 * n);
            }
            lemma_pow2_adds(64, 6);
        }
    }
}

/// Reads a ULEB128 number starting at `start`, the way every reader in this
/// crate does: it stops after the first byte without continuation bit or at
/// the end of `data`.  Returns the accumulated value, the position after the
/// last byte read, and whether a terminating byte was found.
pub fn read_uleb_at(data: &[u8], start: usize) -> (r: (u64, usize, bool))
    requires
        start <= data@.len(),
        uleb_safe(data@.subrange(start as int, data@.len() as int)),
    ensures
        ({
            let s = data@.subrange(start as int, data@.len() as int);
            &&& r.0 as nat == uleb_value(s)
            &&& r.1 == start + uleb_span(s)
            &&& r.2 == uleb_complete(s)
        }),
{
    let ghost s = data@.subrange(start as int, data@.len() as int);
    proof {
        lemma_uleb_span_bound(s);
        lemma2_to64();
        lemma2_to64_rest();
    }
    let mut result: u64 = 0;
    let mut pos: usize = start;
    let mut i: usize = 0;
    loop
        invariant
            s == data@.subrange(start as int, data@.len() as int),
            start <= pos <= data@.len(),
            pos == start + i,
            i <= 10,
            i <= uleb_span(s),
            uleb_span(s) <= 10,
            i == 10 ==> pos == data@.len(),
            forall|j: int| 0 <= j < i ==> s[j] >= 128,
            result as nat == uleb_sum(s, i as nat) % pow2(64),
            pow2(64) == 0x10000000000000000,
        decreases data@.len() - pos,
    {
        if pos >= data.len() {
            proof {
                lemma_uleb_span_char(s, i as nat);
            }
            return (result, pos, false);
        }
        let b = data[pos];
        assert(b == s[i as int]);
        pos = pos + 1;
        let x: u64 = (b & 0x7F) as u64;
        assert(x == b % 128) by (bit_vector)
            requires
                x == (b & 0x7F) as u64,
        ;
        proof {
            lemma2_to64();
            lemma2_to64_rest();
            lemma_uleb_span_char(s, i as nat);
            lemma_uleb_sum_bound(s, i as nat);
            assert(uleb_sum(s, (i + 1) as nat) == uleb_sum(s, i as nat) + (s[i as int] % 128) as nat
                * pow2((7 * i) as nat));
        }
        if i < 9 {
            let sh: u64 = (7 * i) as u64;
            proof {
                lemma_pow2_adds(sh as nat, 7);
                lemma_pow2_strictly_increases((sh + 7) as nat, 64);
                lemma_pow2_strictly_increases(sh as nat, 64);
                let p = pow2(sh as nat);
                assert(x * p < p * 128) by (nonlinear_arith)
                    requires
                        x < 128,
                        p > 0,
                ;
                assert(pow2(sh as nat) * pow2(7) == pow2(sh as nat + 7));
                assert(x * p < pow2(64));
                lemma_small_mod(uleb_sum(s, i as nat), pow2(64));
                lemma_u64_shl_is_mul(x, sh);
                lemma_u64_shl_is_mul(1, sh);
                lemma_u64_pow2_no_overflow(sh as nat);
                let r0 = result;
                assert(r0 < (1u64 << sh) ==> (r0 | (x << sh)) == r0 + (x << sh)) by (bit_vector)
                    requires
                        x < 128,
                        sh < 63,
                ;
                lemma_small_mod(uleb_sum(s, (i + 1) as nat), pow2(64));
            }
            result = result | (x << sh);
        } else {
            proof {
                assert(i == 9);
                let r0 = result;
                assert(r0 < 0x8000000000000000u64 ==> (r0 | (x << 63u64)) == r0 + (x % 2)
                    * 0x8000000000000000u64) by (bit_vector);
                let p = pow2(63);
                let q = uleb_sum(s, 9);
                lemma_uleb_sum_bound(s, 9);
                assert(q < p);
                lemma_small_mod(q, pow2(64));
                assert(pow2(64) == 2 * p);
                assert(((q + x * p) as int) % ((2 * p) as int) == (q + (x % 2) * p) as int) by {
                    let h = x / 2;
                    assert(x == 2 * h + x % 2);
                    assert(q + x * p == (2 * p) * h + (q + (x % 2) * p)) by (nonlinear_arith)
                        requires
                            x == 2 * h + x % 2,
                    ;
                    lemma_mod_multiples_vanish(h as int, (q + (x % 2) * p) as int, (2 * p) as int);
                    assert(q + (x % 2) * p < 2 * p) by (nonlinear_arith)
                        requires
                            q < p,
                            x % 2 <= 1,
                    ;
                    lemma_small_mod((q + (x % 2) * p) as nat, (2 * p) as nat);
                }
            }
            result = result | (x << 63u64);
        }
        if (b & 0x80) == 0 {
            assert(b < 128) by (bit_vector)
                requires
                    (b & 0x80) == 0,
            ;
            proof {
                lemma_uleb_span_char(s, i as nat);
            }
            return (result, pos, true);
        }
        assert(b >= 128) by (bit_vector)
            requires
                (b & 0x80) != 0,
        ;
        proof {
            lemma_uleb_span_char(s, (i + 1) as nat);
        }
        i = i + 1;
    }
}

/// Encode a ULEB128 value.
pub fn uleb_encode(x: u64) -> (out: Vec<u8>)
    ensures
        out@ == uleb_bytes(x as nat),
{
    let mut out: Vec<u8> = Vec::new();
    let mut v: u64 = x;
    while v >= 0x80
        invariant
            out@ + uleb_bytes(v as nat) == uleb_bytes(x as nat),
        decreases v,
    {
        let b: u8 = ((v & 0x7F) | 0x80) as u8;
        assert(b == v % 128 + 128) by (bit_vector)
            requires
                b == ((v & 0x7F) | 0x80) as u8,
        ;
        let ghost old_out = out@;
        out.push(b);
        let ghost old_v = v;
        v = v >> 7;
        assert(v == old_v / 128) by (bit_vector)
            requires
                v == old_v >> 7,
        ;
        assert(uleb_bytes(old_v as nat) == seq![b] + uleb_bytes(v as nat));
        assert(out@ + uleb_bytes(v as nat) =~= old_out + (seq![b] + uleb_bytes(v as nat)));
    }
    let b: u8 = (v & 0x7F) as u8;
    assert(b == v) by (bit_vector)
        requires
            b == (v & 0x7F) as u8,
            v < 0x80,
    ;
    out.push(b);
    assert(out@ =~= uleb_bytes(x as nat));
    out
}

/// Decode a ULEB128 value, returning (value, bytes_consumed).
pub fn uleb_decode(data: &[u8]) -> (r: Result<(u64, usize), &'static str>)
    requires
        uleb_safe(data@),
    ensures
        r is Ok <==> uleb_complete(data@),
        r is Ok ==> r->Ok_0.0 as nat == uleb_value(data@) && r->Ok_0.1 == uleb_span(data@),
{
    assert(data@.subrange(0, data@.len() as int) =~= data@);
    let (v, pos, done) = read_uleb_at(data, 0);
    if done {
        Ok((v, pos))
    } else {
        Err("ULEB: incomplete byte sequence")
    }
}

/// ULEB128 round trip for 64-bit values: decoding the encoding of `x`
/// (followed by any bytes) gives back `x` and the encoding's length.
pub proof fn law_uleb_roundtrip(x: u64, rest: Seq<u8>)
    ensures
        uleb_safe(uleb_bytes(x as nat) + rest),
        uleb_complete(uleb_bytes(x as nat) + rest),
        uleb_value(uleb_bytes(x as nat) + rest) == x,
        uleb_span(uleb_bytes(x as nat) + rest) == uleb_bytes(x as nat).len(),
{
    lemma2_to64_rest();
    lemma_uleb_roundtrip(x as nat, rest);
    lemma_uleb_len(x as nat);
    lemma_small_mod(x as nat, pow2(64));
}


/// A left shift of a `u64` drops the bits pushed past bit 63.
pub proof fn lemma_u64_shl_wrap(x: u64, s: u64)
    requires
        s < 64,
    ensures
        (x << s) as nat == (x as nat * pow2(s as nat)) % pow2(64),
{
    lemma2_to64();
    lemma2_to64_rest();
    if s == 0 {
        assert(x << 0u64 == x) by (bit_vector);
        lemma_small_mod(x as nat, pow2(64));
    } else {
        let m: u64 = (64 - s) as u64;
        lemma_u64_pow2_no_overflow(m as nat);
        lemma_u64_shl_is_mul(1, m);
        let mask: u64 = ((1u64 << m) - 1) as u64;
        let b: u64 = x & mask;
        assert(x << s == b << s) by (bit_vector)
            requires
                b == x & mask,
                mask == ((1u64 << m) - 1) as u64,
                m == 64 - s,
                0 < s < 64,
        ;
        lemma_u64_low_bits_mask_is_mod(x, m as nat);
        assert(b as nat == x as nat % pow2(m as nat));
        lemma_pow2_adds(m as nat, s as nat);
        lemma_pow2_pos(m as nat);
        lemma_pow2_pos(s as nat);
        let a = x as nat / pow2(m as nat);
        lemma_fundamental_div_mod(x as int, pow2(m as nat) as int);
        let pm = pow2(m as nat);
        let ps = pow2(s as nat);
        assert(b * ps < pow2(64)) by (nonlinear_arith)
            requires
                b < pm,
                ps > 0,
                pm * ps == pow2(64),
        ;
        lemma_u64_shl_is_mul(b, s);
        assert(x as nat * ps == pow2(64) * a + b * ps) by (nonlinear_arith)
            requires
                x == pm * a + b,
                pm * ps == pow2(64),
        ;
        lemma_mod_multiples_vanish(a as int, (b * ps) as int, pow2(64) as int);
        lemma_small_mod((b * ps) as nat, pow2(64));
    }
}

/// Bits of byte `b` of a byte stream.
pub proof fn lemma_bytes_bits_byte(bs: Seq<u8>, b: int)
    requires
        0 <= b < bs.len(),
    ensures
        bytes_bits(bs).subrange(8 * b, 8 * b + 8) =~= bits_of(bs[b] as nat, 8),
        bits_value(bytes_bits(bs).subrange(8 * b, 8 * b + 8)) == bs[b],
{
    assert forall|i: int| 0 <= i < 8 implies #[trigger] bytes_bits(bs).subrange(8 * b, 8 * b + 8)[i]
        == bits_of(bs[b] as nat, 8)[i] by {
        assert((8 * b + i) / 8 == b);
        assert((8 * b + i) % 8 == i);
    }
    lemma2_to64();
    lemma_bits_of_small(bs[b] as nat, 8);
}

/// Number of consecutive one bits of `bits` starting at `p`.
pub open spec fn ones_run(bits: Seq<bool>, p: int) -> nat
    decreases bits.len() - p,
{
    if p < 0 || p >= bits.len() || !bits[p] {
        0
    } else {
        1 + ones_run(bits, p + 1)
    }
}

pub proof fn lemma_ones_run(bits: Seq<bool>, p: int, q: nat)
    requires
        0 <= p,
        p + q <= bits.len(),
        forall|j: int| p <= j < p + q ==> bits[j],
    ensures
        ones_run(bits, p) >= q,
        p + q < bits.len() && !bits[p + q] ==> ones_run(bits, p) == q,
        ones_run(bits, p) + p <= bits.len(),
        p + ones_run(bits, p) < bits.len() ==> !bits[p + ones_run(bits, p)],
    decreases q,
{
    if q > 0 {
        lemma_ones_run(bits, p + 1, (q - 1) as nat);
    } else {
        lemma_ones_run_end(bits, p);
    }
}

pub proof fn lemma_ones_run_end(bits: Seq<bool>, p: int)
    requires
        0 <= p <= bits.len(),
    ensures
        ones_run(bits, p) + p <= bits.len(),
        p + ones_run(bits, p) < bits.len() ==> !bits[p + ones_run(bits, p)],
        forall|j: int| p <= j < p + ones_run(bits, p) ==> bits[j],
    decreases bits.len() - p,
{
    if p < bits.len() && bits[p] {
        lemma_ones_run_end(bits, p + 1);
    }
}

// ───────────────────────────── BitWriter ─────────────────────────────

/// Packs bits into bytes, most significant bit first within each byte.
pub struct BitWriter {
    buf: Vec<u8>,
    byte: u8,
    bit_pos: u8,
}

impl BitWriter {
    /// The bits written so far (completed bytes, then the pending partial byte).
    pub closed spec fn bits(&self) -> Seq<bool> {
        bytes_bits(self.buf@) + bits_of(self.byte as nat, self.bit_pos as nat)
    }

    pub closed spec fn wf(&self) -> bool {
        &&& self.bit_pos < 8
        &&& (self.byte as nat) < pow2(self.bit_pos as nat)
    }

    pub fn new() -> (w: Self)
        ensures
            w.wf(),
            w.bits() == Seq::<bool>::empty(),
    {
        proof {
            lemma2_to64();
        }
        let w = BitWriter { buf: Vec::new(), byte: 0, bit_pos: 0 };
        assert(w.bits() =~= Seq::<bool>::empty());
        w
    }

    /// Write a single bit (the low bit of `b`).
    pub fn write_bit(&mut self, b: u8)
        requires
            old(self).wf(),
        ensures
            final(self).wf(),
            final(self).bits() == old(self).bits().push(b % 2 == 1),
    {
        proof {
            lemma2_to64();
            lemma_pow2_pos(self.bit_pos as nat);
            if self.bit_pos < 7 {
                lemma_pow2_strictly_increases(self.bit_pos as nat, 7);
            }
        }
        let c: u8 = b & 1;
        assert(c == b % 2) by (bit_vector)
            requires
                c == b & 1,
        ;
        let ghost old_byte = self.byte;
        let ghost old_pos = self.bit_pos;
        let ghost old_buf = self.buf@;
        self.byte = self.byte * 2 + c;
        self.bit_pos = self.bit_pos + 1;
        proof {
            lemma_bits_of_push(old_byte as nat, c as nat, old_pos as nat);
            lemma_pow2_step(self.bit_pos as nat);
        }
        if self.bit_pos == 8 {
            let byte = self.byte;
            self.buf.push(byte);
            self.byte = 0;
            self.bit_pos = 0;
            proof {
                lemma_bytes_bits_push(old_buf, byte);
                assert(bits_of(0, 0) =~= Seq::<bool>::empty());
            }
        }
        assert(self.bits() =~= old(self).bits().push(b % 2 == 1));
    }

    /// Write `count` bits from `value` (MSB-first).
    pub fn write_bits(&mut self, value: u64, count: usize)
        requires
            old(self).wf(),
            count <= 64,
        ensures
            final(self).wf(),
            final(self).bits() == old(self).bits() + bits_of(value as nat, count as nat),
    {
        let ghost target = bits_of(value as nat, count as nat);
        let mut remaining: usize = count;
        while remaining > 0
            invariant
                self.wf(),
                remaining <= count <= 64,
                self.bits() == old(self).bits() + target.subrange(0, (count - remaining) as int),
                target == bits_of(value as nat, count as nat),
            decreases remaining,
        {
            let k: u64 = (remaining - 1) as u64;
            let bit = ((value >> k) & 1) as u8;
            proof {
                lemma_u64_bit(value, k);
            }
            self.write_bit(bit);
            proof {
                let i = (count - remaining) as int;
                assert(target[i] == bit_of(value as nat, k as nat));
                assert(target.subrange(0, i + 1) =~= target.subrange(0, i).push(target[i]));
            }
            remaining = remaining - 1;
        }
        assert(target.subrange(0, count as int) =~= target);
    }

    /// Pad with zero bits up to the next byte boundary.
    fn align(&mut self)
        requires
            old(self).wf(),
        ensures
            final(self).wf(),
            final(self).bits() == pad_bits(old(self).bits()),
            final(self).bit_pos == 0,
    {
        let ghost start = self.bits();
        let ghost p = self.bit_pos;
        let mut added: u8 = 0;
        while self.bit_pos != 0
            invariant
                self.wf(),
                p == 0 ==> added == 0,
                p + added <= 8,
                self.bits() == start + zero_bits(added as nat),
                self.bits().len() == self.buf@.len() * 8 + self.bit_pos,
                start == old(self).bits(),
                p == old(self).bit_pos,
                start.len() == old(self).buf@.len() * 8 + p,
                p < 8,
            decreases 8 - added,
        {
            assert((p + added) % 8 != 0);
            self.write_bit(0);
            assert(zero_bits(added as nat + 1) =~= zero_bits(added as nat).push(false));
            added = added + 1;
        }
        proof {
            assert(start.len() % 8 == p as int);
            if p == 0 {
                assert(zero_bits(0) =~= Seq::<bool>::empty());
            } else {
                assert((p + added) % 8 == 0);
            }
            assert(self.bits() =~= pad_bits(start));
        }
    }

    /// Write a ULEB128-encoded integer, first padding to a byte boundary.
    pub fn write_uleb(&mut self, x: u64)
        requires
            old(self).wf(),
        ensures
            final(self).wf(),
            final(self).bits() == pad_bits(old(self).bits()) + bytes_bits(uleb_bytes(x as nat)),
    {
        self.align();
        let enc = uleb_encode(x);
        let ghost mid = self.bits();
        let ghost mid_buf = self.buf@;
        self.buf.extend_from_slice(enc.as_slice());
        proof {
            assert(self.buf@ =~= mid_buf + enc@);
            lemma_bytes_bits_add(mid_buf, enc@);
            assert(bits_of(0, 0) =~= Seq::<bool>::empty());
            assert(self.bits() =~= mid + bytes_bits(enc@));
        }
    }

    /// Write a Rice-coded value with parameter k: the quotient `value >> k`
    /// in unary (ones, then a zero), then the `k` low bits.
    pub fn write_rice(&mut self, value: u64, k: usize)
        requires
            old(self).wf(),
            k < 64,
        ensures
            final(self).wf(),
            final(self).bits() == old(self).bits() + rice_bits(value as nat, k as nat),
    {
        proof {
            lemma_u64_shr_is_div(value, k as u64);
            lemma_pow2_pos(k as nat);
        }
        let mut q: u64 = value >> k;
        let ghost q0 = q;
        let ghost start = self.bits();
        while q > 0
            invariant
                self.wf(),
                q <= q0,
                q0 == value as nat / pow2(k as nat),
                self.bits() == start + Seq::new((q0 - q) as nat, |i: int| true),
                start == old(self).bits(),
            decreases q,
        {
            self.write_bit(1);
            assert(Seq::new((q0 - q + 1) as nat, |i: int| true) =~= Seq::new(
                (q0 - q) as nat,
                |i: int| true,
            ).push(true));
            q = q - 1;
        }
        self.write_bit(0);
        if k > 0 {
            let kk = k as u64;
            proof {
                lemma_u64_pow2_no_overflow(k as nat);
                lemma_u64_shl_is_mul(1, kk);
            }
            let mask: u64 = (1u64 << kk) - 1;
            let r = value & mask;
            proof {
                lemma_u64_low_bits_mask_is_mod(value, k as nat);
            }
            self.write_bits(r, k);
        } else {
            proof {
                lemma2_to64();
                assert(bits_of((value as nat % pow2(0)) as nat, 0) =~= Seq::<bool>::empty());
            }
        }
        assert(self.bits() =~= old(self).bits() + rice_bits(value as nat, k as nat));
    }

    /// Flush the partial byte (zero-padded) and return the bytes.
    pub fn flush(self) -> (out: Vec<u8>)
        requires
            self.wf(),
        ensures
            bytes_bits(out@) == pad_bits(self.bits()),
    {
        let mut w = self;
        w.align();
        proof {
            assert(bits_of(0, 0) =~= Seq::<bool>::empty());
            assert(w.bits() =~= bytes_bits(w.buf@));
        }
        w.buf
    }

    /// Flush any pending partial byte (byte-aligned encoding between blocks).
    pub fn flush_partial(&mut self)
        requires
            old(self).wf(),
        ensures
            final(self).wf(),
            final(self).bits() == pad_bits(old(self).bits()),
    {
        self.align();
    }
}

/// Whether a ULEB128 reader starting at byte `start` of `data` stays within
/// ten bytes.
pub fn uleb_fits_at(data: &[u8], start: usize) -> (b: bool)
    requires
        start <= data@.len(),
    ensures
        b == uleb_safe(data@.subrange(start as int, data@.len() as int)),
{
    let mut i: usize = start;
    let ghost s = data@.subrange(start as int, data@.len() as int);
    while i < data.len() && i - start < 10
        invariant
            start <= i <= data@.len(),
            s == data@.subrange(start as int, data@.len() as int),
            forall|t: int| start <= t < i ==> data@[t] >= 128,
            uleb_span(s) == (i - start) + uleb_span(data@.subrange(i as int, data@.len() as int)),
        decreases data@.len() - i,
    {
        if data[i] < 128 {
            proof {
                let r = data@.subrange(i as int, data@.len() as int);
                assert(r[0] == data@[i as int]);
            }
            return i - start + 1 <= 10;
        }
        proof {
            let r = data@.subrange(i as int, data@.len() as int);
            assert(r.drop_first() =~= data@.subrange(i + 1, data@.len() as int));
        }
        i = i + 1;
    }
    proof {
        let r = data@.subrange(i as int, data@.len() as int);
        if i == data@.len() {
            assert(r.len() == 0);
        }
    }
    i - start < 10 || (i - start == 10 && i == data.len())
}

// ───────────────────────────── BitReader ─────────────────────────────

/// Reads bits from bytes, most significant bit first within each byte.
pub struct BitReader<'a> {
    data: &'a [u8],
    byte_pos: usize,
    bit_pos: u8,
}

/// Inputs a reader accepts: bit positions must fit a 64-bit counter.
pub open spec fn reader_len_ok(len: nat) -> bool {
    len < 0x1000_0000_0000_0000
}

impl<'a> BitReader<'a> {
    /// All bits of the underlying data.
    pub closed spec fn all_bits(&self) -> Seq<bool> {
        bytes_bits(self.data@)
    }

    pub closed spec fn data(&self) -> Seq<u8> {
        self.data@
    }

    /// Index of the next bit to read.
    pub closed spec fn pos(&self) -> nat {
        (self.byte_pos * 8 + self.bit_pos) as nat
    }

    pub closed spec fn wf(&self) -> bool {
        &&& self.bit_pos < 8
        &&& self.byte_pos <= self.data@.len()
        &&& self.byte_pos == self.data@.len() ==> self.bit_pos == 0
        &&& reader_len_ok(self.data@.len())
    }

    pub proof fn lemma_wf(&self)
        requires
            self.wf(),
        ensures
            self.all_bits() == bytes_bits(self.data()),
            self.pos() <= self.all_bits().len(),
            self.all_bits().len() == self.data().len() * 8,
            reader_len_ok(self.data().len()),
    {
    }

    pub fn new(data: &'a [u8]) -> (r: Self)
        requires
            reader_len_ok(data@.len()),
        ensures
            r.wf(),
            r.data() == data@,
            r.pos() == 0,
    {
        BitReader { data, byte_pos: 0, bit_pos: 0 }
    }

    /// Read one bit.
    pub fn read_bit(&mut self) -> (r: Result<u8, &'static str>)
        requires
            old(self).wf(),
        ensures
            final(self).wf(),
            final(self).data() == old(self).data(),
            old(self).pos() < old(self).all_bits().len() ==> r == Ok::<u8, &'static str>(
                (if old(self).all_bits()[old(self).pos() as int] { 1u8 } else { 0u8 }),
            ) && final(self).pos() == old(self).pos() + 1,
            old(self).pos() >= old(self).all_bits().len() ==> r is Err && final(self).pos()
                == old(self).pos(),
    {
        if self.byte_pos >= self.data.len() {
            return Err("BitReader: unexpected end of data");
        }
        let byte = self.data[self.byte_pos];
        let sh: u8 = 7 - self.bit_pos;
        let b = (byte >> sh) & 1;
        proof {
            lemma_u8_bit(byte, sh);
            lemma_bytes_bits_index(self.data@, self.pos() as int);
            assert(self.pos() as int / 8 == self.byte_pos);
            assert(self.pos() as int % 8 == self.bit_pos);
        }
        if self.bit_pos == 7 {
            self.bit_pos = 0;
            self.byte_pos = self.byte_pos + 1;
        } else {
            self.bit_pos = self.bit_pos + 1;
        }
        Ok(b)
    }

    /// Read one full byte, advancing past it.
    pub fn read_byte(&mut self) -> (r: Result<u8, &'static str>)
        requires
            old(self).wf(),
        ensures
            final(self).wf(),
            final(self).data() == old(self).data(),
            old(self).pos() + 8 <= old(self).all_bits().len() ==> r == Ok::<u8, &'static str>(
                bits_value(old(self).all_bits().subrange(old(self).pos() as int, (old(self).pos() + 8) as int))
                    as u8,
            ) && final(self).pos() == old(self).pos() + 8,
            old(self).pos() + 8 > old(self).all_bits().len() ==> r is Err && final(self).pos()
                == old(self).all_bits().len(),
    {
        let ghost start = self.pos();
        let ghost bits = self.all_bits();
        if self.byte_pos >= self.data.len() {
            return Err("BitReader: unexpected end of data");
        }
        if self.bit_pos == 0 {
            let b = self.data[self.byte_pos];
            proof {
                lemma_bytes_bits_byte(self.data@, self.byte_pos as int);
            }
            self.byte_pos = self.byte_pos + 1;
            return Ok(b);
        }
        let mut value: u64 = 0;
        let mut n: u8 = 0;
        proof {
            lemma2_to64();
            assert(bits.subrange(start as int, start as int) =~= Seq::<bool>::empty());
        }
        while n < 8
            invariant
                self.wf(),
                self.data() == old(self).data(),
                bits == self.all_bits(),
                start == old(self).pos(),
                n <= 8,
                self.pos() == start + n,
                value as nat == bits_value(bits.subrange(start as int, (start + n) as int)),
                value < pow2(n as nat),
            decreases 8 - n,
        {
            let ghost p = self.pos();
            let b = match self.read_bit() {
                Ok(x) => x,
                Err(e) => {
                    return Err(e);
                },
            };
            proof {
                assert(bits.subrange(start as int, (start + n + 1) as int) =~= bits.subrange(
                    start as int,
                    start + n,
                ).push(bits[p as int]));
                lemma_bits_value_push(bits.subrange(start as int, (start + n) as int), bits[p as int]);
                lemma_pow2_step((n + 1) as nat);
                lemma2_to64();
                if n < 7 {
                    lemma_pow2_strictly_increases(n as nat, 7);
                }
            }
            value = value * 2 + b as u64;
            n = n + 1;
        }
        Ok(value as u8)
    }

    /// Read `count` bits and return them as an integer (MSB-first).  Stops early
    /// at the end of the data.
    pub fn read_bits(&mut self, count: usize) -> (r: Result<u64, &'static str>)
        requires
            old(self).wf(),
            count <= 64,
        ensures
            final(self).wf(),
            final(self).data() == old(self).data(),
            ({
                let n = if old(self).pos() + count <= old(self).all_bits().len() {
                    count as nat
                } else {
                    (old(self).all_bits().len() - old(self).pos()) as nat
                };
                &&& final(self).pos() == old(self).pos() + n
                &&& r == Ok::<u64, &'static str>(
                    bits_value(old(self).all_bits().subrange(old(self).pos() as int, (old(self).pos() + n) as int))
                        as u64,
                )
            }),
    {
        let ghost start = self.pos();
        let ghost bits = self.all_bits();
        let mut value: u64 = 0;
        let mut read: usize = 0;
        proof {
            lemma2_to64();
            lemma2_to64_rest();
            assert(bits.subrange(start as int, start as int) =~= Seq::<bool>::empty());
        }
        while read < count && self.byte_pos < self.data.len()
            invariant
                self.wf(),
                self.data() == old(self).data(),
                bits == self.all_bits(),
                start == old(self).pos(),
                read <= count <= 64,
                self.pos() == start + read,
                value as nat == bits_value(bits.subrange(start as int, (start + read) as int)),
                value < pow2(read as nat),
            decreases count - read,
        {
            let ghost p = self.pos();
            let b = self.read_bit();
            let bit = match b {
                Ok(x) => x,
                Err(_) => 0,
            };
            proof {
                assert(bits.subrange(start as int, (start + read + 1) as int) =~= bits.subrange(
                    start as int,
                    start + read,
                ).push(bits[p as int]));
                lemma_bits_value_push(bits.subrange(start as int, (start + read) as int), bits[p as int]);
                lemma_pow2_step((read + 1) as nat);
                lemma2_to64_rest();
                if read < 63 {
                    lemma_pow2_strictly_increases(read as nat, 63);
                }
            }
            value = value * 2 + bit as u64;
            read = read + 1;
        }
        Ok(value)
    }

    /// Skip to the next byte boundary (nothing happens at the end of the data).
    pub fn skip_to_byte_boundary(&mut self)
        requires
            old(self).wf(),
        ensures
            final(self).wf(),
            final(self).data() == old(self).data(),
            final(self).pos() == (if old(self).pos() % 8 == 0 { old(self).pos() } else {
                (old(self).pos() / 8 + 1) * 8
            }),
    {
        if self.bit_pos != 0 && self.byte_pos < self.data.len() {
            self.byte_pos = self.byte_pos + 1;
            self.bit_pos = 0;
        }
    }

    /// Read a ULEB128-encoded integer (7 bits per byte, MSB = continuation),
    /// after skipping to the next byte boundary.
    pub fn read_uleb(&mut self) -> (r: Result<u64, &'static str>)
        requires
            old(self).wf(),
            uleb_safe(
                old(self).data().subrange(
                    (if old(self).pos() % 8 == 0 { old(self).pos() / 8 } else { old(self).pos() / 8
                        + 1 }) as int,
                    old(self).data().len() as int,
                ),
            ),
        ensures
            final(self).wf(),
            final(self).data() == old(self).data(),
            ({
                let b = if old(self).pos() % 8 == 0 { old(self).pos() / 8 } else { old(self).pos()
                    / 8 + 1 };
                let s = old(self).data().subrange(b as int, old(self).data().len() as int);
                &&& final(self).pos() == (b + uleb_span(s)) * 8
                &&& (r is Ok <==> uleb_complete(s))
                &&& r is Ok ==> r->Ok_0 as nat == uleb_value(s)
            }),
    {
        self.skip_to_byte_boundary();
        let (v, pos, done) = read_uleb_at(self.data, self.byte_pos);
        proof {
            lemma_uleb_span_bound(self.data@.subrange(self.byte_pos as int, self.data@.len() as int));
        }
        self.byte_pos = pos;
        self.bit_pos = 0;
        if done {
            Ok(v)
        } else {
            Err("ULEB read past end of data")
        }
    }

    /// Read a Rice-coded value with parameter k: count ones up to a zero,
    /// then read `k` bits (fewer at the end of the data).
    pub fn read_rice(&mut self, k: usize) -> (r: Result<u64, &'static str>)
        requires
            old(self).wf(),
            k < 64,
        ensures
            final(self).wf(),
            final(self).data() == old(self).data(),
            ({
                let bits = old(self).all_bits();
                let p = old(self).pos();
                let q = ones_run(bits, p as int);
                let p2 = p + q + 1;
                let n = if p2 + k <= bits.len() { k as nat } else { (bits.len() - p2) as nat };
                if p + q >= bits.len() {
                    r is Err && final(self).pos() == bits.len()
                } else {
                    &&& final(self).pos() == p2 + n
                    &&& r == Ok::<u64, &'static str>(
                        ((q * pow2(k as nat)) % pow2(64) + bits_value(bits.subrange(p2 as int, (p2 + n) as int)))
                            as u64,
                    )
                }
            }),
    {
        let ghost start = self.pos();
        let ghost bits = self.all_bits();
        proof {
            lemma_ones_run_end(bits, start as int);
        }
        let mut q: u64 = 0;
        loop
            invariant_except_break
                self.pos() == start + q,
            invariant
                self.wf(),
                self.data() == old(self).data(),
                bits == self.all_bits(),
                start == old(self).pos(),
                forall|j: int| start <= j < start + q ==> bits[j],
                reader_len_ok(self.data().len()),
            ensures
                self.wf(),
                self.data() == old(self).data(),
                start + q < bits.len(),
                !bits[start + q],
                self.pos() == start + q + 1,
                forall|j: int| start <= j < start + q ==> bits[j],
            decreases bits.len() - self.pos(),
        {
            let ghost p = self.pos();
            match self.read_bit() {
                Ok(x) => {
                    if x == 1 {
                        q = q + 1;
                    } else {
                        break ;
                    }
                },
                Err(e) => {
                    proof {
                        lemma_ones_run(bits, start as int, q as nat);
                    }
                    return Err(e);
                },
            }
        }
        proof {
            lemma_ones_run(bits, start as int, q as nat);
        }
        let ghost p2 = self.pos();
        let r = if k > 0 {
            match self.read_bits(k) {
                Ok(x) => x,
                Err(e) => 0,
            }
        } else {
            proof {
                assert(bits.subrange(p2 as int, p2 as int) =~= Seq::<bool>::empty());
            }
            0
        };
        let ghost n = (self.pos() - p2) as nat;
        proof {
            lemma_bits_value_bound(bits.subrange(p2 as int, (p2 + n) as int));
            lemma_pow2_pos(k as nat);
            if n < k {
                lemma_pow2_strictly_increases(n, k as nat);
            }
            lemma_u64_shl_wrap(q, k as u64);
            lemma_u64_pow2_no_overflow(k as nat);
            lemma_u64_shl_is_mul(1, k as u64);
        }
        let kk = k as u64;
        let shifted = q << kk;
        assert((q << kk) | r == (q << kk) + r) by (bit_vector)
            requires
                r < (1u64 << kk),
                kk < 64,
        ;
        Ok(shifted | r)
    }

    /// Returns true if all data has been consumed.
    pub fn is_exhausted(&self) -> (b: bool)
        requires
            self.wf(),
        ensures
            b == (self.pos() >= self.all_bits().len()),
    {
        self.byte_pos >= self.data.len()
    }

    /// Whether a ULEB128 read from here stays within ten bytes.
    pub fn uleb_ahead_ok(&self) -> (b: bool)
        requires
            self.wf(),
        ensures
            b == uleb_safe(
                self.data().subrange(
                    (if self.pos() % 8 == 0 { self.pos() / 8 } else { self.pos() / 8 + 1 }) as int,
                    self.data().len() as int,
                ),
            ),
    {
        let n = self.data.len();
        let start = if self.bit_pos == 0 {
            self.byte_pos
        } else {
            assert(self.byte_pos < n);
            self.byte_pos + 1
        };
        uleb_fits_at(self.data, start)
    }

    /// Index of the next bit to read.
    pub fn position(&self) -> (p: u64)
        requires
            self.wf(),
        ensures
            p == self.pos(),
    {
        self.byte_pos as u64 * 8 + self.bit_pos as u64
    }
}

} // verus!
