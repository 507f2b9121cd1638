//! Bit-level range coder (binary arithmetic coding with 32-bit precision and
//! pending-bit carry handling), and adaptive byte coders built on it.
use crate::bit_io::{bytes_bits, pad_bits, lemma_bytes_bits_index, lemma_u8_bit, read_uleb_at, uleb_bytes, uleb_complete, uleb_encode, uleb_safe, uleb_span, uleb_value, BitWriter};
use crate::le::{le32_at, le32_bytes, push_u32_le, read_u32_le};
use crate::mtf::slice_range;
use vstd::arithmetic::div_mod::{lemma_div_is_ordered, lemma_div_plus_one, lemma_fundamental_div_mod};
use vstd::arithmetic::mul::{lemma_mul_inequality, lemma_mul_is_distributive_add};
use vstd::arithmetic::power2::{lemma2_to64, lemma_pow2_strictly_increases, pow2};
use vstd::prelude::*;

verus! {

/// Half of the 32-bit code space.
pub const HALF: u64 = 0x8000_0000;

/// A quarter of the code space.
pub const QUARTER: u64 = 0x4000_0000;

/// Three quarters of the code space.
pub const THREE_QUARTERS: u64 = 0xC000_0000;

/// The largest 32-bit code.
pub const TOP: u64 = 0xFFFF_FFFF;

/// Largest model total the coder accepts: a normalized range always exceeds it,
/// so every symbol with a nonzero frequency keeps a nonempty interval.
pub const MAX_TOTAL: u64 = 0x4000_0000;

/// Largest count of pending bits kept by the encoder's contracts.
pub const MAX_PENDING: u64 = 0x1_0000_0000_0000;

// ───────────────────────────── interval model ─────────────────────────────

/// The interval `[lo, hi]` narrowed to the sub-range `[cum, cum + freq)` of `total`.
pub open spec fn narrow(lo: int, hi: int, cum: int, freq: int, total: int) -> (int, int) {
    let r = hi - lo + 1;
    (lo + r * cum / total, lo + r * (cum + freq) / total - 1)
}

/// A normalized interval: it straddles the midpoint and is wider than a quarter.
pub open spec fn normalized(lo: int, hi: int) -> bool {
    &&& 0 <= lo < HALF <= hi <= TOP
    &&& !(lo >= QUARTER && hi < THREE_QUARTERS)
}

/// Output `b` followed by `pending` opposite bits.
pub open spec fn emit(bits: Seq<u8>, b: u8, pending: nat) -> Seq<u8> {
    bits.push(b) + Seq::new(pending, |i: int| (1 - b) as u8)
}

/// Encoder renormalization: shift out settled bits, defer straddling ones.
pub open spec fn enc_norm(lo: int, hi: int, pend: nat, bits: Seq<u8>) -> (int, int, nat, Seq<u8>)
    decreases 0x1_0000_0000 - (hi - lo),
    when 0 <= lo <= hi < 0x1_0000_0000
{
    if hi < HALF {
        enc_norm(2 * lo, 2 * hi + 1, 0, emit(bits, 0, pend))
    } else if lo >= HALF {
        enc_norm(2 * (lo - HALF), 2 * (hi - HALF) + 1, 0, emit(bits, 1, pend))
    } else if lo >= QUARTER && hi < THREE_QUARTERS {
        enc_norm(2 * (lo - QUARTER), 2 * (hi - QUARTER) + 1, pend + 1, bits)
    } else {
        (lo, hi, pend, bits)
    }
}

/// Encoder state `(lo, hi, pending, bits)` after coding `[cum, cum + freq)` of `total`.
pub open spec fn enc_step(s: (int, int, nat, Seq<u8>), cum: int, freq: int, total: int) -> (
    int,
    int,
    nat,
    Seq<u8>,
) {
    let (l, h) = narrow(s.0, s.1, cum, freq, total);
    enc_norm(l, h, s.2, s.3)
}

/// The encoder's initial state.
pub open spec fn enc_initial() -> (int, int, nat, Seq<u8>) {
    (0, TOP as int, 0, Seq::empty())
}

/// The final bits: one more pending bit, then the bit that selects the last
/// interval's quarter.
pub open spec fn enc_final_bits(s: (int, int, nat, Seq<u8>)) -> Seq<u8> {
    emit(s.3, if s.0 < QUARTER { 0 } else { 1 }, s.2 + 1)
}

/// Bits (each 0 or 1) as booleans.
pub open spec fn as_bools(bits: Seq<u8>) -> Seq<bool> {
    Seq::new(bits.len(), |i: int| bits[i] == 1)
}

/// Bytes produced by flushing an encoder in state `s`.
pub open spec fn enc_flush_bytes(s: (int, int, nat, Seq<u8>)) -> Seq<bool> {
    pad_bits(as_bools(enc_final_bits(s)))
}

/// Narrowing a normalized interval by a nonempty share of a total no larger
/// than `MAX_TOTAL` leaves a nonempty interval inside it.
proof fn lemma_narrow(lo: int, hi: int, cum: int, freq: int, total: int)
    requires
        normalized(lo, hi),
        freq >= 1,
        cum >= 0,
        cum + freq <= total,
        total <= MAX_TOTAL,
    ensures
        lo <= narrow(lo, hi, cum, freq, total).0 <= narrow(lo, hi, cum, freq, total).1 <= hi,
{
    let r = hi - lo + 1;
    assert(r > QUARTER);
    assert(r * cum + r <= r * (cum + freq)) by (nonlinear_arith)
        requires
            freq >= 1,
            r >= 0,
    ;
    assert(r * cum + total <= r * (cum + freq)) by (nonlinear_arith)
        requires
            r * cum + r <= r * (cum + freq),
            r > total,
    ;
    assert(r * cum >= 0) by (nonlinear_arith)
        requires
            r >= 0,
            cum >= 0,
    ;
    lemma_div_is_ordered(r * cum + total, r * (cum + freq), total);
    lemma_div_plus_one(r * cum, total);
    assert(r * (cum + freq) <= r * total) by (nonlinear_arith)
        requires
            cum + freq <= total,
            r >= 0,
    ;
    lemma_div_is_ordered(r * (cum + freq), r * total, total);
    assert(r * total / total == r) by (nonlinear_arith)
        requires
            total > 0,
    ;
    assert(r * cum / total >= 0) by (nonlinear_arith)
        requires
            r * cum >= 0,
            total > 0,
    ;
}

// ───────────────────────────── encoder ─────────────────────────────

/// Bit-level range encoder.
pub struct RangeEncoder {
    lo: u64,
    hi: u64,
    pending: u64,
    bits: Vec<u8>,
}

impl RangeEncoder {
    /// State `(lo, hi, pending, bits)`.
    pub closed spec fn state(&self) -> (int, int, nat, Seq<u8>) {
        (self.lo as int, self.hi as int, self.pending as nat, self.bits@)
    }

    pub closed spec fn wf(&self) -> bool {
        &&& normalized(self.lo as int, self.hi as int)
        &&& self.pending <= MAX_PENDING
        &&& forall|i: int| 0 <= i < self.bits@.len() ==> #[trigger] self.bits@[i] <= 1
    }

    pub fn new() -> (e: Self)
        ensures
            e.wf(),
            e.state() == enc_initial(),
    {
        RangeEncoder { lo: 0, hi: TOP, pending: 0, bits: Vec::new() }
    }

    fn output_bit(&mut self, bit: u8)
        requires
            bit <= 1,
        ensures
            final(self).bits@ == emit(old(self).bits@, bit, old(self).pending as nat),
            (forall|i: int| 0 <= i < old(self).bits@.len() ==> #[trigger] old(self).bits@[i] <= 1)
                ==> (forall|i: int| 0 <= i < final(self).bits@.len() ==> #[trigger] final(self).bits@[i] <= 1),
            final(self).pending == 0,
            final(self).lo == old(self).lo,
            final(self).hi == old(self).hi,
    {
        self.bits.push(bit);
        let mut i: u64 = 0;
        while i < self.pending
            invariant
                bit <= 1,
                i <= self.pending,
                self.pending == old(self).pending,
                self.lo == old(self).lo,
                self.hi == old(self).hi,
                self.bits@ == old(self).bits@.push(bit) + Seq::new(i as nat, |t: int| (1 - bit) as u8),
            decreases self.pending - i,
        {
            self.bits.push(1 - bit);
            i = i + 1;
            assert(self.bits@ =~= old(self).bits@.push(bit) + Seq::new(i as nat, |t: int| (1 - bit) as u8));
        }
        self.pending = 0;
    }

    /// Encode the symbol occupying `[cum_freq, cum_freq + freq)` of `total`.
    pub fn encode(&mut self, cum_freq: u64, freq: u64, total: u64)
        requires
            old(self).wf(),
            old(self).state().2 + 32 <= MAX_PENDING,
            freq >= 1,
            cum_freq + freq <= total,
            total <= MAX_TOTAL,
        ensures
            final(self).wf(),
            final(self).state() == enc_step(old(self).state(), cum_freq as int, freq as int, total as int),
            final(self).state().2 <= old(self).state().2 + 32,
    {
        proof {
            lemma_narrow(self.lo as int, self.hi as int, cum_freq as int, freq as int, total as int);
            lemma2_to64();
        }
        let rng = self.hi - self.lo + 1;
        assert(rng * (cum_freq + freq) <= 0x1_0000_0000 * 0x4000_0000) by (nonlinear_arith)
            requires
                rng <= 0x1_0000_0000,
                cum_freq + freq <= 0x4000_0000,
        ;
        assert(rng * cum_freq <= rng * (cum_freq + freq)) by (nonlinear_arith);
        let new_hi = self.lo + (rng * (cum_freq + freq)) / total - 1;
        let new_lo = self.lo + (rng * cum_freq) / total;
        self.hi = new_hi;
        self.lo = new_lo;
        let ghost start = (new_lo as int, new_hi as int, self.pending as nat, self.bits@);
        let ghost mut t: nat = 0;
        loop
            invariant
                0 <= self.lo <= self.hi <= TOP,
                enc_norm(self.lo as int, self.hi as int, self.pending as nat, self.bits@) == enc_norm(
                    start.0,
                    start.1,
                    start.2,
                    start.3,
                ),
                self.hi - self.lo + 1 >= pow2(t),
                self.pending <= old(self).pending + t,
                forall|i: int| 0 <= i < self.bits@.len() ==> #[trigger] self.bits@[i] <= 1,
                old(self).pending + 32 <= MAX_PENDING,
            ensures
                normalized(self.lo as int, self.hi as int),
                self.state() == enc_norm(start.0, start.1, start.2, start.3),
                forall|i: int| 0 <= i < self.bits@.len() ==> #[trigger] self.bits@[i] <= 1,
                self.pending <= old(self).pending + 32,
            decreases 0x1_0000_0000 - (self.hi - self.lo),
        {
            proof {
                lemma2_to64();
                if t > 32 {
                    lemma_pow2_strictly_increases(32, t);
                }
                if t == 32 {
                    assert(self.hi - self.lo + 1 >= 0x1_0000_0000);
                }
            }
            if self.hi < HALF {
                self.output_bit(0);
            } else if self.lo >= HALF {
                self.output_bit(1);
                self.lo = self.lo - HALF;
                self.hi = self.hi - HALF;
            } else if self.lo >= QUARTER && self.hi < THREE_QUARTERS {
                self.pending = self.pending + 1;
                self.lo = self.lo - QUARTER;
                self.hi = self.hi - QUARTER;
            } else {
                break ;
            }
            self.lo = self.lo * 2;
            self.hi = self.hi * 2 + 1;
            proof {
                vstd::arithmetic::power2::lemma_pow2_unfold(t + 1);
                t = t + 1;
            }
        }
    }

    /// Finish encoding and return the bits packed into bytes (MSB first,
    /// zero-padded).
    pub fn flush(&mut self) -> (out: Vec<u8>)
        requires
            old(self).wf(),
            old(self).state().2 < MAX_PENDING,
        ensures
            bytes_bits(out@) == enc_flush_bytes(old(self).state()),
            final(self).state().3 == enc_final_bits(old(self).state()),
    {
        self.pending = self.pending + 1;
        if self.lo < QUARTER {
            self.output_bit(0);
        } else {
            self.output_bit(1);
        }
        let ghost bits = self.bits@;
        assert(bits == enc_final_bits(old(self).state())) by {
            assert(bits =~= enc_final_bits(old(self).state()));
        }
        let mut w = BitWriter::new();
        let mut i: usize = 0;
        while i < self.bits.len()
            invariant
                w.wf(),
                i <= bits.len(),
                self.bits@ == bits,
                forall|t: int| 0 <= t < bits.len() ==> #[trigger] bits[t] <= 1,
                w.bits() == as_bools(bits).subrange(0, i as int),
            decreases bits.len() - i,
        {
            w.write_bit(self.bits[i]);
            i = i + 1;
            assert(w.bits() =~= as_bools(bits).subrange(0, i as int));
        }
        assert(as_bools(bits).subrange(0, i as int) =~= as_bools(bits));
        w.flush()
    }
}

impl Default for RangeEncoder {
    fn default() -> (e: Self)
        ensures
            e.wf(),
            e.state() == enc_initial(),
    {
        RangeEncoder::new()
    }
}

// ───────────────────────────── decoder ─────────────────────────────

/// Largest bit position the decoder's contracts track.
pub const MAX_POS: u64 = 0x1000_0000_0000_0000;

/// Bit `p` of `data` (most significant bit of each byte first), 0 past the end.
pub open spec fn dbit(data: Seq<u8>, p: int) -> int {
    if 0 <= p < data.len() * 8 {
        if bytes_bits(data)[p] {
            1
        } else {
            0
        }
    } else {
        0
    }
}

/// The first `k` bits of `data` as a number.
pub open spec fn code_bits(data: Seq<u8>, k: nat) -> int
    decreases k,
{
    if k == 0 {
        0
    } else {
        2 * code_bits(data, (k - 1) as nat) + dbit(data, k - 1)
    }
}

/// Decoder renormalization, shifting the next input bit into `code`.
pub open spec fn dec_norm(lo: int, hi: int, code: int, pos: int, data: Seq<u8>) -> (int, int, int, int)
    decreases 0x1_0000_0000 - (hi - lo),
    when 0 <= lo <= hi < 0x1_0000_0000
{
    if hi < HALF {
        dec_norm(2 * lo, 2 * hi + 1, 2 * code + dbit(data, pos), pos + 1, data)
    } else if lo >= HALF {
        dec_norm(2 * (lo - HALF), 2 * (hi - HALF) + 1, 2 * (code - HALF) + dbit(data, pos), pos + 1, data)
    } else if lo >= QUARTER && hi < THREE_QUARTERS {
        dec_norm(
            2 * (lo - QUARTER),
            2 * (hi - QUARTER) + 1,
            2 * (code - QUARTER) + dbit(data, pos),
            pos + 1,
            data,
        )
    } else {
        (lo, hi, code, pos)
    }
}

/// Decoder state `(lo, hi, code, pos)` after consuming `[cum, cum + freq)` of `total`.
pub open spec fn dec_step(s: (int, int, int, int), data: Seq<u8>, cum: int, freq: int, total: int) -> (
    int,
    int,
    int,
    int,
) {
    let (l, h) = narrow(s.0, s.1, cum, freq, total);
    dec_norm(l, h, s.2, s.3, data)
}

/// The decoder's initial state over `data`.
pub open spec fn dec_initial(data: Seq<u8>) -> (int, int, int, int) {
    (0, TOP as int, code_bits(data, 32), 32)
}

/// The share of `total` that the code points at in state `s`.
pub open spec fn freq_of(s: (int, int, int, int), total: int) -> int {
    let r = s.1 - s.0 + 1;
    let c = ((s.2 - s.0 + 1) * total - 1) / r;
    if c < total - 1 {
        c
    } else {
        total - 1
    }
}

proof fn lemma_code_bits_bound(data: Seq<u8>, k: nat)
    ensures
        0 <= code_bits(data, k) < pow2(k),
    decreases k,
{
    if k > 0 {
        lemma_code_bits_bound(data, (k - 1) as nat);
        vstd::arithmetic::power2::lemma_pow2_unfold(k);
    } else {
        lemma2_to64();
    }
}

/// The share the code points at lies in `[0, total)`.
proof fn lemma_freq_of_range(s: (int, int, int, int), total: int)
    requires
        0 <= s.0 <= s.2 <= s.1,
        total >= 1,
    ensures
        0 <= freq_of(s, total) < total,
{
    let r = s.1 - s.0 + 1;
    let a = (s.2 - s.0 + 1) * total - 1;
    assert(a >= 0) by (nonlinear_arith)
        requires
            s.2 - s.0 + 1 >= 1,
            total >= 1,
            a == (s.2 - s.0 + 1) * total - 1,
    ;
    assert(a / r >= 0) by (nonlinear_arith)
        requires
            a >= 0,
            r >= 1,
    ;
}

/// When the decoded share lies in `[cum, cum + freq)`, the code stays inside
/// the narrowed interval.
proof fn lemma_code_in_narrow(lo: int, hi: int, code: int, cum: int, freq: int, total: int)
    requires
        lo <= code <= hi,
        freq >= 1,
        cum >= 0,
        cum + freq <= total,
        cum <= freq_of((lo, hi, code, 0), total) < cum + freq,
    ensures
        narrow(lo, hi, cum, freq, total).0 <= code <= narrow(lo, hi, cum, freq, total).1,
{
    let r = hi - lo + 1;
    let x = code - lo;
    let t = total;
    let a = (x + 1) * t - 1;
    let f0 = a / r;
    lemma_fundamental_div_mod(a, r);
    assert(a >= 0) by (nonlinear_arith)
        requires
            x >= 0,
            t >= 1,
            a == (x + 1) * t - 1,
    ;
    assert(0 <= a % r < r) by (nonlinear_arith)
        requires
            r >= 1,
    ;
    // lower end
    assert(cum <= f0);
    assert(cum * r <= f0 * r) by (nonlinear_arith)
        requires
            cum <= f0,
            r >= 1,
    ;
    let q = (r * cum) / t;
    lemma_fundamental_div_mod(r * cum, t);
    assert(0 <= (r * cum) % t) by (nonlinear_arith)
        requires
            t >= 1,
    ;
    assert(q < x + 1) by (nonlinear_arith)
        requires
            t * q <= r * cum,
            r * cum == cum * r,
            cum * r <= f0 * r,
            f0 * r <= a,
            a == (x + 1) * t - 1,
            t >= 1,
    ;
    // upper end
    let q2 = (r * (cum + freq)) / t;
    lemma_fundamental_div_mod(r * (cum + freq), t);
    assert((r * (cum + freq)) % t < t) by (nonlinear_arith)
        requires
            t >= 1,
    ;
    if f0 < t - 1 {
        assert(f0 + 1 <= cum + freq);
        assert(a < (f0 + 1) * r) by (nonlinear_arith)
            requires
                a == r * f0 + a % r,
                a % r < r,
        ;
        assert((f0 + 1) * r <= (cum + freq) * r) by (nonlinear_arith)
            requires
                f0 + 1 <= cum + freq,
                r >= 1,
        ;
        assert(x + 1 <= q2) by (nonlinear_arith)
            requires
                a < (f0 + 1) * r,
                (f0 + 1) * r <= (cum + freq) * r,
                a == (x + 1) * t - 1,
                r * (cum + freq) == t * q2 + (r * (cum + freq)) % t,
                (r * (cum + freq)) % t < t,
                t >= 1,
        ;
    } else {
        assert(cum + freq == t);
        assert(q2 == r) by (nonlinear_arith)
            requires
                q2 == (r * (cum + freq)) / t,
                cum + freq == t,
                t >= 1,
        ;
    }
}

/// Bit-level range decoder.
pub struct RangeDecoder {
    data: Vec<u8>,
    pos: u64,
    lo: u64,
    hi: u64,
    code: u64,
}

fn input_bit(data: &Vec<u8>, pos: u64) -> (b: u64)
    ensures
        b == dbit(data@, pos as int),
        b <= 1,
{
    let byte_idx = pos / 8;
    if byte_idx < data.len() as u64 {
        let byte = data[byte_idx as usize];
        let sh = (7 - pos % 8) as u8;
        proof {
            lemma_u8_bit(byte, sh);
            lemma_bytes_bits_index(data@, pos as int);
        }
        ((byte >> sh) & 1) as u64
    } else {
        0
    }
}

impl RangeDecoder {
    /// State `(lo, hi, code, pos)`.
    pub closed spec fn state(&self) -> (int, int, int, int) {
        (self.lo as int, self.hi as int, self.code as int, self.pos as int)
    }

    /// The coded bytes.
    pub closed spec fn data(&self) -> Seq<u8> {
        self.data@
    }

    pub closed spec fn wf(&self) -> bool {
        &&& normalized(self.lo as int, self.hi as int)
        &&& self.lo <= self.code <= self.hi
        &&& self.pos <= MAX_POS
    }

    pub fn new(data: &[u8]) -> (d: Self)
        ensures
            d.wf(),
            d.data() == data@,
            d.state() == dec_initial(data@),
    {
        let mut buf: Vec<u8> = Vec::new();
        buf.extend_from_slice(data);
        let mut code: u64 = 0;
        let mut pos: u64 = 0;
        while pos < 32
            invariant
                buf@ == data@,
                pos <= 32,
                code == code_bits(data@, pos as nat),
            decreases 32 - pos,
        {
            proof {
                lemma_code_bits_bound(data@, pos as nat);
                lemma2_to64();
                if pos < 32 {
                    lemma_pow2_strictly_increases(pos as nat, 32);
                }
            }
            let b = input_bit(&buf, pos);
            code = code * 2 + b;
            pos = pos + 1;
        }
        proof {
            lemma_code_bits_bound(data@, 32);
            lemma2_to64();
        }
        RangeDecoder { data: buf, pos, lo: 0, hi: TOP, code }
    }

    /// The share of `total` that the current code points at.
    pub fn get_freq(&self, total: u64) -> (f: u64)
        requires
            self.wf(),
            1 <= total <= MAX_TOTAL,
        ensures
            f == freq_of(self.state(), total as int),
            f < total,
    {
        proof {
            lemma_freq_of_range(self.state(), total as int);
        }
        let rng = self.hi - self.lo + 1;
        let x = self.code - self.lo + 1;
        assert(x * total <= 0x1_0000_0000 * 0x4000_0000) by (nonlinear_arith)
            requires
                x <= 0x1_0000_0000,
                total <= 0x4000_0000,
        ;
        assert(x * total >= 1) by (nonlinear_arith)
            requires
                x >= 1,
                total >= 1,
        ;
        let cum = (x * total - 1) / rng;
        if cum < total - 1 {
            cum
        } else {
            total - 1
        }
    }

    /// Consume the symbol occupying `[cum_freq, cum_freq + freq)` of `total`;
    /// the share from `get_freq` must lie in that range.
    pub fn decode(&mut self, cum_freq: u64, freq: u64, total: u64)
        requires
            old(self).wf(),
            old(self).state().3 + 32 <= MAX_POS,
            freq >= 1,
            cum_freq + freq <= total,
            total <= MAX_TOTAL,
            cum_freq <= freq_of(old(self).state(), total as int) < cum_freq + freq,
        ensures
            final(self).wf(),
            final(self).data() == old(self).data(),
            final(self).state() == dec_step(
                old(self).state(),
                old(self).data(),
                cum_freq as int,
                freq as int,
                total as int,
            ),
            final(self).state().3 <= old(self).state().3 + 32,
    {
        proof {
            lemma_narrow(self.lo as int, self.hi as int, cum_freq as int, freq as int, total as int);
            lemma_code_in_narrow(
                self.lo as int,
                self.hi as int,
                self.code as int,
                cum_freq as int,
                freq as int,
                total as int,
            );
            lemma2_to64();
        }
        let rng = self.hi - self.lo + 1;
        assert(rng * (cum_freq + freq) <= 0x1_0000_0000 * 0x4000_0000) by (nonlinear_arith)
            requires
                rng <= 0x1_0000_0000,
                cum_freq + freq <= 0x4000_0000,
        ;
        assert(rng * cum_freq <= rng * (cum_freq + freq)) by (nonlinear_arith);
        let new_hi = self.lo + (rng * (cum_freq + freq)) / total - 1;
        let new_lo = self.lo + (rng * cum_freq) / total;
        self.hi = new_hi;
        self.lo = new_lo;
        let ghost start = (new_lo as int, new_hi as int, self.code as int, self.pos as int);
        let ghost mut t: nat = 0;
        loop
            invariant
                0 <= self.lo <= self.code <= self.hi <= TOP,
                self.data@ == old(self).data@,
                dec_norm(self.lo as int, self.hi as int, self.code as int, self.pos as int, self.data@)
                    == dec_norm(start.0, start.1, start.2, start.3, self.data@),
                self.hi - self.lo + 1 >= pow2(t),
                self.pos <= old(self).pos + t,
                old(self).pos + 32 <= MAX_POS,
            ensures
                normalized(self.lo as int, self.hi as int),
                self.lo <= self.code <= self.hi,
                self.data@ == old(self).data@,
                self.state() == dec_norm(start.0, start.1, start.2, start.3, self.data@),
                self.pos <= old(self).pos + 32,
            decreases 0x1_0000_0000 - (self.hi - self.lo),
        {
            proof {
                lemma2_to64();
                if t > 32 {
                    lemma_pow2_strictly_increases(32, t);
                }
                if t == 32 {
                    assert(self.hi - self.lo + 1 >= 0x1_0000_0000);
                }
            }
            if self.hi < HALF {
            } else if self.lo >= HALF {
                self.code = self.code - HALF;
                self.lo = self.lo - HALF;
                self.hi = self.hi - HALF;
            } else if self.lo >= QUARTER && self.hi < THREE_QUARTERS {
                self.code = self.code - QUARTER;
                self.lo = self.lo - QUARTER;
                self.hi = self.hi - QUARTER;
            } else {
                break ;
            }
            self.lo = self.lo * 2;
            self.hi = self.hi * 2 + 1;
            let b = input_bit(&self.data, self.pos);
            self.code = self.code * 2 + b;
            self.pos = self.pos + 1;
            proof {
                vstd::arithmetic::power2::lemma_pow2_unfold(t + 1);
                t = t + 1;
            }
        }
    }
}

// ───────────────────────────── adaptive context models ─────────────────────────────

/// Largest number of symbols the adaptive coders take: every model total then
/// stays within `MAX_TOTAL`.
pub const MAX_SYMBOLS: u64 = 0x1000_0000;

/// Byte `i` of `h` as a number, 0 outside `h`.
pub open spec fn at_or0(h: Seq<u8>, i: int) -> int {
    if 0 <= i < h.len() {
        h[i] as int
    } else {
        0
    }
}

/// Context of the next symbol after history `h` for a model of order 0, 1 or
/// 2: nothing, the previous byte, or the previous two bytes (missing bytes are 0).
pub open spec fn ctx_of(order: nat, h: Seq<u8>) -> int {
    let n = h.len() as int;
    if order == 0 {
        0
    } else if order == 1 {
        at_or0(h, n - 1)
    } else {
        at_or0(h, n - 1) * 256 + at_or0(h, n - 2)
    }
}

/// Number of contexts of a model.
pub open spec fn num_ctx(order: nat) -> nat {
    if order == 0 {
        1
    } else if order == 1 {
        256
    } else {
        65536
    }
}

/// How often `s` followed context `c` in history `h`.
pub open spec fn cnt(order: nat, h: Seq<u8>, c: int, s: int) -> nat
    decreases h.len(),
{
    if h.len() == 0 {
        0
    } else {
        let hd = h.drop_last();
        cnt(order, hd, c, s) + if ctx_of(order, hd) == c && h.last() as int == s {
            1nat
        } else {
            0nat
        }
    }
}

/// Adaptive frequency of `s` in context `c`: one plus its count.
pub open spec fn mfreq(order: nat, h: Seq<u8>, c: int, s: int) -> int {
    1 + cnt(order, h, c, s) as int
}

/// Sum of the frequencies of the symbols below `k` in context `c`.
pub open spec fn msum(order: nat, h: Seq<u8>, c: int, k: nat) -> int
    decreases k,
{
    if k == 0 {
        0
    } else {
        msum(order, h, c, (k - 1) as nat) + mfreq(order, h, c, k - 1)
    }
}

pub proof fn lemma_cnt_push(order: nat, h: Seq<u8>, b: u8, c: int, s: int)
    ensures
        cnt(order, h.push(b), c, s) == cnt(order, h, c, s) + if ctx_of(order, h) == c && b as int == s {
            1nat
        } else {
            0nat
        },
{
    assert(h.push(b).drop_last() =~= h);
}

pub proof fn lemma_msum_push(order: nat, h: Seq<u8>, b: u8, c: int, k: nat)
    ensures
        msum(order, h.push(b), c, k) == msum(order, h, c, k) + if ctx_of(order, h) == c && (b as int)
            < k {
            1int
        } else {
            0int
        },
    decreases k,
{
    if k > 0 {
        lemma_msum_push(order, h, b, c, (k - 1) as nat);
        lemma_cnt_push(order, h, b, c, k - 1);
    }
}

pub proof fn lemma_msum_lower(order: nat, h: Seq<u8>, c: int, k1: nat, k2: nat)
    requires
        k1 <= k2,
    ensures
        msum(order, h, c, k1) + (k2 - k1) <= msum(order, h, c, k2),
    decreases k2,
{
    if k1 < k2 {
        lemma_msum_lower(order, h, c, k1, (k2 - 1) as nat);
    }
}

pub proof fn lemma_msum_total(order: nat, h: Seq<u8>, c: int)
    ensures
        256 <= msum(order, h, c, 256) <= 256 + h.len(),
    decreases h.len(),
{
    if h.len() == 0 {
        lemma_msum_lower(order, h, c, 0, 256);
        lemma_msum_empty(order, h, c, 256);
    } else {
        let hd = h.drop_last();
        lemma_msum_total(order, hd, c);
        assert(hd.push(h.last()) =~= h);
        lemma_msum_push(order, hd, h.last(), c, 256);
    }
}

proof fn lemma_msum_empty(order: nat, h: Seq<u8>, c: int, k: nat)
    requires
        h.len() == 0,
    ensures
        msum(order, h, c, k) == k,
    decreases k,
{
    if k > 0 {
        lemma_msum_empty(order, h, c, (k - 1) as nat);
    }
}

/// The first symbol whose cumulative range reaches past `f`, searching from `s`.
pub open spec fn pick_from(order: nat, h: Seq<u8>, c: int, f: int, s: nat) -> int
    decreases 256 - s,
{
    if s >= 256 {
        0
    } else if f < msum(order, h, c, s + 1) {
        s as int
    } else {
        pick_from(order, h, c, f, s + 1)
    }
}

proof fn lemma_pick(order: nat, h: Seq<u8>, c: int, f: int, s: nat)
    requires
        s <= 256,
        msum(order, h, c, s) <= f < msum(order, h, c, 256),
    ensures
        0 <= pick_from(order, h, c, f, s) < 256,
        msum(order, h, c, pick_from(order, h, c, f, s) as nat) <= f < msum(
            order,
            h,
            c,
            pick_from(order, h, c, f, s) as nat,
        ) + mfreq(order, h, c, pick_from(order, h, c, f, s)),
    decreases 256 - s,
{
    if s < 256 && !(f < msum(order, h, c, s + 1)) {
        lemma_pick(order, h, c, f, s + 1);
    }
}

/// Encoder state after coding history `h` with an adaptive model of `order`.
pub open spec fn enc_model(order: nat, h: Seq<u8>) -> (int, int, nat, Seq<u8>)
    decreases h.len(),
{
    if h.len() == 0 {
        enc_initial()
    } else {
        let hd = h.drop_last();
        let c = ctx_of(order, hd);
        let s = h.last() as int;
        enc_step(
            enc_model(order, hd),
            msum(order, hd, c, s as nat),
            mfreq(order, hd, c, s),
            msum(order, hd, c, 256),
        )
    }
}

/// Symbols and decoder state after decoding `count` symbols from `data` with
/// an adaptive model of `order`.
pub open spec fn dec_model(order: nat, data: Seq<u8>, count: nat) -> (Seq<u8>, (int, int, int, int))
    decreases count,
{
    if count == 0 {
        (Seq::empty(), dec_initial(data))
    } else {
        let prev = dec_model(order, data, (count - 1) as nat);
        let h = prev.0;
        let st = prev.1;
        let c = ctx_of(order, h);
        let t = msum(order, h, c, 256);
        let s = pick_from(order, h, c, freq_of(st, t), 0);
        (h.push(s as u8), dec_step(st, data, msum(order, h, c, s as nat), mfreq(order, h, c, s), t))
    }
}

/// Frequency tables of an adaptive model, one row of 256 per context, and the
/// row totals.
struct ModelTables {
    freqs: Vec<u64>,
    totals: Vec<u64>,
}

impl ModelTables {
    spec fn holds(&self, order: nat, h: Seq<u8>) -> bool {
        &&& order <= 2
        &&& self.freqs@.len() == num_ctx(order) * 256
        &&& self.totals@.len() == num_ctx(order)
        &&& h.len() <= MAX_SYMBOLS
        &&& forall|c: int, s: int|
            0 <= c < num_ctx(order) && 0 <= s < 256 ==> self.freqs@[c * 256 + s] == #[trigger] mfreq(
                order,
                h,
                c,
                s,
            )
        &&& forall|c: int| 0 <= c < num_ctx(order) ==> self.totals@[c] == #[trigger] msum(order, h, c, 256)
    }

    fn new(order: u8) -> (t: Self)
        requires
            order <= 2,
        ensures
            t.holds(order as nat, Seq::empty()),
    {
        let nc: usize = if order == 0 {
            1
        } else if order == 1 {
            256
        } else {
            65536
        };
        let freqs: Vec<u64> = vec![1u64; nc * 256];
        let totals: Vec<u64> = vec![256u64; nc];
        let t = ModelTables { freqs, totals };
        proof {
            assert forall|c: int, s: int| 0 <= c < num_ctx(order as nat) && 0 <= s < 256 implies t.freqs@[c
                * 256 + s] == #[trigger] mfreq(order as nat, Seq::<u8>::empty(), c, s) by {
            }
            assert forall|c: int| 0 <= c < num_ctx(order as nat) implies t.totals@[c] == #[trigger] msum(
                order as nat,
                Seq::<u8>::empty(),
                c,
                256,
            ) by {
                lemma_msum_empty(order as nat, Seq::<u8>::empty(), c, 256);
            }
        }
        t
    }

    /// Sum of the frequencies below `sym` in context `c`.
    fn cum(&self, order: Ghost<nat>, h: Ghost<Seq<u8>>, c: usize, sym: usize) -> (r: u64)
        requires
            self.holds(order@, h@),
            c < num_ctx(order@),
            sym <= 256,
        ensures
            r == msum(order@, h@, c as int, sym as nat),
    {
        let base = c * 256;
        let mut acc: u64 = 0;
        let mut i: usize = 0;
        while i < sym
            invariant
                self.holds(order@, h@),
                c < num_ctx(order@),
                base == c * 256,
                sym <= 256,
                i <= sym,
                acc == msum(order@, h@, c as int, i as nat),
            decreases sym - i,
        {
            proof {
                assert(mfreq(order@, h@, c as int, i as int) == self.freqs@[c * 256 + i]);
                lemma_msum_total(order@, h@, c as int);
                lemma_msum_lower(order@, h@, c as int, (i + 1) as nat, 256);
            }
            acc = acc + self.freqs[base + i];
            i = i + 1;
        }
        acc
    }

    /// Count one more `sym` in context `c`.
    fn update(&mut self, order: Ghost<nat>, h: Ghost<Seq<u8>>, c: usize, sym: u8)
        requires
            old(self).holds(order@, h@),
            c == ctx_of(order@, h@),
            c < num_ctx(order@),
            h@.len() < MAX_SYMBOLS,
        ensures
            final(self).holds(order@, h@.push(sym)),
    {
        let idx = c * 256 + sym as usize;
        proof {
            assert(mfreq(order@, h@, c as int, sym as int) == self.freqs@[idx as int]);
            assert(msum(order@, h@, c as int, 256) == self.totals@[c as int]);
            lemma_msum_total(order@, h@, c as int);
            lemma_msum_lower(order@, h@, c as int, 0, sym as nat);
            lemma_msum_lower(order@, h@, c as int, (sym + 1) as nat, 256);
            lemma_cnt_push(order@, h@, sym, c as int, sym as int);
        }
        let v = self.freqs[idx] + 1;
        self.freqs.set(idx, v);
        let t = self.totals[c] + 1;
        self.totals.set(c, t);
        proof {
            let h2 = h@.push(sym);
            assert forall|cc: int, s: int| 0 <= cc < num_ctx(order@) && 0 <= s < 256 implies self.freqs@[cc
                * 256 + s] == #[trigger] mfreq(order@, h2, cc, s) by {
                lemma_cnt_push(order@, h@, sym, cc, s);
                assert(old(self).freqs@[cc * 256 + s] == mfreq(order@, h@, cc, s));
            }
            assert forall|cc: int| 0 <= cc < num_ctx(order@) implies self.totals@[cc] == #[trigger] msum(
                order@,
                h2,
                cc,
                256,
            ) by {
                lemma_msum_push(order@, h@, sym, cc, 256);
                assert(old(self).totals@[cc] == msum(order@, h@, cc, 256));
            }
        }
    }
}

/// Context index of the next symbol from the two previous bytes.
fn ctx_index(order: u8, prev1: u8, prev2: u8) -> (c: usize)
    requires
        order <= 2,
    ensures
        c < num_ctx(order as nat),
        order == 0 ==> c == 0,
        order == 1 ==> c == prev1,
        order == 2 ==> c == prev1 as int * 256 + prev2 as int,
{
    if order == 0 {
        0
    } else if order == 1 {
        prev1 as usize
    } else {
        prev1 as usize * 256 + prev2 as usize
    }
}

/// Range-code `data` with an adaptive model of `order`.
fn model_encode(data: &[u8], order: u8) -> (enc: RangeEncoder)
    requires
        order <= 2,
        data@.len() <= MAX_SYMBOLS,
    ensures
        enc.wf(),
        enc.state() == enc_model(order as nat, data@),
        enc.state().2 <= 32 * data@.len(),
{
    let ghost ord = order as nat;
    let mut enc = RangeEncoder::new();
    let mut tables = ModelTables::new(order);
    let mut prev1: u8 = 0;
    let mut prev2: u8 = 0;
    let mut i: usize = 0;
    assert(data@.subrange(0, 0) =~= Seq::<u8>::empty());
    while i < data.len()
        invariant
            order <= 2,
            ord == order as nat,
            data@.len() <= MAX_SYMBOLS,
            i <= data@.len(),
            tables.holds(ord, data@.subrange(0, i as int)),
            enc.wf(),
            enc.state() == enc_model(ord, data@.subrange(0, i as int)),
            enc.state().2 <= 32 * i,
            prev1 as int == at_or0(data@.subrange(0, i as int), i - 1),
            prev2 as int == at_or0(data@.subrange(0, i as int), i - 2),
        decreases data@.len() - i,
    {
        let ghost h = data@.subrange(0, i as int);
        let b = data[i];
        let c = ctx_index(order, prev1, prev2);
        assert(c == ctx_of(ord, h));
        let total = tables.totals[c];
        let cum = tables.cum(Ghost(ord), Ghost(h), c, b as usize);
        let freq = tables.freqs[c * 256 + b as usize];
        proof {
            assert(mfreq(ord, h, c as int, b as int) == freq);
            assert(msum(ord, h, c as int, 256) == total);
            lemma_msum_total(ord, h, c as int);
            lemma_msum_lower(ord, h, c as int, (b + 1) as nat, 256);
        }
        enc.encode(cum, freq, total);
        tables.update(Ghost(ord), Ghost(h), c, b);
        prev2 = prev1;
        prev1 = b;
        proof {
            let h2 = data@.subrange(0, i + 1);
            assert(h2 =~= h.push(b));
            assert(h2.drop_last() =~= h);
        }
        i = i + 1;
    }
    assert(data@.subrange(0, data@.len() as int) =~= data@);
    enc
}

/// Decode `count` symbols from `data` with an adaptive model of `order`.
fn model_decode(data: &[u8], order: u8, count: usize) -> (out: Vec<u8>)
    requires
        order <= 2,
        count <= MAX_SYMBOLS,
    ensures
        out@ == dec_model(order as nat, data@, count as nat).0,
{
    let ghost ord = order as nat;
    let mut dec = RangeDecoder::new(data);
    let mut tables = ModelTables::new(order);
    let mut out: Vec<u8> = Vec::new();
    let mut prev1: u8 = 0;
    let mut prev2: u8 = 0;
    let mut k: usize = 0;
    while k < count
        invariant
            order <= 2,
            ord == order as nat,
            count <= MAX_SYMBOLS,
            k <= count,
            dec.wf(),
            dec.data() == data@,
            dec.state().3 <= 32 + 32 * k,
            out@ == dec_model(ord, data@, k as nat).0,
            dec.state() == dec_model(ord, data@, k as nat).1,
            out@.len() == k,
            tables.holds(ord, out@),
            prev1 as int == at_or0(out@, k - 1),
            prev2 as int == at_or0(out@, k - 2),
        decreases count - k,
    {
        let ghost h = out@;
        let c = ctx_index(order, prev1, prev2);
        assert(c == ctx_of(ord, h));
        let total = tables.totals[c];
        proof {
            lemma_msum_total(ord, h, c as int);
        }
        let f = dec.get_freq(total);
        let base = c * 256;
        let mut cum: u64 = 0;
        let mut sym: usize = 0;
        let mut s: usize = 0;
        proof {
            lemma_pick(ord, h, c as int, f as int, 0);
        }
        while s < 256
            invariant_except_break
                cum == msum(ord, h, c as int, s as nat),
                cum <= f,
            invariant
                tables.holds(ord, h),
                c < num_ctx(ord),
                base == c * 256,
                s <= 256,
                f < msum(ord, h, c as int, 256),
                pick_from(ord, h, c as int, f as int, 0) == pick_from(ord, h, c as int, f as int, s as nat),
            ensures
                sym == pick_from(ord, h, c as int, f as int, 0),
                cum == msum(ord, h, c as int, sym as nat + 1),
                sym < 256,
            decreases 256 - s,
        {
            proof {
                assert(mfreq(ord, h, c as int, s as int) == tables.freqs@[c * 256 + s]);
                lemma_msum_lower(ord, h, c as int, (s + 1) as nat, 256);
            }
            cum = cum + tables.freqs[base + s];
            if f < cum {
                sym = s;
                break ;
            }
            s = s + 1;
        }
        let freq = tables.freqs[base + sym];
        proof {
            assert(mfreq(ord, h, c as int, sym as int) == freq);
            lemma_pick(ord, h, c as int, f as int, 0);
            assert(msum(ord, h, c as int, (sym + 1) as nat) == msum(ord, h, c as int, sym as nat) + mfreq(
                ord,
                h,
                c as int,
                sym as int,
            ));
            lemma_msum_lower(ord, h, c as int, (sym + 1) as nat, 256);
            lemma_msum_lower(ord, h, c as int, 0, sym as nat);
        }
        dec.decode(cum - freq, freq, total);
        tables.update(Ghost(ord), Ghost(h), c, sym as u8);
        out.push(sym as u8);
        prev2 = prev1;
        prev1 = sym as u8;
        k = k + 1;
    }
    out
}

// ───────────────────────────── byte coders ─────────────────────────────

/// Bytes of a coder stream: `header` then the flushed coder bytes of state `st`.
pub open spec fn coded_as(out: Seq<u8>, header: Seq<u8>, st: (int, int, nat, Seq<u8>)) -> bool {
    &&& out.len() >= header.len()
    &&& out.subrange(0, header.len() as int) == header
    &&& bytes_bits(out.subrange(header.len() as int, out.len() as int)) == enc_flush_bytes(st)
}

/// The header of a context-model stream: a model flag and the symbol count.
pub open spec fn model_header(flag: u8, n: nat) -> Seq<u8> {
    seq![flag] + le32_bytes(n as u32)
}

fn finish(header: Vec<u8>, enc: &mut RangeEncoder) -> (out: Vec<u8>)
    requires
        old(enc).wf(),
        old(enc).state().2 < MAX_PENDING,
    ensures
        coded_as(out@, header@, old(enc).state()),
{
    let bytes = enc.flush();
    let mut out = header;
    let ghost hd = out@;
    out.extend_from_slice(bytes.as_slice());
    assert(out@.subrange(0, hd.len() as int) =~= hd);
    assert(out@.subrange(hd.len() as int, out@.len() as int) =~= bytes@);
    out
}

fn model_stream(data: &[u8], order: u8, flag: u8) -> (out: Vec<u8>)
    requires
        order <= 2,
        data@.len() <= MAX_SYMBOLS,
    ensures
        data@.len() == 0 ==> out@ == model_header(flag, 0),
        data@.len() > 0 ==> coded_as(out@, model_header(flag, data@.len()), enc_model(order as nat, data@)),
{
    let mut header: Vec<u8> = Vec::new();
    header.push(flag);
    push_u32_le(&mut header, data.len() as u32);
    assert(header@ =~= model_header(flag, data@.len()));
    if data.len() == 0 {
        return header;
    }
    let mut enc = model_encode(data, order);
    finish(header, &mut enc)
}

/// Adaptive order-0 range encoder for bytes: `[ULEB count][coded bits]`.
pub fn range_encode_bytes(data: &[u8]) -> (out: Vec<u8>)
    requires
        data@.len() <= MAX_SYMBOLS,
    ensures
        coded_as(out@, uleb_bytes(data@.len()), enc_model(0, data@)),
{
    let mut enc = model_encode(data, 0);
    let header = uleb_encode(data.len() as u64);
    finish(header, &mut enc)
}

/// Adaptive order-0 range decoder: `Err` when the count prefix is cut short,
/// or when symbols are counted but no coded byte follows.
pub fn range_decode_bytes(data: &[u8]) -> (r: Result<Vec<u8>, &'static str>)
    requires
        uleb_safe(data@),
        uleb_complete(data@) ==> uleb_value(data@) <= MAX_SYMBOLS,
    ensures
        data@.len() == 0 ==> r is Ok && r->Ok_0@ == Seq::<u8>::empty(),
        data@.len() > 0 ==> (r is Ok <==> uleb_complete(data@) && (uleb_value(data@) == 0 || uleb_span(data@)
            < data@.len())),
        data@.len() > 0 && uleb_complete(data@) && uleb_value(data@) > 0 && uleb_span(data@) == data@.len() ==> r
            == Err::<Vec<u8>, &'static str>("Range decode: truncated data"),
        data@.len() > 0 && r is Ok ==> r->Ok_0@ == dec_model(
            0,
            data@.subrange(uleb_span(data@) as int, data@.len() as int),
            uleb_value(data@),
        ).0,
{
    if data.len() == 0 {
        return Ok(Vec::new());
    }
    assert(data@.subrange(0, data@.len() as int) =~= data@);
    let (count, pos, done) = read_uleb_at(data, 0);
    proof {
        crate::bit_io::lemma_uleb_span_bound(data@);
    }
    if !done {
        return Err("Range decode: truncated ULEB count");
    }
    if count > 0 && pos == data.len() {
        return Err("Range decode: truncated data");
    }
    let range_data = slice_range(data, pos, data.len());
    Ok(model_decode(range_data, 0, count as usize))
}

/// Adaptive order-1 range encoder (context = previous byte):
/// `[1][count(4)][coded bits]`, or just the header for empty input.
pub fn range_encode_bytes_order1(data: &[u8]) -> (out: Vec<u8>)
    requires
        data@.len() <= MAX_SYMBOLS,
    ensures
        data@.len() == 0 ==> out@ == model_header(1, 0),
        data@.len() > 0 ==> coded_as(out@, model_header(1, data@.len()), enc_model(1, data@)),
{
    model_stream(data, 1, 1)
}

/// The symbol count of a context-model stream that carries the right flag
/// is within what the coders take.
pub open spec fn model_count_ok(d: Seq<u8>, flag: u8) -> bool {
    d.len() >= 5 && d[0] == flag ==> le32_at(d, 1) <= MAX_SYMBOLS
}

/// What a context-model decoder gives for stream `d`.
pub open spec fn model_decoded(d: Seq<u8>, flag: u8, order: nat) -> Result<Seq<u8>, ()> {
    if d.len() < 5 || d[0] != flag {
        Err(())
    } else {
        Ok(dec_model(order, d.subrange(5, d.len() as int), le32_at(d, 1) as nat).0)
    }
}

fn model_unstream(data: &[u8], order: u8, flag: u8) -> (r: Result<Vec<u8>, &'static str>)
    requires
        order <= 2,
        model_count_ok(data@, flag),
    ensures
        r is Ok <==> model_decoded(data@, flag, order as nat) is Ok,
        r is Ok ==> r->Ok_0@ == model_decoded(data@, flag, order as nat)->Ok_0,
{
    if data.len() < 5 {
        return Err("Range decode: data too short");
    }
    if data[0] != flag {
        return Err("Range decode: wrong model flag");
    }
    let count = read_u32_le(data, 1) as usize;
    let range_data = slice_range(data, 5, data.len());
    Ok(model_decode(range_data, order, count))
}

/// Adaptive order-1 range decoder.
pub fn range_decode_bytes_order1(data: &[u8]) -> (r: Result<Vec<u8>, &'static str>)
    requires
        model_count_ok(data@, 1),
    ensures
        r is Ok <==> model_decoded(data@, 1, 1) is Ok,
        r is Ok ==> r->Ok_0@ == model_decoded(data@, 1, 1)->Ok_0,
{
    model_unstream(data, 1, 1)
}

/// Adaptive order-2 range encoder (context = previous two bytes):
/// `[2][count(4)][coded bits]`, or just the header for empty input.
pub fn range_encode_bytes_order2(data: &[u8]) -> (out: Vec<u8>)
    requires
        data@.len() <= MAX_SYMBOLS,
    ensures
        data@.len() == 0 ==> out@ == model_header(2, 0),
        data@.len() > 0 ==> coded_as(out@, model_header(2, data@.len()), enc_model(2, data@)),
{
    model_stream(data, 2, 2)
}

/// Adaptive order-2 range decoder.
pub fn range_decode_bytes_order2(data: &[u8]) -> (r: Result<Vec<u8>, &'static str>)
    requires
        model_count_ok(data@, 2),
    ensures
        r is Ok <==> model_decoded(data@, 2, 2) is Ok,
        r is Ok ==> r->Ok_0@ == model_decoded(data@, 2, 2)->Ok_0,
{
    model_unstream(data, 2, 2)
}

// ───────────────────────────── mixed models ─────────────────────────────

/// Weight of the higher-order model when mixing two adaptive models: kind 0
/// mixes orders 0 and 1 with weight 2; kind 1 mixes orders 1 and 2 and gives
/// order 2 weight 2 once its context total (capped at twice the order-1
/// total) reaches 50, weight 1 before.
pub open spec fn mix_weight(kind: nat, h: Seq<u8>) -> int {
    if kind == 0 {
        2
    } else {
        let ta = msum(1, h, ctx_of(1, h), 256);
        let tb = msum(2, h, ctx_of(2, h), 256);
        let rel = if tb < ta * 2 { tb } else { ta * 2 };
        if rel >= 50 {
            2
        } else {
            1
        }
    }
}

/// Mixed cumulative frequency below `s`.
pub open spec fn mix_cum(kind: nat, h: Seq<u8>, s: nat) -> int {
    msum(kind, h, ctx_of(kind, h), s) + mix_weight(kind, h) * msum(kind + 1, h, ctx_of(kind + 1, h), s)
}

/// Mixed frequency of `s`.
pub open spec fn mix_freq(kind: nat, h: Seq<u8>, s: int) -> int {
    mfreq(kind, h, ctx_of(kind, h), s) + mix_weight(kind, h) * mfreq(kind + 1, h, ctx_of(kind + 1, h), s)
}

/// Mixed total.
pub open spec fn mix_total(kind: nat, h: Seq<u8>) -> int {
    mix_cum(kind, h, 256)
}

/// The coding interval `(cum, freq, total)` of `s` after `h`, clamped so the
/// interval is never empty.
pub open spec fn mix_params(kind: nat, h: Seq<u8>, s: int) -> (int, int, int) {
    let t0 = mix_total(kind, h);
    let t = if t0 < 1 { 1 } else { t0 };
    let c0 = mix_cum(kind, h, s as nat);
    let c = if c0 < t - 1 { c0 } else { t - 1 };
    let f0 = mix_freq(kind, h, s);
    let f1 = if f0 < 1 { 1 } else { f0 };
    let f = if f1 < t - c { f1 } else { t - c };
    (c, f, t)
}

/// Encoder state after coding `h` with mixed models of `kind`.
pub open spec fn enc_mix(kind: nat, h: Seq<u8>) -> (int, int, nat, Seq<u8>)
    decreases h.len(),
{
    if h.len() == 0 {
        enc_initial()
    } else {
        let hd = h.drop_last();
        let p = mix_params(kind, hd, h.last() as int);
        enc_step(enc_mix(kind, hd), p.0, p.1, p.2)
    }
}

/// The first symbol whose mixed cumulative range reaches past `f`.
pub open spec fn mix_pick_from(kind: nat, h: Seq<u8>, f: int, s: nat) -> int
    decreases 256 - s,
{
    if s >= 256 {
        0
    } else if f < mix_cum(kind, h, s + 1) {
        s as int
    } else {
        mix_pick_from(kind, h, f, s + 1)
    }
}

/// Symbols and decoder state after decoding `count` symbols with mixed models.
pub open spec fn dec_mix(kind: nat, data: Seq<u8>, count: nat) -> (Seq<u8>, (int, int, int, int))
    decreases count,
{
    if count == 0 {
        (Seq::empty(), dec_initial(data))
    } else {
        let prev = dec_mix(kind, data, (count - 1) as nat);
        let h = prev.0;
        let st = prev.1;
        let t0 = mix_total(kind, h);
        let t = if t0 < 1 { 1 } else { t0 };
        let s = mix_pick_from(kind, h, freq_of(st, t), 0);
        let f0 = mix_freq(kind, h, s);
        (h.push(s as u8), dec_step(st, data, mix_cum(kind, h, s as nat), if f0 < 1 { 1 } else { f0 }, t))
    }
}

proof fn lemma_mix_bounds(kind: nat, h: Seq<u8>, s1: nat, s2: nat)
    requires
        kind <= 1,
        s1 <= s2 <= 256,
        h.len() <= MAX_SYMBOLS,
    ensures
        1 <= mix_weight(kind, h) <= 2,
        mix_cum(kind, h, s1) + (s2 - s1) <= mix_cum(kind, h, s2),
        0 <= mix_cum(kind, h, s1),
        768 + 3 * h.len() >= mix_total(kind, h) >= 256,
        s1 < 256 ==> mix_cum(kind, h, s1 + 1) == mix_cum(kind, h, s1) + mix_freq(kind, h, s1 as int),
        s1 < 256 ==> mix_freq(kind, h, s1 as int) >= 1,
{
    let w = mix_weight(kind, h);
    let ca = ctx_of(kind, h);
    let cb = ctx_of(kind + 1, h);
    lemma_msum_lower(kind, h, ca, s1, s2);
    lemma_msum_lower(kind + 1, h, cb, s1, s2);
    lemma_msum_lower(kind, h, ca, 0, s1);
    lemma_msum_lower(kind + 1, h, cb, 0, s1);
    lemma_msum_total(kind, h, ca);
    lemma_msum_total(kind + 1, h, cb);
    lemma_msum_lower(kind, h, ca, s2, 256);
    lemma_msum_lower(kind + 1, h, cb, s2, 256);
    let a1 = msum(kind, h, ca, s1);
    let a2 = msum(kind, h, ca, s2);
    let b1 = msum(kind + 1, h, cb, s1);
    let b2 = msum(kind + 1, h, cb, s2);
    let ta = msum(kind, h, ca, 256);
    let tb = msum(kind + 1, h, cb, 256);
    assert(w * b1 <= w * b2) by (nonlinear_arith)
        requires
            b1 <= b2,
            1 <= w <= 2,
    ;
    assert(w * b1 >= 0) by (nonlinear_arith)
        requires
            b1 >= 0,
            1 <= w <= 2,
    ;
    assert(w * tb <= 2 * tb) by (nonlinear_arith)
        requires
            1 <= w <= 2,
            tb >= 0,
    ;
    assert(w * tb >= 0) by (nonlinear_arith)
        requires
            1 <= w <= 2,
            tb >= 0,
    ;
    if s1 < 256 {
        let fa = mfreq(kind, h, ca, s1 as int);
        let fb = mfreq(kind + 1, h, cb, s1 as int);
        assert(w * (b1 + fb) == w * b1 + w * fb) by (nonlinear_arith);
        assert(w * fb >= 1) by (nonlinear_arith)
            requires
                fb >= 1,
                w >= 1,
        ;
    }
}

proof fn lemma_mix_pick(kind: nat, h: Seq<u8>, f: int, s: nat)
    requires
        kind <= 1,
        h.len() <= MAX_SYMBOLS,
        s <= 256,
        mix_cum(kind, h, s) <= f < mix_total(kind, h),
    ensures
        0 <= mix_pick_from(kind, h, f, s) < 256,
        mix_cum(kind, h, mix_pick_from(kind, h, f, s) as nat) <= f < mix_cum(
            kind,
            h,
            (mix_pick_from(kind, h, f, s) + 1) as nat,
        ),
    decreases 256 - s,
{
    if s < 256 && !(f < mix_cum(kind, h, s + 1)) {
        lemma_mix_pick(kind, h, f, s + 1);
    }
}

/// Mixing weight for the next symbol.
fn weight_of(kind: u8, a: &ModelTables, b: &ModelTables, ca: usize, cb: usize, h: Ghost<Seq<u8>>) -> (w: u64)
    requires
        kind <= 1,
        a.holds(kind as nat, h@),
        b.holds(kind as nat + 1, h@),
        ca == ctx_of(kind as nat, h@),
        cb == ctx_of(kind as nat + 1, h@),
        ca < num_ctx(kind as nat),
        cb < num_ctx(kind as nat + 1),
    ensures
        w == mix_weight(kind as nat, h@),
{
    if kind == 0 {
        2
    } else {
        proof {
            lemma_msum_total(1, h@, ca as int);
        }
        let ta = a.totals[ca];
        let tb = b.totals[cb];
        let rel = if tb < ta * 2 {
            tb
        } else {
            ta * 2
        };
        if rel >= 50 {
            2
        } else {
            1
        }
    }
}

/// Range-code `data` with two mixed adaptive models.
fn mix_encode(data: &[u8], kind: u8) -> (enc: RangeEncoder)
    requires
        kind <= 1,
        data@.len() <= MAX_SYMBOLS,
    ensures
        enc.wf(),
        enc.state() == enc_mix(kind as nat, data@),
        enc.state().2 <= 32 * data@.len(),
{
    let ghost ka = kind as nat;
    let mut enc = RangeEncoder::new();
    let mut ta = ModelTables::new(kind);
    let mut tb = ModelTables::new(kind + 1);
    let mut prev1: u8 = 0;
    let mut prev2: u8 = 0;
    let mut i: usize = 0;
    assert(data@.subrange(0, 0) =~= Seq::<u8>::empty());
    while i < data.len()
        invariant
            kind <= 1,
            ka == kind as nat,
            data@.len() <= MAX_SYMBOLS,
            i <= data@.len(),
            ta.holds(ka, data@.subrange(0, i as int)),
            tb.holds(ka + 1, data@.subrange(0, i as int)),
            enc.wf(),
            enc.state() == enc_mix(ka, data@.subrange(0, i as int)),
            enc.state().2 <= 32 * i,
            prev1 as int == at_or0(data@.subrange(0, i as int), i - 1),
            prev2 as int == at_or0(data@.subrange(0, i as int), i - 2),
        decreases data@.len() - i,
    {
        let ghost h = data@.subrange(0, i as int);
        let b = data[i];
        let ca = ctx_index(kind, prev1, prev2);
        let cb = ctx_index(kind + 1, prev1, prev2);
        let w = weight_of(kind, &ta, &tb, ca, cb, Ghost(h));
        proof {
            lemma_mix_bounds(ka, h, b as nat, 256);
            lemma_mix_bounds(ka, h, 0, b as nat);
            lemma_msum_total(ka, h, ca as int);
            lemma_msum_total(ka + 1, h, cb as int);
            assert(mfreq(ka, h, ca as int, b as int) == ta.freqs@[ca * 256 + b]);
            assert(mfreq(ka + 1, h, cb as int, b as int) == tb.freqs@[cb * 256 + b]);
            lemma_msum_lower(ka, h, ca as int, 0, b as nat);
            lemma_msum_lower(ka, h, ca as int, (b + 1) as nat, 256);
            lemma_msum_lower(ka + 1, h, cb as int, 0, b as nat);
            lemma_msum_lower(ka + 1, h, cb as int, (b + 1) as nat, 256);
        }
        let t_mixed = ta.totals[ca] + tb.totals[cb] * w;
        let c_mixed = ta.cum(Ghost(ka), Ghost(h), ca, b as usize) + tb.cum(Ghost(ka + 1), Ghost(h), cb, b as usize) * w;
        let f_mixed = ta.freqs[ca * 256 + b as usize] + tb.freqs[cb * 256 + b as usize] * w;
        let total = if t_mixed < 1 {
            1
        } else {
            t_mixed
        };
        let cum = if c_mixed < total - 1 {
            c_mixed
        } else {
            total - 1
        };
        let f1 = if f_mixed < 1 {
            1
        } else {
            f_mixed
        };
        let freq = if f1 < total - cum {
            f1
        } else {
            total - cum
        };
        enc.encode(cum, freq, total);
        ta.update(Ghost(ka), Ghost(h), ca, b);
        tb.update(Ghost(ka + 1), Ghost(h), cb, b);
        prev2 = prev1;
        prev1 = b;
        proof {
            let h2 = data@.subrange(0, i + 1);
            assert(h2 =~= h.push(b));
            assert(h2.drop_last() =~= h);
        }
        i = i + 1;
    }
    assert(data@.subrange(0, data@.len() as int) =~= data@);
    enc
}

/// Decode `count` symbols coded with two mixed adaptive models.
fn mix_decode(data: &[u8], kind: u8, count: usize) -> (out: Vec<u8>)
    requires
        kind <= 1,
        count <= MAX_SYMBOLS,
    ensures
        out@ == dec_mix(kind as nat, data@, count as nat).0,
{
    let ghost ka = kind as nat;
    let mut dec = RangeDecoder::new(data);
    let mut ta = ModelTables::new(kind);
    let mut tb = ModelTables::new(kind + 1);
    let mut out: Vec<u8> = Vec::new();
    let mut prev1: u8 = 0;
    let mut prev2: u8 = 0;
    let mut k: usize = 0;
    while k < count
        invariant
            kind <= 1,
            ka == kind as nat,
            count <= MAX_SYMBOLS,
            k <= count,
            dec.wf(),
            dec.data() == data@,
            dec.state().3 <= 32 + 32 * k,
            out@ == dec_mix(ka, data@, k as nat).0,
            dec.state() == dec_mix(ka, data@, k as nat).1,
            out@.len() == k,
            ta.holds(ka, out@),
            tb.holds(ka + 1, out@),
            prev1 as int == at_or0(out@, k - 1),
            prev2 as int == at_or0(out@, k - 2),
        decreases count - k,
    {
        let ghost h = out@;
        let ca = ctx_index(kind, prev1, prev2);
        let cb = ctx_index(kind + 1, prev1, prev2);
        let w = weight_of(kind, &ta, &tb, ca, cb, Ghost(h));
        proof {
            lemma_mix_bounds(ka, h, 0, 256);
            lemma_msum_total(ka, h, ca as int);
            lemma_msum_total(ka + 1, h, cb as int);
        }
        let t_mixed = ta.totals[ca] + tb.totals[cb] * w;
        let total = if t_mixed < 1 {
            1
        } else {
            t_mixed
        };
        let f = dec.get_freq(total);
        let base_a = ca * 256;
        let base_b = cb * 256;
        let mut ra: u64 = 0;
        let mut rb: u64 = 0;
        let mut sym: usize = 0;
        let mut s: usize = 0;
        proof {
            lemma_mix_pick(ka, h, f as int, 0);
        }
        while s < 256
            invariant_except_break
                ra == msum(ka, h, ca as int, s as nat),
                rb == msum(ka + 1, h, cb as int, s as nat),
                mix_cum(ka, h, s as nat) <= f,
            invariant
                kind <= 1,
                ta.holds(ka, h),
                tb.holds(ka + 1, h),
                h.len() <= MAX_SYMBOLS,
                ca == ctx_of(ka, h),
                cb == ctx_of(ka + 1, h),
                ca < num_ctx(ka),
                cb < num_ctx(ka + 1),
                base_a == ca * 256,
                base_b == cb * 256,
                w == mix_weight(ka, h),
                s <= 256,
                f < mix_total(ka, h),
                mix_pick_from(ka, h, f as int, 0) == mix_pick_from(ka, h, f as int, s as nat),
            ensures
                sym == mix_pick_from(ka, h, f as int, 0),
                ra == msum(ka, h, ca as int, sym as nat + 1),
                rb == msum(ka + 1, h, cb as int, sym as nat + 1),
                sym < 256,
            decreases 256 - s,
        {
            proof {
                assert(mfreq(ka, h, ca as int, s as int) == ta.freqs@[ca * 256 + s]);
                assert(mfreq(ka + 1, h, cb as int, s as int) == tb.freqs@[cb * 256 + s]);
                lemma_msum_total(ka, h, ca as int);
                lemma_msum_total(ka + 1, h, cb as int);
                lemma_msum_lower(ka, h, ca as int, (s + 1) as nat, 256);
                lemma_msum_lower(ka + 1, h, cb as int, (s + 1) as nat, 256);
                lemma_mix_bounds(ka, h, (s + 1) as nat, 256);
            }
            ra = ra + ta.freqs[base_a + s];
            rb = rb + tb.freqs[base_b + s];
            let next = ra + rb * w;
            if f < next {
                sym = s;
                break ;
            }
            s = s + 1;
        }
        let fa = ta.freqs[base_a + sym];
        let fb = tb.freqs[base_b + sym];
        proof {
            assert(mfreq(ka, h, ca as int, sym as int) == fa);
            assert(mfreq(ka + 1, h, cb as int, sym as int) == fb);
            lemma_mix_pick(ka, h, f as int, 0);
            lemma_mix_bounds(ka, h, sym as nat, 256);
            lemma_mix_bounds(ka, h, (sym + 1) as nat, 256);
            assert(msum(ka, h, ca as int, (sym + 1) as nat) == msum(ka, h, ca as int, sym as nat) + fa);
            assert(msum(ka + 1, h, cb as int, (sym + 1) as nat) == msum(ka + 1, h, cb as int, sym as nat) + fb);
            lemma_msum_lower(ka, h, ca as int, 0, sym as nat);
            lemma_msum_lower(ka + 1, h, cb as int, 0, sym as nat);
        }
        let dec_freq = fa + fb * w;
        let dec_cum = (ra - fa) + (rb - fb) * w;
        dec.decode(dec_cum, dec_freq, total);
        ta.update(Ghost(ka), Ghost(h), ca, sym as u8);
        tb.update(Ghost(ka + 1), Ghost(h), cb, sym as u8);
        out.push(sym as u8);
        prev2 = prev1;
        prev1 = sym as u8;
        k = k + 1;
    }
    out
}

fn mix_stream(data: &[u8], kind: u8, flag: u8) -> (out: Vec<u8>)
    requires
        kind <= 1,
        data@.len() <= MAX_SYMBOLS,
    ensures
        data@.len() == 0 ==> out@ == model_header(flag, 0),
        data@.len() > 0 ==> coded_as(out@, model_header(flag, data@.len()), enc_mix(kind as nat, data@)),
{
    let mut header: Vec<u8> = Vec::new();
    header.push(flag);
    push_u32_le(&mut header, data.len() as u32);
    assert(header@ =~= model_header(flag, data@.len()));
    if data.len() == 0 {
        return header;
    }
    let mut enc = mix_encode(data, kind);
    finish(header, &mut enc)
}

/// What a mixed-model decoder gives for stream `d`.
pub open spec fn mix_decoded(d: Seq<u8>, flag: u8, kind: nat) -> Result<Seq<u8>, ()> {
    if d.len() < 5 || d[0] != flag {
        Err(())
    } else {
        Ok(dec_mix(kind, d.subrange(5, d.len() as int), le32_at(d, 1) as nat).0)
    }
}

fn mix_unstream(data: &[u8], kind: u8, flag: u8) -> (r: Result<Vec<u8>, &'static str>)
    requires
        kind <= 1,
        model_count_ok(data@, flag),
    ensures
        r is Ok <==> mix_decoded(data@, flag, kind as nat) is Ok,
        r is Ok ==> r->Ok_0@ == mix_decoded(data@, flag, kind as nat)->Ok_0,
{
    if data.len() < 5 {
        return Err("Range decode: data too short");
    }
    if data[0] != flag {
        return Err("Range decode: wrong model flag");
    }
    let count = read_u32_le(data, 1) as usize;
    let range_data = slice_range(data, 5, data.len());
    Ok(mix_decode(range_data, kind, count))
}

/// Adaptive order-0/order-1 mixing range encoder (order-1 counts weighted 2x):
/// `[3][count(4)][coded bits]`, or just the header for empty input.
pub fn range_encode_bytes_order_mix(data: &[u8]) -> (out: Vec<u8>)
    requires
        data@.len() <= MAX_SYMBOLS,
    ensures
        data@.len() == 0 ==> out@ == model_header(3, 0),
        data@.len() > 0 ==> coded_as(out@, model_header(3, data@.len()), enc_mix(0, data@)),
{
    mix_stream(data, 0, 3)
}

/// Decoder for `range_encode_bytes_order_mix`.
pub fn range_decode_bytes_order_mix(data: &[u8]) -> (r: Result<Vec<u8>, &'static str>)
    requires
        model_count_ok(data@, 3),
    ensures
        r is Ok <==> mix_decoded(data@, 3, 0) is Ok,
        r is Ok ==> r->Ok_0@ == mix_decoded(data@, 3, 0)->Ok_0,
{
    mix_unstream(data, 0, 3)
}

/// Adaptive order-1/order-2 mixing range encoder (order 2 weighted by its
/// context's reliability): `[4][count(4)][coded bits]`, or just the header for
/// empty input.
pub fn range_encode_bytes_order12_mix(data: &[u8]) -> (out: Vec<u8>)
    requires
        data@.len() <= MAX_SYMBOLS,
    ensures
        data@.len() == 0 ==> out@ == model_header(4, 0),
        data@.len() > 0 ==> coded_as(out@, model_header(4, data@.len()), enc_mix(1, data@)),
{
    mix_stream(data, 1, 4)
}

/// Decoder for `range_encode_bytes_order12_mix`.
pub fn range_decode_bytes_order12_mix(data: &[u8]) -> (r: Result<Vec<u8>, &'static str>)
    requires
        model_count_ok(data@, 4),
    ensures
        r is Ok <==> mix_decoded(data@, 4, 1) is Ok,
        r is Ok ==> r->Ok_0@ == mix_decoded(data@, 4, 1)->Ok_0,
{
    mix_unstream(data, 1, 4)
}

// ───────────────────────────── context hashes ─────────────────────────────

/// Slots in each sparse table of the order-3 to order-7 context models.
pub const CONTEXT_SLOTS: usize = 0x1_0000;

/// Product of two 32-bit words, wrapped to 32 bits.
pub open spec fn mul32(a: u32, b: u32) -> u32 {
    ((a as nat * b as nat) % 0x1_0000_0000nat) as u32
}

/// Table slot of a context key: multiply, fold the high half in, multiply
/// again, keep the low 16 bits.
pub open spec fn mix_slot(x: u32) -> usize {
    let h1 = mul32(x, 0x45d9f3b);
    let h2 = h1 ^ (h1 >> 16u32);
    (mul32(h2, 0x45d9f3b) & 0xFFFFu32) as usize
}

/// Key of an order-3 context (most recent byte first).
pub open spec fn o3_key(p1: u8, p2: u8, p3: u8) -> u32 {
    (p1 as u32) ^ ((p2 as u32) << 8u32) ^ ((p3 as u32) << 16u32)
}

/// Key of an order-4 context.
pub open spec fn o4_key(p1: u8, p2: u8, p3: u8, p4: u8) -> u32 {
    o3_key(p1, p2, p3) ^ ((p4 as u32) << 24u32)
}

/// Key of an order-5 context.
pub open spec fn o5_key(p1: u8, p2: u8, p3: u8, p4: u8, p5: u8) -> u32 {
    o4_key(p1, p2, p3, p4) ^ mul32(p5 as u32, 0x45d9f3b)
}

/// Key of an order-6 context.
pub open spec fn o6_key(p1: u8, p2: u8, p3: u8, p4: u8, p5: u8, p6: u8) -> u32 {
    o5_key(p1, p2, p3, p4, p5) ^ mul32(p6 as u32, 0x1b4e915d)
}

/// Key of an order-7 context.
pub open spec fn o7_key(p1: u8, p2: u8, p3: u8, p4: u8, p5: u8, p6: u8, p7: u8) -> u32 {
    o6_key(p1, p2, p3, p4, p5, p6) ^ mul32(p7 as u32, 0x9e3779b9)
}

fn mix_to_slot(x: u32) -> (r: usize)
    ensures
        r == mix_slot(x),
        r < CONTEXT_SLOTS,
{
    let mut h = x.wrapping_mul(0x45d9f3b);
    h ^= h >> 16u32;
    h = h.wrapping_mul(0x45d9f3b);
    let r = (h as usize) & (CONTEXT_SLOTS - 1);
    assert(((h as usize) & 0xFFFFusize) == ((h & 0xFFFFu32) as usize) && ((h as usize) & 0xFFFFusize)
        < 0x10000usize) by (bit_vector);
    r
}

/// Slot of the order-3 context `p1 p2 p3`.
pub fn o3_hash(p1: u8, p2: u8, p3: u8) -> (r: usize)
    ensures
        r == mix_slot(o3_key(p1, p2, p3)),
        r < CONTEXT_SLOTS,
{
    mix_to_slot((p1 as u32) ^ ((p2 as u32) << 8u32) ^ ((p3 as u32) << 16u32))
}

/// Slot of the order-4 context `p1 .. p4`.
pub fn o4_hash(p1: u8, p2: u8, p3: u8, p4: u8) -> (r: usize)
    ensures
        r == mix_slot(o4_key(p1, p2, p3, p4)),
        r < CONTEXT_SLOTS,
{
    mix_to_slot((p1 as u32) ^ ((p2 as u32) << 8u32) ^ ((p3 as u32) << 16u32) ^ ((p4 as u32) << 24u32))
}

/// Slot of the order-5 context `p1 .. p5`.
pub fn o5_hash(p1: u8, p2: u8, p3: u8, p4: u8, p5: u8) -> (r: usize)
    ensures
        r == mix_slot(o5_key(p1, p2, p3, p4, p5)),
        r < CONTEXT_SLOTS,
{
    let x = (p1 as u32) ^ ((p2 as u32) << 8u32) ^ ((p3 as u32) << 16u32) ^ ((p4 as u32) << 24u32)
        ^ (p5 as u32).wrapping_mul(0x45d9f3b);
    mix_to_slot(x)
}

/// Slot of the order-6 context `p1 .. p6`.
pub fn o6_hash(p1: u8, p2: u8, p3: u8, p4: u8, p5: u8, p6: u8) -> (r: usize)
    ensures
        r == mix_slot(o6_key(p1, p2, p3, p4, p5, p6)),
        r < CONTEXT_SLOTS,
{
    let x = (p1 as u32) ^ ((p2 as u32) << 8u32) ^ ((p3 as u32) << 16u32) ^ ((p4 as u32) << 24u32)
        ^ (p5 as u32).wrapping_mul(0x45d9f3b) ^ (p6 as u32).wrapping_mul(0x1b4e915d);
    mix_to_slot(x)
}

/// Slot of the order-7 context `p1 .. p7`.
pub fn o7_hash(p1: u8, p2: u8, p3: u8, p4: u8, p5: u8, p6: u8, p7: u8) -> (r: usize)
    ensures
        r == mix_slot(o7_key(p1, p2, p3, p4, p5, p6, p7)),
        r < CONTEXT_SLOTS,
{
    let x = (p1 as u32) ^ ((p2 as u32) << 8u32) ^ ((p3 as u32) << 16u32) ^ ((p4 as u32) << 24u32)
        ^ (p5 as u32).wrapping_mul(0x45d9f3b) ^ (p6 as u32).wrapping_mul(0x1b4e915d)
        ^ (p7 as u32).wrapping_mul(0x9e3779b9);
    mix_to_slot(x)
}

// ───────────────────────────── coder roundtrip ─────────────────────────────

/// The number a sequence of 0/1 bits denotes, first bit most significant.
pub open spec fn bits01_value(bits: Seq<u8>) -> int
    decreases bits.len(),
{
    if bits.len() == 0 {
        0
    } else {
        2 * bits01_value(bits.drop_last()) + bits.last() as int
    }
}

/// Where the encoder's 32-bit window starts in the code space of its scale:
/// the settled bits, shifted past the window and the pending bits, then the
/// offset the pending (straddling) shifts put on the window.
pub open spec fn window_base(bits: Seq<u8>, p: nat) -> int {
    bits01_value(bits) * pow2(32 + p) + HALF * pow2(p) - HALF
}

/// Code bits an encoder state accounts for: the first 32, then one per shift.
pub open spec fn enc_scale(s: (int, int, nat, Seq<u8>)) -> int {
    (32 + s.3.len() + s.2) as int
}

proof fn lemma_bits01_fill(x: Seq<u8>, c: u8, n: nat)
    requires
        c <= 1,
    ensures
        bits01_value(x + Seq::new(n, |i: int| c)) == bits01_value(x) * pow2(n) + c * (pow2(n) - 1),
    decreases n,
{
    lemma2_to64();
    if n == 0 {
        assert(x + Seq::new(0, |i: int| c) =~= x);
    } else {
        lemma_bits01_fill(x, c, (n - 1) as nat);
        let s = x + Seq::new(n, |i: int| c);
        assert(s.drop_last() =~= x + Seq::new((n - 1) as nat, |i: int| c));
        vstd::arithmetic::power2::lemma_pow2_unfold(n);
        let v = bits01_value(x);
        let q = pow2((n - 1) as nat) as int;
        assert(2 * (v * q + c * (q - 1)) + c == v * (2 * q) + c * (2 * q - 1)) by (nonlinear_arith);
    }
}

/// Emitting a settled bit and its pending bits moves the window base as the
/// shift that settles it does.
proof fn lemma_emit_base(bits: Seq<u8>, b: u8, p: nat)
    requires
        b <= 1,
    ensures
        window_base(emit(bits, b, p), 0) == 2 * window_base(bits, p) + b * 0x1_0000_0000,
        emit(bits, b, p).len() == bits.len() + 1 + p,
{
    lemma2_to64();
    let c = (1 - b) as u8;
    let e = emit(bits, b, p);
    assert(e =~= bits.push(b) + Seq::new(p, |i: int| c));
    lemma_bits01_fill(bits.push(b), c, p);
    assert(bits.push(b).drop_last() =~= bits);
    vstd::arithmetic::power2::lemma_pow2_adds(32, p);
    let v = bits01_value(bits);
    let pp = pow2(p) as int;
    assert(bits01_value(e) == (2 * v + b) * pp + c * (pp - 1));
    assert(((2 * v + b) * pp + c * (pp - 1)) * 0x1_0000_0000 == 2 * (v * (0x1_0000_0000 * pp) + 0x8000_0000
        * pp - 0x8000_0000) + b * 0x1_0000_0000) by (nonlinear_arith)
        requires
            c == 1 - b,
    ;
}

/// A straddling shift moves the window base by half the window.
proof fn lemma_pending_base(bits: Seq<u8>, p: nat)
    ensures
        window_base(bits, p + 1) == 2 * window_base(bits, p) + HALF,
{
    lemma2_to64();
    vstd::arithmetic::power2::lemma_pow2_unfold(p + 1);
    vstd::arithmetic::power2::lemma_pow2_unfold(32 + p + 1);
    let v = bits01_value(bits);
    let a = pow2(32 + p) as int;
    let pp = pow2(p) as int;
    assert(v * (2 * a) + 0x8000_0000 * (2 * pp) - 0x8000_0000 == 2 * (v * a + 0x8000_0000 * pp - 0x8000_0000)
        + 0x8000_0000) by (nonlinear_arith);
}

/// The decoder's renormalization tracks the encoder's: its window is the
/// encoder's, and its code is the code-space value of the bits read so far,
/// taken relative to the encoder's window base.
proof fn lemma_norm_lockstep(lo: int, hi: int, p: nat, bits: Seq<u8>, data: Seq<u8>)
    requires
        0 <= lo <= hi < 0x1_0000_0000,
    ensures
        ({
            let e = enc_norm(lo, hi, p, bits);
            let t = (32 + bits.len() + p) as int;
            dec_norm(lo, hi, code_bits(data, t as nat) - window_base(bits, p), t, data) == (
                e.0,
                e.1,
                code_bits(data, enc_scale(e) as nat) - window_base(e.3, e.2),
                enc_scale(e),
            )
        }),
    decreases 0x1_0000_0000 - (hi - lo),
{
    let t = (32 + bits.len() + p) as int;
    let c = code_bits(data, t as nat) - window_base(bits, p);
    assert(code_bits(data, (t + 1) as nat) == 2 * code_bits(data, t as nat) + dbit(data, t));
    if hi < HALF {
        lemma_emit_base(bits, 0, p);
        lemma_norm_lockstep(2 * lo, 2 * hi + 1, 0, emit(bits, 0, p), data);
    } else if lo >= HALF {
        lemma_emit_base(bits, 1, p);
        lemma_norm_lockstep(2 * (lo - HALF), 2 * (hi - HALF) + 1, 0, emit(bits, 1, p), data);
    } else if lo >= QUARTER && hi < THREE_QUARTERS {
        lemma_pending_base(bits, p);
        lemma_norm_lockstep(2 * (lo - QUARTER), 2 * (hi - QUARTER) + 1, p + 1, bits, data);
    }
}

/// Renormalization keeps a code inside the window exactly when it was inside.
proof fn lemma_dec_norm_inside(lo: int, hi: int, code: int, pos: int, data: Seq<u8>)
    requires
        0 <= lo <= hi < 0x1_0000_0000,
    ensures
        ({
            let r = dec_norm(lo, hi, code, pos, data);
            (lo <= code <= hi) == (r.0 <= r.2 <= r.1)
        }),
    decreases 0x1_0000_0000 - (hi - lo),
{
    let b = dbit(data, pos);
    assert(0 <= b <= 1);
    if hi < HALF {
        lemma_dec_norm_inside(2 * lo, 2 * hi + 1, 2 * code + b, pos + 1, data);
    } else if lo >= HALF {
        lemma_dec_norm_inside(2 * (lo - HALF), 2 * (hi - HALF) + 1, 2 * (code - HALF) + b, pos + 1, data);
    } else if lo >= QUARTER && hi < THREE_QUARTERS {
        lemma_dec_norm_inside(2 * (lo - QUARTER), 2 * (hi - QUARTER) + 1, 2 * (code - QUARTER) + b, pos + 1, data);
    }
}

/// Renormalization ends on a normalized window.
proof fn lemma_enc_norm_normalized(lo: int, hi: int, p: nat, bits: Seq<u8>)
    requires
        0 <= lo <= hi < 0x1_0000_0000,
    ensures
        normalized(enc_norm(lo, hi, p, bits).0, enc_norm(lo, hi, p, bits).1),
    decreases 0x1_0000_0000 - (hi - lo),
{
    if hi < HALF {
        lemma_enc_norm_normalized(2 * lo, 2 * hi + 1, 0, emit(bits, 0, p));
    } else if lo >= HALF {
        lemma_enc_norm_normalized(2 * (lo - HALF), 2 * (hi - HALF) + 1, 0, emit(bits, 1, p));
    } else if lo >= QUARTER && hi < THREE_QUARTERS {
        lemma_enc_norm_normalized(2 * (lo - QUARTER), 2 * (hi - QUARTER) + 1, p + 1, bits);
    }
}

/// Renormalization only emits 0 and 1 bits.
proof fn lemma_enc_norm_bits(lo: int, hi: int, p: nat, bits: Seq<u8>)
    requires
        0 <= lo <= hi < 0x1_0000_0000,
        forall|i: int| 0 <= i < bits.len() ==> #[trigger] bits[i] <= 1,
    ensures
        forall|i: int|
            0 <= i < enc_norm(lo, hi, p, bits).3.len() ==> #[trigger] enc_norm(lo, hi, p, bits).3[i] <= 1,
    decreases 0x1_0000_0000 - (hi - lo),
{
    let e = enc_norm(lo, hi, p, bits);
    if hi < HALF || lo >= HALF {
        let b: u8 = if hi < HALF { 0 } else { 1 };
        let m = emit(bits, b, p);
        assert forall|i: int| 0 <= i < m.len() implies #[trigger] m[i] <= 1 by {
            if i < bits.len() {
                assert(m[i] == bits[i]);
            } else if i == bits.len() {
                assert(m[i] == b);
            } else {
                assert(m[i] == (1 - b) as u8);
            }
        }
        if hi < HALF {
            assert(e == enc_norm(2 * lo, 2 * hi + 1, 0, m));
            lemma_enc_norm_bits(2 * lo, 2 * hi + 1, 0, m);
        } else {
            assert(e == enc_norm(2 * (lo - HALF), 2 * (hi - HALF) + 1, 0, m));
            lemma_enc_norm_bits(2 * (lo - HALF), 2 * (hi - HALF) + 1, 0, m);
        }
    } else if lo >= QUARTER && hi < THREE_QUARTERS {
        assert(e == enc_norm(2 * (lo - QUARTER), 2 * (hi - QUARTER) + 1, p + 1, bits));
        lemma_enc_norm_bits(2 * (lo - QUARTER), 2 * (hi - QUARTER) + 1, p + 1, bits);
    } else {
        assert(e == (lo, hi, p, bits));
    }
}

/// The first `k` bits read from the flushed bytes of `f`: the first `k` bits of
/// `f`, then zeros.
proof fn lemma_code_bits_flushed(data: Seq<u8>, f: Seq<u8>, k: nat)
    requires
        bytes_bits(data) == pad_bits(as_bools(f)),
        forall|i: int| 0 <= i < f.len() ==> #[trigger] f[i] <= 1,
    ensures
        k <= f.len() ==> code_bits(data, k) == bits01_value(f.subrange(0, k as int)),
        k >= f.len() ==> code_bits(data, k) == bits01_value(f) * pow2((k - f.len()) as nat),
    decreases k,
{
    lemma2_to64();
    let bb = bytes_bits(data);
    assert(bb.len() == data.len() * 8);
    if k == 0 {
        assert(f.subrange(0, 0) =~= Seq::<u8>::empty());
        if f.len() == 0 {
            assert(f =~= Seq::<u8>::empty());
        }
    } else {
        lemma_code_bits_flushed(data, f, (k - 1) as nat);
        let i = k - 1;
        if i < f.len() {
            assert(bb[i] == (f[i] == 1));
            assert(dbit(data, i) == f[i]);
            let fk = f.subrange(0, k as int);
            assert(fk.drop_last() =~= f.subrange(0, i));
            assert(fk.last() == f[i]);
            assert(bits01_value(fk) == 2 * bits01_value(f.subrange(0, i)) + f[i]);
            assert(code_bits(data, k) == 2 * code_bits(data, i as nat) + dbit(data, i));
            assert(code_bits(data, k) == bits01_value(fk));
            if k == f.len() {
                assert(fk =~= f);
                assert(pow2(0) == 1);
                assert(bits01_value(f) * 1 == bits01_value(f));
            }
        } else {
            if i < bb.len() {
                assert(!bb[i]);
            }
            assert(dbit(data, i) == 0);
            if k - 1 == f.len() {
                assert(f.subrange(0, f.len() as int) =~= f);
            }
            vstd::arithmetic::power2::lemma_pow2_unfold((k - f.len()) as nat);
            let v = bits01_value(f);
            let q = pow2((k - 1 - f.len()) as nat) as int;
            assert(2 * (v * q) == v * (2 * q)) by (nonlinear_arith);
            assert(code_bits(data, k) == 2 * code_bits(data, (k - 1) as nat) + dbit(data, i));
            assert(code_bits(data, (k - 1) as nat) == v * q);
        }
    }
}

/// The flushed code lies in the last window: the final bits point at its
/// first or second quarter mark, inside a normalized window.
proof fn lemma_flush_inside(st: (int, int, nat, Seq<u8>), data: Seq<u8>)
    requires
        normalized(st.0, st.1),
        forall|i: int| 0 <= i < st.3.len() ==> #[trigger] st.3[i] <= 1,
        bytes_bits(data) == enc_flush_bytes(st),
    ensures
        st.0 <= code_bits(data, enc_scale(st) as nat) - window_base(st.3, st.2) <= st.1,
{
    lemma2_to64();
    let (lo, hi, p, bits) = st;
    let b: u8 = if lo < QUARTER { 0 } else { 1 };
    let f = enc_final_bits(st);
    let c = (1 - b) as u8;
    assert(f =~= bits.push(b) + Seq::new(p + 1, |i: int| c));
    assert forall|i: int| 0 <= i < f.len() implies #[trigger] f[i] <= 1 by {
        if i < bits.len() {
            assert(f[i] == bits[i]);
        }
    }
    lemma_code_bits_flushed(data, f, enc_scale(st) as nat);
    lemma_bits01_fill(bits.push(b), c, p + 1);
    assert(bits.push(b).drop_last() =~= bits);
    vstd::arithmetic::power2::lemma_pow2_adds(32, p);
    vstd::arithmetic::power2::lemma_pow2_unfold(p + 1);
    assert(enc_scale(st) - f.len() == 30);
    let v = bits01_value(bits);
    let pp = pow2(p) as int;
    assert(((2 * v + b) * (2 * pp) + c * (2 * pp - 1)) * 0x4000_0000 - (v * (0x1_0000_0000 * pp) + 0x8000_0000
        * pp - 0x8000_0000) == 0x8000_0000 - 0x4000_0000 * c) by (nonlinear_arith)
        requires
            c == 1 - b,
    ;
}

/// A code inside the narrowed window points at a share inside the symbol's
/// interval.
proof fn lemma_narrow_code_freq(lo: int, hi: int, code: int, cum: int, freq: int, total: int)
    requires
        lo <= hi,
        freq >= 1,
        cum >= 0,
        cum + freq <= total,
        narrow(lo, hi, cum, freq, total).0 <= code <= narrow(lo, hi, cum, freq, total).1,
    ensures
        cum <= freq_of((lo, hi, code, 0), total) < cum + freq,
{
    let r = hi - lo + 1;
    let x = code - lo;
    let t = total;
    let a = (x + 1) * t - 1;
    let q1 = (r * cum) / t;
    let q2 = (r * (cum + freq)) / t;
    lemma_fundamental_div_mod(r * cum, t);
    lemma_fundamental_div_mod(r * (cum + freq), t);
    lemma_fundamental_div_mod(a, r);
    assert(0 <= (r * cum) % t < t && 0 <= (r * (cum + freq)) % t < t && 0 <= a % r < r) by (nonlinear_arith)
        requires
            t >= 1,
            r >= 1,
    ;
    assert(x >= q1 && x + 1 <= q2);
    assert(a >= r * cum) by (nonlinear_arith)
        requires
            r * cum == t * q1 + (r * cum) % t,
            (r * cum) % t < t,
            x >= q1,
            a == (x + 1) * t - 1,
            t >= 1,
    ;
    assert(a < r * (cum + freq)) by (nonlinear_arith)
        requires
            r * (cum + freq) == t * q2 + (r * (cum + freq)) % t,
            (r * (cum + freq)) % t >= 0,
            x + 1 <= q2,
            a == (x + 1) * t - 1,
            t >= 1,
    ;
    assert(cum <= a / r < cum + freq) by (nonlinear_arith)
        requires
            a == r * (a / r) + a % r,
            0 <= a % r < r,
            a >= r * cum,
            a < r * (cum + freq),
            r >= 1,
    ;
}

/// Symbol intervals `(cum, freq, total)` the coder accepts.
pub open spec fn syms_ok(syms: Seq<(int, int, int)>) -> bool {
    forall|k: int|
        0 <= k < syms.len() ==> #[trigger] syms[k].1 >= 1 && syms[k].0 >= 0 && syms[k].0 + syms[k].1
            <= syms[k].2 <= MAX_TOTAL
}

/// Encoder state after coding the first `k` symbol intervals.
pub open spec fn enc_run(syms: Seq<(int, int, int)>, k: nat) -> (int, int, nat, Seq<u8>)
    decreases k,
{
    if k == 0 {
        enc_initial()
    } else {
        let c = syms[k - 1];
        enc_step(enc_run(syms, (k - 1) as nat), c.0, c.1, c.2)
    }
}

/// Decoder state over `data` after consuming the first `k` symbol intervals.
pub open spec fn dec_run(data: Seq<u8>, syms: Seq<(int, int, int)>, k: nat) -> (int, int, int, int)
    decreases k,
{
    if k == 0 {
        dec_initial(data)
    } else {
        let c = syms[k - 1];
        dec_step(dec_run(data, syms, (k - 1) as nat), data, c.0, c.1, c.2)
    }
}

/// Encoder states stay normalized and emit only 0 and 1 bits.
proof fn lemma_enc_run_ok(syms: Seq<(int, int, int)>, k: nat)
    requires
        syms_ok(syms),
        k <= syms.len(),
    ensures
        normalized(enc_run(syms, k).0, enc_run(syms, k).1),
        forall|i: int| 0 <= i < enc_run(syms, k).3.len() ==> #[trigger] enc_run(syms, k).3[i] <= 1,
    decreases k,
{
    if k > 0 {
        lemma_enc_run_ok(syms, (k - 1) as nat);
        let s = enc_run(syms, (k - 1) as nat);
        let c = syms[k - 1];
        assert(c.1 >= 1 && c.0 >= 0 && c.0 + c.1 <= c.2 <= MAX_TOTAL);
        lemma_narrow(s.0, s.1, c.0, c.1, c.2);
        let nw = narrow(s.0, s.1, c.0, c.1, c.2);
        lemma_enc_norm_normalized(nw.0, nw.1, s.2, s.3);
        lemma_enc_norm_bits(nw.0, nw.1, s.2, s.3);
    }
}

/// The decoder's state mirrors the encoder's: same window, the code read so
/// far relative to the encoder's window base, and one code bit per shift.
proof fn lemma_dec_run_mirrors(data: Seq<u8>, syms: Seq<(int, int, int)>, k: nat)
    requires
        syms_ok(syms),
        k <= syms.len(),
    ensures
        ({
            let e = enc_run(syms, k);
            dec_run(data, syms, k) == (
                e.0,
                e.1,
                code_bits(data, enc_scale(e) as nat) - window_base(e.3, e.2),
                enc_scale(e),
            )
        }),
    decreases k,
{
    lemma2_to64();
    if k == 0 {
        assert(window_base(Seq::<u8>::empty(), 0) == 0) by {
            assert(bits01_value(Seq::<u8>::empty()) == 0);
        }
    } else {
        lemma_dec_run_mirrors(data, syms, (k - 1) as nat);
        lemma_enc_run_ok(syms, (k - 1) as nat);
        let s = enc_run(syms, (k - 1) as nat);
        let c = syms[k - 1];
        assert(c.1 >= 1 && c.0 >= 0 && c.0 + c.1 <= c.2 <= MAX_TOTAL);
        lemma_narrow(s.0, s.1, c.0, c.1, c.2);
        let nw = narrow(s.0, s.1, c.0, c.1, c.2);
        lemma_norm_lockstep(nw.0, nw.1, s.2, s.3, data);
    }
}

/// Every window from step `k` on holds the flushed code; before the last
/// step, so does the narrowed window of the symbol coded at `k`.
proof fn lemma_code_inside(data: Seq<u8>, syms: Seq<(int, int, int)>, k: nat)
    requires
        syms_ok(syms),
        k <= syms.len(),
        bytes_bits(data) == enc_flush_bytes(enc_run(syms, syms.len())),
    ensures
        ({
            let e = enc_run(syms, k);
            let code = code_bits(data, enc_scale(e) as nat) - window_base(e.3, e.2);
            &&& e.0 <= code <= e.1
            &&& k < syms.len() ==> narrow(e.0, e.1, syms[k as int].0, syms[k as int].1, syms[k as int].2).0
                <= code <= narrow(e.0, e.1, syms[k as int].0, syms[k as int].1, syms[k as int].2).1
        }),
    decreases syms.len() - k,
{
    let e = enc_run(syms, k);
    let code = code_bits(data, enc_scale(e) as nat) - window_base(e.3, e.2);
    lemma_enc_run_ok(syms, k);
    if k == syms.len() {
        lemma_flush_inside(e, data);
    } else {
        lemma_code_inside(data, syms, k + 1);
        let c = syms[k as int];
        assert(c.1 >= 1 && c.0 >= 0 && c.0 + c.1 <= c.2 <= MAX_TOTAL);
        lemma_narrow(e.0, e.1, c.0, c.1, c.2);
        let nw = narrow(e.0, e.1, c.0, c.1, c.2);
        lemma_norm_lockstep(nw.0, nw.1, e.2, e.3, data);
        lemma_dec_norm_inside(nw.0, nw.1, code, enc_scale(e), data);
    }
}

/// Range coder round trip: a decoder reading the bytes an encoder flushed
/// after coding a sequence of symbol intervals, and consuming the same
/// intervals, finds at each step a share that lies in that step's interval,
/// so a model that maps shares back to symbols decodes every symbol that was
/// coded. Its state stays well formed throughout.
pub proof fn law_range_coder_roundtrip(syms: Seq<(int, int, int)>, data: Seq<u8>)
    requires
        syms_ok(syms),
        bytes_bits(data) == enc_flush_bytes(enc_run(syms, syms.len())),
    ensures
        forall|k: int|
            0 <= k < syms.len() ==> syms[k].0 <= #[trigger] freq_of(dec_run(data, syms, k as nat), syms[k].2)
                < syms[k].0 + syms[k].1,
        forall|k: int|
            0 <= k <= syms.len() ==> {
                let d = #[trigger] dec_run(data, syms, k as nat);
                normalized(d.0, d.1) && d.0 <= d.2 <= d.1
            },
{
    assert forall|k: int| 0 <= k < syms.len() implies syms[k].0 <= #[trigger] freq_of(
        dec_run(data, syms, k as nat),
        syms[k].2,
    ) < syms[k].0 + syms[k].1 by {
        lemma_dec_run_mirrors(data, syms, k as nat);
        lemma_code_inside(data, syms, k as nat);
        let e = enc_run(syms, k as nat);
        let c = syms[k];
        let code = code_bits(data, enc_scale(e) as nat) - window_base(e.3, e.2);
        lemma_enc_run_ok(syms, k as nat);
        lemma_narrow_code_freq(e.0, e.1, code, c.0, c.1, c.2);
    }
    assert forall|k: int| 0 <= k <= syms.len() implies {
        let d = #[trigger] dec_run(data, syms, k as nat);
        normalized(d.0, d.1) && d.0 <= d.2 <= d.1
    } by {
        lemma_dec_run_mirrors(data, syms, k as nat);
        lemma_code_inside(data, syms, k as nat);
        lemma_enc_run_ok(syms, k as nat);
    }
}

/// The symbol intervals an adaptive model of `order` codes `d` with.
pub open spec fn model_syms(order: nat, d: Seq<u8>) -> Seq<(int, int, int)> {
    Seq::new(
        d.len(),
        |k: int|
            {
                let h = d.subrange(0, k);
                let c = ctx_of(order, h);
                (msum(order, h, c, d[k] as nat), mfreq(order, h, c, d[k] as int), msum(order, h, c, 256))
            },
    )
}

proof fn lemma_model_syms_ok(order: nat, d: Seq<u8>)
    requires
        d.len() <= MAX_SYMBOLS,
    ensures
        syms_ok(model_syms(order, d)),
{
    let syms = model_syms(order, d);
    assert forall|k: int| 0 <= k < syms.len() implies #[trigger] syms[k].1 >= 1 && syms[k].0 >= 0 && syms[k].0
        + syms[k].1 <= syms[k].2 <= MAX_TOTAL by {
        let h = d.subrange(0, k);
        let c = ctx_of(order, h);
        let b = d[k] as nat;
        lemma_msum_lower(order, h, c, 0, b);
        lemma_msum_lower(order, h, c, b + 1, 256);
        lemma_msum_total(order, h, c);
    }
}

proof fn lemma_enc_model_run(order: nat, d: Seq<u8>, k: nat)
    requires
        k <= d.len(),
    ensures
        enc_model(order, d.subrange(0, k as int)) == enc_run(model_syms(order, d), k),
    decreases k,
{
    if k > 0 {
        lemma_enc_model_run(order, d, (k - 1) as nat);
        let h = d.subrange(0, k as int);
        assert(h.drop_last() =~= d.subrange(0, k - 1));
    }
}

/// The share search finds the symbol whose range holds the share.
proof fn lemma_pick_sym(order: nat, h: Seq<u8>, c: int, f: int, b: nat, s: nat)
    requires
        s <= b < 256,
        msum(order, h, c, b) <= f < msum(order, h, c, b + 1),
    ensures
        pick_from(order, h, c, f, s) == b,
    decreases b - s,
{
    if s < b {
        lemma_msum_lower(order, h, c, s + 1, b);
        lemma_pick_sym(order, h, c, f, b, s + 1);
    }
}

proof fn lemma_dec_model_run(order: nat, code: Seq<u8>, d: Seq<u8>, k: nat)
    requires
        d.len() <= MAX_SYMBOLS,
        k <= d.len(),
        bytes_bits(code) == enc_flush_bytes(enc_run(model_syms(order, d), d.len())),
    ensures
        dec_model(order, code, k) == (d.subrange(0, k as int), dec_run(code, model_syms(order, d), k)),
    decreases k,
{
    let syms = model_syms(order, d);
    if k == 0 {
        assert(d.subrange(0, 0) =~= Seq::<u8>::empty());
    } else {
        lemma_dec_model_run(order, code, d, (k - 1) as nat);
        lemma_model_syms_ok(order, d);
        law_range_coder_roundtrip(syms, code);
        let j = k - 1;
        let h = d.subrange(0, j);
        let c = ctx_of(order, h);
        let b = d[j] as nat;
        let st = dec_run(code, syms, j as nat);
        let f = freq_of(st, msum(order, h, c, 256));
        assert(syms[j].0 <= freq_of(dec_run(code, syms, j as nat), syms[j].2) < syms[j].0 + syms[j].1);
        assert(msum(order, h, c, b + 1) == msum(order, h, c, b) + mfreq(order, h, c, b as int));
        lemma_pick_sym(order, h, c, f, b, 0);
        assert(d.subrange(0, k as int) =~= h.push(d[j]));
    }
}

/// Context-model round trip: decoding the flushed bytes of an adaptive model
/// of `order` over `d` for `d.len()` symbols gives `d` back.
pub proof fn law_model_roundtrip(order: nat, d: Seq<u8>, code: Seq<u8>)
    requires
        d.len() <= MAX_SYMBOLS,
        bytes_bits(code) == enc_flush_bytes(enc_model(order, d)),
    ensures
        dec_model(order, code, d.len()).0 == d,
{
    lemma_enc_model_run(order, d, d.len());
    assert(d.subrange(0, d.len() as int) =~= d);
    lemma_dec_model_run(order, code, d, d.len());
}

/// Order-0 byte coder round trip: the stream `range_encode_bytes` writes has
/// a complete, small count prefix, and its decoding is the input.
pub proof fn law_range_bytes_roundtrip(d: Seq<u8>, out: Seq<u8>)
    requires
        d.len() <= MAX_SYMBOLS,
        coded_as(out, uleb_bytes(d.len()), enc_model(0, d)),
    ensures
        uleb_safe(out),
        uleb_complete(out),
        uleb_value(out) == d.len(),
        uleb_span(out) < out.len(),
        dec_model(0, out.subrange(uleb_span(out) as int, out.len() as int), uleb_value(out)).0 == d,
{
    lemma2_to64();
    let u = uleb_bytes(d.len());
    let rest = out.subrange(u.len() as int, out.len() as int);
    assert(out =~= u + rest);
    crate::bit_io::lemma_uleb_roundtrip(d.len(), rest);
    crate::bit_io::lemma_uleb_len(d.len());
    vstd::arithmetic::div_mod::lemma_small_mod(d.len(), pow2(64));
    law_model_roundtrip(0, d, rest);
    let fb = enc_final_bits(enc_model(0, d));
    assert(fb.len() >= 1);
    assert(bytes_bits(rest).len() >= 1);
}

/// Order-1 and order-2 byte coder round trip: the stream of
/// `model_stream` for `d` decodes to `d`.
pub proof fn law_model_stream_roundtrip(order: nat, flag: u8, d: Seq<u8>, out: Seq<u8>)
    requires
        d.len() <= MAX_SYMBOLS,
        d.len() == 0 ==> out == model_header(flag, 0),
        d.len() > 0 ==> coded_as(out, model_header(flag, d.len()), enc_model(order, d)),
    ensures
        model_count_ok(out, flag),
        model_decoded(out, flag, order) == Ok::<Seq<u8>, ()>(d),
{
    let hdr = model_header(flag, d.len());
    crate::le::lemma_le32_roundtrip(d.len() as u32, seq![flag], Seq::<u8>::empty());
    assert(seq![flag] + le32_bytes(d.len() as u32) + Seq::<u8>::empty() =~= hdr);
    let rest = out.subrange(5, out.len() as int);
    if d.len() == 0 {
        assert(rest =~= Seq::<u8>::empty());
        assert(d =~= Seq::<u8>::empty());
        assert(le32_at(out, 1) == 0);
    } else {
        assert(out =~= hdr + rest);
        assert(le32_at(out, 1) == le32_at(hdr, 1));
        law_model_roundtrip(order, d, rest);
    }
}

/// The symbol intervals mixed models of `kind` code `d` with.
pub open spec fn mix_syms(kind: nat, d: Seq<u8>) -> Seq<(int, int, int)> {
    Seq::new(d.len(), |k: int| mix_params(kind, d.subrange(0, k), d[k] as int))
}

/// On histories the coders take, the clamps of `mix_params` change nothing.
proof fn lemma_mix_params_exact(kind: nat, h: Seq<u8>, b: nat)
    requires
        kind <= 1,
        h.len() <= MAX_SYMBOLS,
        b < 256,
    ensures
        mix_params(kind, h, b as int) == (mix_cum(kind, h, b), mix_freq(kind, h, b as int), mix_total(kind, h)),
        mix_freq(kind, h, b as int) >= 1,
        mix_cum(kind, h, b) >= 0,
        mix_cum(kind, h, b) + mix_freq(kind, h, b as int) <= mix_total(kind, h) <= MAX_TOTAL,
{
    lemma_mix_bounds(kind, h, b, b + 1);
    lemma_mix_bounds(kind, h, b + 1, 256);
}

proof fn lemma_enc_mix_run(kind: nat, d: Seq<u8>, k: nat)
    requires
        k <= d.len(),
    ensures
        enc_mix(kind, d.subrange(0, k as int)) == enc_run(mix_syms(kind, d), k),
    decreases k,
{
    if k > 0 {
        lemma_enc_mix_run(kind, d, (k - 1) as nat);
        let h = d.subrange(0, k as int);
        assert(h.drop_last() =~= d.subrange(0, k - 1));
    }
}

proof fn lemma_mix_pick_sym(kind: nat, h: Seq<u8>, f: int, b: nat, s: nat)
    requires
        kind <= 1,
        h.len() <= MAX_SYMBOLS,
        s <= b < 256,
        mix_cum(kind, h, b) <= f < mix_cum(kind, h, b + 1),
    ensures
        mix_pick_from(kind, h, f, s) == b,
    decreases b - s,
{
    if s < b {
        lemma_mix_bounds(kind, h, s + 1, b);
        lemma_mix_pick_sym(kind, h, f, b, s + 1);
    }
}

proof fn lemma_dec_mix_run(kind: nat, code: Seq<u8>, d: Seq<u8>, k: nat)
    requires
        kind <= 1,
        d.len() <= MAX_SYMBOLS,
        k <= d.len(),
        bytes_bits(code) == enc_flush_bytes(enc_run(mix_syms(kind, d), d.len())),
    ensures
        dec_mix(kind, code, k) == (d.subrange(0, k as int), dec_run(code, mix_syms(kind, d), k)),
    decreases k,
{
    let syms = mix_syms(kind, d);
    if k == 0 {
        assert(d.subrange(0, 0) =~= Seq::<u8>::empty());
    } else {
        lemma_dec_mix_run(kind, code, d, (k - 1) as nat);
        assert forall|i: int| 0 <= i < syms.len() implies #[trigger] syms[i].1 >= 1 && syms[i].0 >= 0
            && syms[i].0 + syms[i].1 <= syms[i].2 <= MAX_TOTAL by {
            lemma_mix_params_exact(kind, d.subrange(0, i), d[i] as nat);
        }
        law_range_coder_roundtrip(syms, code);
        let j = k - 1;
        let h = d.subrange(0, j);
        let b = d[j] as nat;
        lemma_mix_params_exact(kind, h, b);
        lemma_mix_bounds(kind, h, b, b + 1);
        let st = dec_run(code, syms, j as nat);
        assert(syms[j].0 <= freq_of(dec_run(code, syms, j as nat), syms[j].2) < syms[j].0 + syms[j].1);
        lemma_mix_pick_sym(kind, h, freq_of(st, mix_total(kind, h)), b, 0);
        assert(d.subrange(0, k as int) =~= h.push(d[j]));
    }
}

/// Mixed-model round trip: decoding the flushed bytes of mixed models of
/// `kind` over `d` for `d.len()` symbols gives `d` back.
pub proof fn law_mix_roundtrip(kind: nat, d: Seq<u8>, code: Seq<u8>)
    requires
        kind <= 1,
        d.len() <= MAX_SYMBOLS,
        bytes_bits(code) == enc_flush_bytes(enc_mix(kind, d)),
    ensures
        dec_mix(kind, code, d.len()).0 == d,
{
    lemma_enc_mix_run(kind, d, d.len());
    assert(d.subrange(0, d.len() as int) =~= d);
    lemma_dec_mix_run(kind, code, d, d.len());
}

/// Mixed-model byte coder round trip: the stream written for `d` decodes to `d`.
pub proof fn law_mix_stream_roundtrip(kind: nat, flag: u8, d: Seq<u8>, out: Seq<u8>)
    requires
        kind <= 1,
        d.len() <= MAX_SYMBOLS,
        d.len() == 0 ==> out == model_header(flag, 0),
        d.len() > 0 ==> coded_as(out, model_header(flag, d.len()), enc_mix(kind, d)),
    ensures
        model_count_ok(out, flag),
        mix_decoded(out, flag, kind) == Ok::<Seq<u8>, ()>(d),
{
    let hdr = model_header(flag, d.len());
    crate::le::lemma_le32_roundtrip(d.len() as u32, seq![flag], Seq::<u8>::empty());
    assert(seq![flag] + le32_bytes(d.len() as u32) + Seq::<u8>::empty() =~= hdr);
    let rest = out.subrange(5, out.len() as int);
    if d.len() == 0 {
        assert(rest =~= Seq::<u8>::empty());
        assert(d =~= Seq::<u8>::empty());
        assert(le32_at(out, 1) == 0);
    } else {
        assert(out =~= hdr + rest);
        assert(le32_at(out, 1) == le32_at(hdr, 1));
        law_mix_roundtrip(kind, d, rest);
    }
}

} // verus!
