//! Division by a run-time constant through a multiply-high and shifts: the
//! scheme the device side uses to split a flat element index into tensor
//! coordinates.

use vstd::prelude::*;
use vstd::arithmetic::power2::*;
use vstd::bits::*;
use vstd::arithmetic::div_mod::*;
use vstd::std_specs::bits::*;

use crate::ints::u32_is_power_of_two;

verus! {

/// 2^32 as a mathematical integer.
pub open spec fn two_pow_32() -> int {
    0x1_0000_0000
}

/// `floor(log2(x))`, with `spec_floor_log2(0) == spec_floor_log2(1) == 0`.
pub open spec fn spec_floor_log2(x: nat) -> nat
    decreases x,
{
    if x < 2 {
        0
    } else {
        1 + spec_floor_log2(x / 2)
    }
}

/// The prepared form of `divisor` that `FastDivU32::create_div` builds.
/// With `l = spec_floor_log2(divisor)`: a divisor of one divides by skipping
/// the arithmetic; a power of two `2^l` is a plain shift by `l` (split as
/// one halving and `l - 1` further shifts); any other divisor gets the
/// multiplier `floor(2^(33 + l) / divisor) + 1 - 2^32` and shift `l`.
pub open spec fn spec_create_div(divisor: u32) -> FastDivU32 {
    let l = spec_floor_log2(divisor as nat);
    if divisor == 1 {
        FastDivU32 { divisor, magic: 0, shift: 0, data: 0 }
    } else if divisor == pow2(l) {
        FastDivU32 { divisor, magic: 0, shift: (l - 1) as u32, data: 0 }
    } else {
        FastDivU32 {
            divisor,
            magic: (pow2(33 + l) / (divisor as nat) + 1 - two_pow_32()) as u32,
            shift: l as u32,
            data: 0,
        }
    }
}

/// A divisor prepared for fast division: `divisor`, its `magic` multiplier
/// and post-shift, and one free word (`data`) that the broadcast parameter
/// blocks use for their own bookkeeping.
#[derive(Clone, Copy, Debug, PartialEq, Eq, Structural)]
pub struct FastDivU32 {
    pub divisor: u32,
    pub magic: u32,
    pub shift: u32,
    pub data: u32,
}

proof fn lemma_split_product(x: int, y: int, x0: int, x1: int, y0: int, y1: int)
    by (nonlinear_arith)
    requires
        x == x1 * 65536 + x0,
        y == y1 * 65536 + y0,
    ensures
        x * y == x1 * y1 * 0x1_0000_0000 + (x1 * y0 + x0 * y1) * 65536 + x0 * y0,
{
}

proof fn lemma_half_word_product(a: int, b: int)
    by (nonlinear_arith)
    requires
        0 <= a < 65536,
        0 <= b < 65536,
    ensures
        0 <= a * b <= 65535 * 65535,
{
}

proof fn lemma_product_below(a: int, b: int)
    by (nonlinear_arith)
    requires
        0 <= a < 0x1_0000_0000,
        0 <= b < 0x1_0000_0000,
    ensures
        0 <= a * b < 0x1_0000_0000 * 0x1_0000_0000,
{
}

pub proof fn lemma_floor_log2_bounds(x: nat)
    requires
        x >= 1,
    ensures
        pow2(spec_floor_log2(x)) <= x < pow2(spec_floor_log2(x) + 1),
    decreases x,
{
    lemma_pow2_unfold(spec_floor_log2(x) + 1);
    if x >= 2 {
        lemma_floor_log2_bounds(x / 2);
        lemma_pow2_unfold(spec_floor_log2(x));
    } else {
        lemma2_to64();
    }
}

/// The exponent `l` with `2^l <= x < 2^(l + 1)` is `spec_floor_log2(x)`.
pub proof fn lemma_floor_log2_unique(x: nat, l: nat)
    requires
        pow2(l) <= x < pow2(l + 1),
    ensures
        spec_floor_log2(x) == l,
{
    lemma_pow2_pos(l);
    lemma_floor_log2_bounds(x);
    let f = spec_floor_log2(x);
    if f < l {
        lemma_pow2_increases(f + 1, l);
    } else if f > l {
        lemma_pow2_increases(l + 1, f);
    }
}

proof fn lemma_pow2_increases(a: nat, b: nat)
    requires
        a <= b,
    ensures
        pow2(a) <= pow2(b),
{
    if a < b {
        lemma_pow2_strictly_increases(a, b);
    }
}

/// `31 - leading_zeros(d)` is `spec_floor_log2(d)` for a nonzero `d`.
proof fn lemma_leading_zeros_log2(d: u32)
    requires
        d != 0,
    ensures
        u32_leading_zeros(d) < 32,
        31 - u32_leading_zeros(d) == spec_floor_log2(d as nat),
{
    axiom_u32_leading_zeros(d);
    let lz = u32_leading_zeros(d) as u32;
    let l: u32 = (31 - lz) as u32;
    let l1: u32 = (32 - lz) as u32;
    assert((d >> l) & 1u32 != 0u32);
    assert(d >> l1 == 0);
    assert(d >> l == 1) by (bit_vector)
        requires
            lz < 32,
            l == 31 - lz,
            l1 == 32 - lz,
            (d >> l) & 1u32 != 0u32,
            d >> l1 == 0,
    ;
    lemma_u32_shr_is_div(d, l);
    lemma_pow2_pos(l as nat);
    lemma_pow2_unfold(l as nat + 1);
    lemma_fundamental_div_mod(d as int, pow2(l as nat) as int);
    lemma_floor_log2_unique(d as nat, l as nat);
}

impl FastDivU32 {
    /// What `fast_div` computes: `n` itself for a divisor of one, else
    /// `((n - q) / 2 + q) >> shift` with `q` the high word of `n * magic`.
    pub open spec fn spec_fast_div(self, n: u32) -> int {
        if self.divisor == 1 {
            n as int
        } else {
            let q = (n as int * self.magic as int) / two_pow_32();
            ((n - q) / 2 + q) / (pow2(self.shift as nat) as int)
        }
    }

    /// The high 32 bits of the 64-bit product `x * y`, computed from
    /// 16-bit halves so that no intermediate leaves 32 bits.
    pub fn mul_hi_u32(x: u32, y: u32) -> (r: u32)
        ensures
            r as int == (x as int * y as int) / two_pow_32(),
    {
        let x0 = x & 0xffff;
        let x1 = x >> 16;
        let y0 = y & 0xffff;
        let y1 = y >> 16;
        assert(x0 == x % 65536 && x1 == x / 65536) by (bit_vector)
            requires x0 == x & 0xffff, x1 == x >> 16;
        assert(y0 == y % 65536 && y1 == y / 65536) by (bit_vector)
            requires y0 == y & 0xffff, y1 == y >> 16;
        proof {
            lemma_half_word_product(x0 as int, y0 as int);
            lemma_half_word_product(x1 as int, y0 as int);
            lemma_half_word_product(x0 as int, y1 as int);
            lemma_half_word_product(x1 as int, y1 as int);
        }

        let w0 = x0 * y0;
        assert((w0 >> 16) == w0 / 65536) by (bit_vector);
        let t = x1 * y0 + (w0 >> 16);
        let w1 = t & 0xffff;
        let w2 = t >> 16;
        assert(w1 == t % 65536 && w2 == t / 65536) by (bit_vector)
            requires w1 == t & 0xffff, w2 == t >> 16;
        let w1 = x0 * y1 + w1;
        assert((w1 >> 16) == w1 / 65536) by (bit_vector);

        proof {
            let ghost xy = x as int * y as int;
            lemma_split_product(x as int, y as int, x0 as int, x1 as int, y0 as int, y1 as int);
            lemma_product_below(x as int, y as int);
            let ghost hi = x1 as int * y1 as int + w2 as int + w1 as int / 65536;
            // x * y == (x1 * y1 + w2) * 2^32 + w1 * 2^16 + w0 % 2^16
            assert(xy == (x1 as int * y1 as int + w2 as int) * 0x1_0000_0000 + w1 as int * 65536
                + (w0 as int % 65536));
            assert(xy / two_pow_32() == hi);
            assert(hi < 0x1_0000_0000);
        }
        x1 * y1 + w2 + (w1 >> 16)
    }

    /// `n / self.divisor` by the prepared multiplier: the high word `q` of
    /// `n * magic`, then `(((n - q) >> 1) + q) >> shift`; a divisor of one
    /// returns `n` unchanged.
    pub fn fast_div(self, n: u32) -> (r: u32)
        requires
            self.shift < 32,
        ensures
            r as int == self.spec_fast_div(n),
    {
        if self.divisor == 1 {
            return n;
        }
        let q = Self::mul_hi_u32(n, self.magic);
        proof {
            lemma_high_word_at_most(n as int, self.magic as int);
        }
        let diff = n - q;
        let half = diff >> 1;
        assert(half == diff / 2) by (bit_vector)
            requires half == diff >> 1;
        let t = half + q;
        let r = t >> self.shift;
        proof {
            lemma_u32_shr_is_div(t, self.shift);
        }
        r
    }

    /// Prepares `divisor` for `fast_div`: see `spec_create_div`.
    pub fn create_div(divisor: u32) -> (r: FastDivU32)
        requires
            divisor != 0,
        ensures
            r == spec_create_div(divisor),
            r.shift < 32,
    {
        if divisor == 1 {
            return FastDivU32 { divisor, magic: 0, shift: 0, data: 0 };
        }
        proof {
            lemma_leading_zeros_log2(divisor);
            lemma_floor_log2_bounds(divisor as nat);
        }
        let floor_log2 = 31 - divisor.leading_zeros();
        let ghost l = floor_log2 as nat;
        proof {
            lemma2_to64();
            if l == 0 {
                assert(pow2(1) == 2);
            }
        }
        if u32_is_power_of_two(divisor) {
            proof {
                let k = choose|k: nat| k < 32 && divisor == #[trigger] pow2(k);
                lemma_pow2_unfold(k + 1);
                lemma_floor_log2_unique(divisor as nat, k);
            }
            return FastDivU32 { divisor, magic: 0, shift: floor_log2 - 1, data: 0 };
        }
        assert(divisor != pow2(l));
        let ghost dd = divisor as nat;
        proof {
            lemma_u64_pow2_no_overflow(32 + l);
            lemma_u64_shl_is_mul(1u64, (32 + floor_log2) as u64);
        }
        let numerator = 1u64 << (32 + floor_log2) as u64;
        let ghost nq = numerator as nat / dd;
        let ghost nr = numerator as nat % dd;
        proof {
            lemma_magic_parts(dd, l, nq, nr);
        }
        let mut proposed_m = (numerator / divisor as u64) as u32;
        let remainder = (numerator % divisor as u64) as u32;
        proposed_m = proposed_m.wrapping_add(proposed_m);
        let twice_remainder = remainder.wrapping_add(remainder);
        if twice_remainder >= divisor || twice_remainder < remainder {
            proposed_m = proposed_m.wrapping_add(1);
        }
        assert(proposed_m as int == pow2(33 + l) / dd - two_pow_32());
        FastDivU32 { divisor, magic: proposed_m.wrapping_add(1), shift: floor_log2, data: 0 }
    }
}

/// The high word of `n * m` never exceeds `n` when `m` fits in 32 bits.
proof fn lemma_high_word_at_most(n: int, m: int)
    requires
        0 <= n,
        0 <= m < 0x1_0000_0000,
    ensures
        (n * m) / two_pow_32() <= n,
        0 <= (n * m) / two_pow_32(),
{
    assert(0 <= n * m <= n * 0x1_0000_0000) by (nonlinear_arith)
        requires 0 <= n, 0 <= m < 0x1_0000_0000;
    lemma_div_is_ordered(n * m, n * 0x1_0000_0000, 0x1_0000_0000);
    lemma_div_by_multiple(n, 0x1_0000_0000);
    lemma_div_pos_is_pos(n * m, 0x1_0000_0000);
}

/// The quotient and remainder of `2^(32 + l)` by a divisor strictly between
/// `2^l` and `2^(l + 1)`, and how they give `floor(2^(33 + l) / d)`.
proof fn lemma_magic_parts(d: nat, l: nat, q: nat, r: nat)
    requires
        l < 32,
        pow2(l) < d < pow2(l + 1),
        q == pow2(32 + l) / d,
        r == pow2(32 + l) % d,
    ensures
        0x8000_0000 <= q < 0x1_0000_0000,
        r < d,
        pow2(33 + l) / d == 2 * q + (if 2 * r >= d { 1int } else { 0int }),
        pow2(33 + l) / d <= 0x1_FFFF_FFFE,
{
    let p = pow2(l) as int;
    let n = pow2(32 + l) as int;
    let di = d as int;
    let qi = q as int;
    let ri = r as int;
    lemma2_to64();
    lemma_pow2_adds(32, l);
    lemma_pow2_unfold(l + 1);
    lemma_pow2_unfold(33 + l);
    lemma_u32_pow2_no_overflow(l);
    assert(n == 0x1_0000_0000 * p);
    assert(pow2(33 + l) == 2 * n);
    lemma_fundamental_div_mod(n, di);
    assert(n == di * qi + ri);
    assert(0 <= ri < di);
    if qi >= 0x1_0000_0000 {
        assert(di * qi >= di * 0x1_0000_0000) by (nonlinear_arith)
            requires qi >= 0x1_0000_0000, di > 0;
        assert(false);
    }
    if qi < 0x8000_0000 {
        assert(di * qi <= di * 0x7FFF_FFFF) by (nonlinear_arith)
            requires qi <= 0x7FFF_FFFF, di > 0;
        assert(false);
    }
    assert((2 * qi + 1) * di == 2 * (di * qi) + di && (2 * qi) * di == 2 * (di * qi))
        by (nonlinear_arith);
    if 2 * ri >= di {
        lemma_fundamental_div_mod_converse_div(2 * n, di, 2 * qi + 1, 2 * ri - di);
    } else {
        lemma_fundamental_div_mod_converse_div(2 * n, di, 2 * qi, 2 * ri);
    }
    let big = (2 * n) / di;
    lemma_fundamental_div_mod(2 * n, di);
    assert(2 * n < 0x1_FFFF_FFFF * di) by (nonlinear_arith)
        requires n == 0x1_0000_0000 * p, p + 1 <= di, 0 < p, p <= 0x8000_0000int;
    if big >= 0x1_FFFF_FFFF {
        assert(di * big >= 0x1_FFFF_FFFF * di) by (nonlinear_arith)
            requires big >= 0x1_FFFF_FFFF, di > 0;
        assert(false);
    }
}

/// Rounding `k / d` up to a multiplier `m` keeps `n * m / k == n / d` as
/// long as `n * d < k`.
proof fn lemma_round_up_reciprocal(n: int, d: int, k: int, m: int)
    requires
        0 <= n,
        0 < d,
        0 < k,
        m == k / d + 1,
        n * d < k,
    ensures
        (n * m) / k == n / d,
{
    let qq = n / d;
    let rr = n % d;
    lemma_fundamental_div_mod(n, d);
    lemma_fundamental_div_mod(k, d);
    let kq = k / d;
    let kr = k % d;
    let e = d - kr;
    assert(m * d == k + e) by (nonlinear_arith)
        requires m == kq + 1, k == d * kq + kr, e == d - kr;
    assert(n * e <= n * d) by (nonlinear_arith)
        requires 0 <= n, e <= d, 0 < e;
    assert(qq * k <= n * m) by (nonlinear_arith)
        requires n == d * qq + rr, 0 <= rr, 0 <= qq, m * d == k + e, 0 < e, 0 < d, 0 < k, 0 <= n;
    assert(n * m < (qq + 1) * k) by (nonlinear_arith)
        requires n == d * qq + rr, rr < d, m * d == k + e, n * e <= n * d, n * d < k, 0 < d, 0 <= n;
    assert((qq + 1) * k == qq * k + k) by (nonlinear_arith);
    assert(qq * k == k * qq) by (nonlinear_arith);
    lemma_fundamental_div_mod_converse_div(n * m, k, qq, n * m - qq * k);
}

/// Exact division: for every nonzero divisor `d` and every `n`, the
/// prepared divisor divides exactly, `fast_div(create_div(d), n) == n / d`.
pub proof fn lemma_fast_div_exact(d: u32, n: u32)
    requires
        d != 0,
    ensures
        spec_create_div(d).spec_fast_div(n) == n as int / d as int,
{
    let f = spec_create_div(d);
    if d == 1 {
        return;
    }
    let l = spec_floor_log2(d as nat);
    lemma_floor_log2_bounds(d as nat);
    lemma2_to64();
    if l >= 32 {
        lemma_pow2_increases(32, l);
    }
    lemma_u32_pow2_no_overflow(l);
    if d == pow2(l) {
        assert(l >= 1);
        lemma_pow2_unfold(l);
        assert(f.magic == 0);
        assert((n as int * 0) / two_pow_32() == 0);
        lemma_pow2_pos((l - 1) as nat);
        lemma_div_denominator(n as int, 2, pow2((l - 1) as nat) as int);
        assert(f.spec_fast_div(n) == (n as int / 2) / (pow2((l - 1) as nat) as int));
        return;
    }
    let k = pow2(33 + l) as int;
    let q0 = k / (d as int);
    lemma_magic_parts(d as nat, l, pow2(32 + l) / (d as nat), pow2(32 + l) % (d as nat));
    let magic = q0 + 1 - two_pow_32();
    assert(f.magic as int == magic);
    let m = magic + two_pow_32();
    let q = (n as int * magic) / two_pow_32();
    lemma_high_word_at_most(n as int, magic);
    // ((n - q) / 2 + q) == (n + q) / 2
    lemma_fundamental_div_mod(n as int - q, 2);
    lemma_fundamental_div_mod_converse_div(n as int + q, 2, (n as int - q) / 2 + q, (n as int - q) % 2);
    // n + q == n * m / 2^32
    lemma_hoist_over_denominator(n as int * magic, n as int, 0x1_0000_0000);
    assert(n as int * m == n as int * magic + n as int * 0x1_0000_0000) by (nonlinear_arith)
        requires m == magic + 0x1_0000_0000;
    assert(n as int + q == (n as int * m) / two_pow_32());
    // divide by 2 * 2^l == 2^(l + 1), then by 2^32: one division by 2^(33 + l)
    lemma_pow2_pos(l);
    lemma_div_denominator(n as int + q, 2, pow2(l) as int);
    lemma_pow2_unfold(l + 1);
    lemma_pow2_adds(32, l + 1);
    assert(pow2(33 + l) == pow2(32) * pow2(l + 1));
    assert(n as int * m >= 0) by (nonlinear_arith)
        requires n >= 0, m >= 0;
    lemma_div_denominator(n as int * m, two_pow_32(), pow2(l + 1) as int);
    assert(f.spec_fast_div(n) == (n as int * m) / k);
    // n * d < 2^32 * 2^(l + 1) == 2^(33 + l)
    assert((n as int) * (d as int) < k) by (nonlinear_arith)
        requires n < 0x1_0000_0000, d < pow2(l + 1), k == 0x1_0000_0000 * pow2(l + 1), 0 <= n, 0 < d;
    lemma_round_up_reciprocal(n as int, d as int, k, m);
}

} // verus!
