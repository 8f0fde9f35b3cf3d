//! Integer methods of std that vstd gives no specification, each behind a
//! small trusted wrapper whose contract restates the method's documentation.

use vstd::prelude::*;
use vstd::arithmetic::power2::pow2;

use crate::fastdiv::spec_floor_log2;
use crate::indexing::prefix_product;

verus! {

/// `u32::is_power_of_two`: std documents that it returns `true` if and only
/// if the value is `2^k` for some `k`.
#[verifier::external_body]
pub(crate) fn u32_is_power_of_two(x: u32) -> (r: bool)
    ensures
        r == (exists|k: nat| k < 32 && x == #[trigger] pow2(k)),
{
    x.is_power_of_two()
}

/// The least multiple of `m` that is at least `x`.
pub open spec fn round_up(x: int, m: int) -> int {
    ((x + m - 1) / m) * m
}

/// `u64::checked_next_multiple_of`: std documents it as the smallest value
/// at least `x` that is a multiple of `m`, or `None` when `m` is zero or that
/// value does not fit in `u64`.
#[verifier::external_body]
pub(crate) fn u64_checked_next_multiple_of(x: u64, m: u64) -> (r: Option<u64>)
    ensures
        r == (if m == 0 || round_up(x as int, m as int) > u64::MAX {
            None
        } else {
            Some(round_up(x as int, m as int) as u64)
        }),
{
    x.checked_next_multiple_of(m)
}

/// `u64::next_multiple_of`: std documents it as the smallest value at
/// least `x` that is a multiple of `m`; it panics for `m == 0` and
/// overflows when that value does not fit.
#[verifier::external_body]
pub(crate) fn u64_next_multiple_of(x: u64, m: u64) -> (r: u64)
    requires
        m != 0,
        round_up(x as int, m as int) <= u64::MAX,
    ensures
        r as int == round_up(x as int, m as int),
{
    x.next_multiple_of(m)
}

/// `x / m` rounded up.
pub open spec fn ceil_div(x: int, m: int) -> int {
    (x + m - 1) / m
}

/// `u32::div_ceil`: std documents it as the quotient rounded towards
/// positive infinity; it panics when the divisor is zero.
#[verifier::external_body]
pub(crate) fn u32_div_ceil(x: u32, m: u32) -> (r: u32)
    requires
        m != 0,
    ensures
        r as int == ceil_div(x as int, m as int),
{
    x.div_ceil(m)
}

/// `u32::isqrt`: std documents it as the square root rounded down.
#[verifier::external_body]
pub(crate) fn u32_isqrt(x: u32) -> (r: u32)
    ensures
        r as int * r as int <= x as int,
        (x as int) < (r as int + 1) * (r as int + 1),
{
    x.isqrt()
}

/// The product of the first `n` sizes of `s`, or `None` if some partial
/// product (taken left to right) exceeds `bound`.
pub open spec fn checked_product(s: Seq<u32>, n: int, bound: int) -> Option<int>
    decreases n,
{
    if n <= 0 {
        Some(1)
    } else {
        match checked_product(s, n - 1, bound) {
            None => None,
            Some(p) => if p * s[n - 1] > bound { None } else { Some(p * s[n - 1]) },
        }
    }
}

/// Once a partial product fails, every longer one fails.
pub proof fn lemma_checked_product_fails(s: Seq<u32>, n: int, m: int, bound: int)
    requires
        n <= m,
        checked_product(s, n, bound) is None,
    ensures
        checked_product(s, m, bound) is None,
    decreases m - n,
{
    if m > n {
        lemma_checked_product_fails(s, n, m - 1, bound);
    }
}

/// Partial products of sizes are never negative.
pub proof fn lemma_checked_product_nonneg(s: Seq<u32>, n: int, bound: int)
    ensures
        checked_product(s, n, bound) matches Some(p) ==> 0 <= p,
    decreases n,
{
    if n > 0 {
        lemma_checked_product_nonneg(s, n - 1, bound);
        if let Some(p) = checked_product(s, n - 1, bound) {
            assert(p * s[n - 1] >= 0) by (nonlinear_arith)
                requires p >= 0, s[n - 1] >= 0;
        }
    }
}

/// The least `k` with `2^k >= x` (zero for `x` at most one).
pub open spec fn spec_ceil_log2(x: nat) -> nat {
    if x <= 1 {
        0
    } else {
        spec_floor_log2((x - 1) as nat) + 1
    }
}

/// `u32::next_power_of_two`: std documents it as the smallest power of two
/// greater than or equal to the value (one for zero); it overflows above
/// `2^31`.
#[verifier::external_body]
pub(crate) fn u32_next_power_of_two(x: u32) -> (r: u32)
    requires
        x <= 0x8000_0000,
    ensures
        r as nat == pow2(spec_ceil_log2(x as nat)),
{
    x.next_power_of_two()
}

/// The product of all eight sizes of a shape.
pub open spec fn product_of_sizes(s: Seq<u32>) -> int {
    s[0] * s[1] * s[2] * s[3] * s[4] * s[5] * s[6] * s[7]
}

/// The leading product over all eight sizes is their product.
pub proof fn lemma_prefix_product_eight(s: Seq<u32>)
    ensures
        prefix_product(s, 8) == product_of_sizes(s),
{
    reveal_with_fuel(prefix_product, 9);
    assert(prefix_product(s, 1) == s[0] as int);
}

/// A checked product that succeeds is the plain product of the sizes.
pub proof fn lemma_checked_product_value(s: Seq<u32>, n: int, bound: int)
    ensures
        checked_product(s, n, bound) matches Some(p) ==> p == prefix_product(s, n) && (n > 0 ==> p <= bound),
    decreases n,
{
    if n > 0 {
        lemma_checked_product_value(s, n - 1, bound);
    }
}

/// A leading product of positive sizes never decreases as sizes are added.
pub proof fn lemma_prefix_product_grows(s: Seq<u32>, n: int)
    requires
        0 <= n <= s.len(),
        forall|i: int| 0 <= i < n ==> #[trigger] s[i] > 0,
    ensures
        prefix_product(s, n) >= 1,
        forall|k: int| 0 <= k <= n ==> #[trigger] prefix_product(s, k) <= prefix_product(s, n),
    decreases n,
{
    if n > 0 {
        lemma_prefix_product_grows(s, n - 1);
        let p = prefix_product(s, n - 1);
        assert(p <= p * s[n - 1] && p * s[n - 1] >= 1) by (nonlinear_arith)
            requires p >= 1, s[n - 1] >= 1;
    }
}

/// A checked product of positive sizes succeeds whenever the whole product
/// fits under the bound.
pub proof fn lemma_checked_product_fits(s: Seq<u32>, n: int, bound: int)
    requires
        0 <= n <= s.len(),
        forall|i: int| 0 <= i < n ==> #[trigger] s[i] > 0,
        prefix_product(s, n) <= bound,
    ensures
        checked_product(s, n, bound) == Some(prefix_product(s, n)),
    decreases n,
{
    if n > 0 {
        lemma_prefix_product_grows(s, n);
        lemma_checked_product_fits(s, n - 1, bound);
    }
}

/// Splitting a leading product: the first `a` sizes, then the next `b`.
pub proof fn lemma_prefix_product_split(s: Seq<u32>, a: int, b: int)
    requires
        0 <= a,
        0 <= b,
        a + b <= s.len(),
    ensures
        prefix_product(s, a + b) == prefix_product(s, a) * prefix_product(s.skip(a), b),
    decreases b,
{
    if b > 0 {
        lemma_prefix_product_split(s, a, b - 1);
        let x = prefix_product(s, a);
        let y = prefix_product(s.skip(a), b - 1);
        let v = s[a + b - 1] as int;
        assert(s.skip(a)[b - 1] == s[a + b - 1]);
        assert((x * y) * v == x * (y * v)) by (nonlinear_arith);
    }
}

} // verus!
