//! Rounding of exact quantities to binary64 magnitudes.
//!
//! A magnitude is the bit pattern of a non-negative binary64 number. Every finite one is a whole
//! number of *units*, a unit being the smallest positive binary64 number, 2^-1074. The arithmetic
//! of `double` computes an exact fraction of units first and rounds it once, with the functions
//! of this module.

use vstd::arithmetic::power2::{
    lemma_pow2_adds, lemma_pow2_pos, lemma_pow2_strictly_increases, pow2,
};
use vstd::prelude::*;

verus! {

/// The implicit leading bit of a normal significand, 2^52.
pub const HIDDEN_BIT: u64 = 0x10_0000_0000_0000;

/// One more than the largest significand, 2^53.
pub const SIGNIFICAND_LIMIT: u64 = 0x20_0000_0000_0000;

/// The magnitude of infinity.
pub const INFINITE_MAGNITUDE: u64 = 0x7ff0_0000_0000_0000;

/// The units in one: the number 1 is 2^1074 units.
pub const ONE_EXPONENT: u32 = 1074;

/// The integer nearest to `n / d`; of two equally near ones, the even one.
pub open spec fn half_even(n: int, d: int) -> int {
    let q = n / d;
    if 2 * n < (2 * q + 1) * d || (2 * n == (2 * q + 1) * d && q % 2 == 0) {
        q
    } else {
        q + 1
    }
}

/// The least `k` such that `n / d` units, counted in steps of 2^k units, are fewer than 2^53 steps.
pub open spec fn step_exponent(n: nat, d: nat) -> nat
    decreases n - d,
{
    if d == 0 || n < SIGNIFICAND_LIMIT * d {
        0
    } else {
        1 + step_exponent(n, 2 * d)
    }
}

/// The magnitude nearest to `n / d` units, ties going to the even significand; infinity from
/// half a step beyond the largest finite magnitude on.
///
/// With steps of 2^k units, `s` steps have the magnitude `k * 2^52 + s`: for `k == 0` and small
/// `s` this is a subnormal number, else the exponent field is `k + 1` and the fraction `s - 2^52`.
pub open spec fn nearest_magnitude(n: nat, d: nat) -> nat {
    let k = step_exponent(n, d);
    let packed = k * HIDDEN_BIT + half_even(n as int, (d * pow2(k)) as int);
    if packed < INFINITE_MAGNITUDE {
        packed as nat
    } else {
        INFINITE_MAGNITUDE as nat
    }
}

/// `nearest_magnitude` of `m * 2^e` units, for an exponent of either sign.
pub open spec fn nearest_dyadic(m: nat, e: int) -> nat {
    if e >= 0 {
        nearest_magnitude(m * pow2(e as nat), 1)
    } else {
        nearest_magnitude(m, pow2((-e) as nat))
    }
}

/// `s` steps of 2^k units are the rounded value of `n / d` units.
pub open spec fn rounds_to(n: nat, d: nat, k: nat, s: int) -> bool {
    let step = d * pow2(k);
    &&& d > 0
    &&& n < SIGNIFICAND_LIMIT * step
    &&& k > 0 ==> n >= HIDDEN_BIT * step
    &&& -step <= 2 * n - 2 * (s * step) <= step
    &&& 2 * n - 2 * (s * step) == step || 2 * n - 2 * (s * step) == -step ==> s % 2 == 0
}

/// A candidate within half a step, and even if exactly half a step off, is the rounded integer.
pub proof fn lemma_half_even(n: int, d: int, s: int)
    requires
        d > 0,
        -d <= 2 * n - 2 * (s * d) <= d,
        2 * n - 2 * (s * d) == d || 2 * n - 2 * (s * d) == -d ==> s % 2 == 0,
    ensures
        half_even(n, d) == s,
{
    let q = n / d;
    vstd::arithmetic::div_mod::lemma_fundamental_div_mod(n, d);
    let r = n % d;
    assert(n == q * d + r) by (nonlinear_arith)
        requires
            n == d * q + r,
    ;
    assert((2 * q + 1) * d == 2 * (q * d) + d) by (nonlinear_arith);
    assert(0 <= r < d);
    if s < q {
        assert(s * d <= q * d - d) by (nonlinear_arith)
            requires
                s < q,
                d > 0,
        ;
    } else if s > q + 1 {
        assert(s * d >= q * d + 2 * d) by (nonlinear_arith)
            requires
                s > q + 1,
                d > 0,
        ;
    } else if s == q + 1 {
        assert(s * d == q * d + d) by (nonlinear_arith)
            requires
                s == q + 1,
        ;
    }
}

/// `step_exponent` is the only `k` for which the significand has 53 bits (or fewer at `k == 0`).
pub proof fn lemma_step_exponent(n: nat, d: nat, k: nat)
    requires
        d > 0,
        n < SIGNIFICAND_LIMIT * (d * pow2(k)),
        k > 0 ==> n >= HIDDEN_BIT * (d * pow2(k)),
    ensures
        step_exponent(n, d) == k,
    decreases k,
{
    vstd::arithmetic::power2::lemma2_to64();
    assert(d * pow2(0) == d) by (nonlinear_arith)
        requires
            pow2(0) == 1,
    ;
    if k > 0 {
        let half = (k - 1) as nat;
        vstd::arithmetic::power2::lemma_pow2_unfold(k);
        lemma_pow2_pos(half);
        assert(d * pow2(k) == (2 * d) * pow2(half)) by (nonlinear_arith)
            requires
                pow2(k) == 2 * pow2(half),
        ;
        assert((2 * d) * pow2(half) >= 2 * d) by (nonlinear_arith)
            requires
                pow2(half) >= 1,
                d > 0,
        ;
        lemma_step_exponent(n, 2 * d, half);
    }
}

pub proof fn lemma_rounds_to(n: nat, d: nat, k: nat, s: int)
    requires
        rounds_to(n, d, k, s),
    ensures
        nearest_magnitude(n, d) == (if k * HIDDEN_BIT + s < INFINITE_MAGNITUDE {
            k * HIDDEN_BIT + s
        } else {
            INFINITE_MAGNITUDE as int
        }),
        0 <= s <= SIGNIFICAND_LIMIT,
{
    let step = d * pow2(k);
    lemma_pow2_pos(k);
    assert(step > 0) by (nonlinear_arith)
        requires
            d > 0,
            pow2(k) > 0,
            step == d * pow2(k),
    ;
    lemma_step_exponent(n, d, k);
    lemma_half_even(n as int, step as int, s);
    if s < 0 {
        assert(s * step <= -step) by (nonlinear_arith)
            requires
                s < 0,
                step > 0,
        ;
    }
    if s > SIGNIFICAND_LIMIT {
        assert(s * step >= SIGNIFICAND_LIMIT * step + step) by (nonlinear_arith)
            requires
                s >= SIGNIFICAND_LIMIT + 1,
                step > 0,
        ;
    }
    assert(k * HIDDEN_BIT >= 0) by (nonlinear_arith)
        requires
            k >= 0,
    ;
}

/// Every fraction of units is rounded by `nearest_magnitude` in the sense of `rounds_to`.
pub proof fn lemma_nearest_rounds(n: nat, d: nat)
    requires
        d > 0,
    ensures
        ({
            let k = step_exponent(n, d);
            rounds_to(n, d, k, half_even(n as int, (d * pow2(k)) as int))
        }),
{
    let k = step_exponent(n, d);
    lemma_step_exponent_bounds(n, d);
    let step = (d * pow2(k)) as int;
    lemma_pow2_pos(k);
    assert(step > 0) by (nonlinear_arith)
        requires
            d > 0,
            pow2(k) > 0,
            step == d * pow2(k),
    ;
    let q = n as int / step;
    vstd::arithmetic::div_mod::lemma_fundamental_div_mod(n as int, step);
    assert((2 * q + 1) * step == 2 * (q * step) + step) by (nonlinear_arith);
    assert((q + 1) * step == q * step + step) by (nonlinear_arith);
    assert(step * q == q * step) by (nonlinear_arith);
}

proof fn lemma_step_exponent_bounds(n: nat, d: nat)
    requires
        d > 0,
    ensures
        ({
            let k = step_exponent(n, d);
            &&& n < SIGNIFICAND_LIMIT * (d * pow2(k))
            &&& k > 0 ==> n >= HIDDEN_BIT * (d * pow2(k))
        }),
    decreases n - d,
{
    vstd::arithmetic::power2::lemma2_to64();
    assert(d * pow2(0) == d && (2 * d) * pow2(0) == 2 * d) by (nonlinear_arith)
        requires
            pow2(0) == 1,
    ;
    if n >= SIGNIFICAND_LIMIT * d {
        lemma_step_exponent_bounds(n, 2 * d);
        let half = step_exponent(n, 2 * d);
        vstd::arithmetic::power2::lemma_pow2_unfold(half + 1);
        assert(d * pow2(half + 1) == (2 * d) * pow2(half)) by (nonlinear_arith)
            requires
                pow2(half + 1) == 2 * pow2(half),
        ;
    }
}

/// A fraction of units in other terms is rounded to the same magnitude.
pub proof fn lemma_nearest_cancels(n: nat, d: nat, c: nat)
    requires
        d > 0,
        c > 0,
    ensures
        nearest_magnitude(c * n, c * d) == nearest_magnitude(n, d),
{
    let k = step_exponent(n, d);
    let step = d * pow2(k);
    let s = half_even(n as int, step as int);
    lemma_nearest_rounds(n, d);
    lemma_rounds_to(n, d, k, s);
    assert((c * d) * pow2(k) == c * step) by (nonlinear_arith)
        requires
            step == d * pow2(k),
    ;
    assert(c * d > 0 && c * n < SIGNIFICAND_LIMIT * (c * step) && (k > 0 ==> c * n >= HIDDEN_BIT * (
    c * step))) by (nonlinear_arith)
        requires
            c > 0,
            d > 0,
            n < SIGNIFICAND_LIMIT * step,
            k > 0 ==> n >= HIDDEN_BIT * step,
    ;
    let gap = 2 * n - 2 * (s * step);
    assert(2 * (c * n) - 2 * (s * (c * step)) == c * gap) by (nonlinear_arith)
        requires
            gap == 2 * n - 2 * (s * step),
    ;
    assert(-(c * step) <= c * gap <= c * step && (c * gap == c * step ==> gap == step) && (c * gap
        == -(c * step) ==> gap == -step)) by (nonlinear_arith)
        requires
            c > 0,
            -step <= gap <= step,
    ;
    lemma_rounds_to(c * n, c * d, k, s);
}

/// Rounding goes no further than to infinity.
pub proof fn lemma_nearest_bounded(n: nat, d: nat)
    requires
        d > 0,
    ensures
        0 <= nearest_magnitude(n, d) <= INFINITE_MAGNITUDE,
{
    let k = step_exponent(n, d);
    lemma_nearest_rounds(n, d);
    lemma_rounds_to(n, d, k, half_even(n as int, (d * pow2(k)) as int));
}

/// Rounding keeps the order: a larger fraction of units has no smaller magnitude.
pub proof fn lemma_nearest_monotone(n1: nat, d1: nat, n2: nat, d2: nat)
    requires
        d1 > 0,
        d2 > 0,
        n1 * d2 <= n2 * d1,
    ensures
        nearest_magnitude(n1, d1) <= nearest_magnitude(n2, d2),
{
    let h = HIDDEN_BIT as int;
    let k1 = step_exponent(n1, d1);
    let k2 = step_exponent(n2, d2);
    let (p1, p2) = (pow2(k1) as int, pow2(k2) as int);
    let (step1, step2) = ((d1 * pow2(k1)) as int, (d2 * pow2(k2)) as int);
    let s1 = half_even(n1 as int, step1);
    let s2 = half_even(n2 as int, step2);
    lemma_nearest_rounds(n1, d1);
    lemma_nearest_rounds(n2, d2);
    lemma_rounds_to(n1, d1, k1, s1);
    lemma_rounds_to(n2, d2, k2, s2);
    lemma_pow2_pos(k1);
    lemma_pow2_pos(k2);
    assert(step1 > 0 && step2 > 0) by (nonlinear_arith)
        requires
            step1 == d1 * p1,
            step2 == d2 * p2,
            d1 > 0,
            d2 > 0,
            p1 > 0,
            p2 > 0,
    ;
    if k1 < k2 {
        if s2 < h {
            assert(s2 * step2 <= h * step2 - step2) by (nonlinear_arith)
                requires
                    s2 <= h - 1,
                    step2 > 0,
            ;
        }
        assert(k2 * h >= k1 * h + h) by (nonlinear_arith)
            requires
                k2 >= k1 + 1,
                h > 0,
        ;
    } else if k1 > k2 {
        vstd::arithmetic::power2::lemma_pow2_unfold(k2 + 1);
        if k2 + 1 < k1 {
            lemma_pow2_strictly_increases(k2 + 1, k1);
        }
        assert(n1 * d2 >= (h * p1) * (d1 * d2)) by (nonlinear_arith)
            requires
                n1 >= h * step1,
                step1 == d1 * p1,
                d2 > 0,
        ;
        assert(n2 * d1 < (2 * h * p2) * (d1 * d2)) by (nonlinear_arith)
            requires
                n2 < 2 * h * step2,
                step2 == d2 * p2,
                d1 > 0,
        ;
        assert((2 * h * p2) * (d1 * d2) <= (h * p1) * (d1 * d2)) by (nonlinear_arith)
            requires
                2 * p2 <= p1,
                h > 0,
                d1 > 0,
                d2 > 0,
        ;
        assert(false);
    } else if s1 > s2 {
        // The two fractions, counted in the same steps, lie on the wrong sides of a midpoint.
        assert(2 * (n1 * d2) >= (2 * s1 - 1) * p1 * (d1 * d2)) by (nonlinear_arith)
            requires
                2 * n1 - 2 * (s1 * step1) >= -step1,
                step1 == d1 * p1,
                d2 > 0,
        ;
        assert(2 * (n2 * d1) <= (2 * s2 + 1) * p1 * (d1 * d2)) by (nonlinear_arith)
            requires
                2 * n2 - 2 * (s2 * step2) <= step2,
                step2 == d2 * p1,
                d1 > 0,
        ;
        let area = p1 * (d1 * d2);
        assert(area > 0) by (nonlinear_arith)
            requires
                p1 > 0,
                d1 > 0,
                d2 > 0,
                area == p1 * (d1 * d2),
        ;
        assert((2 * s1 - 1) * p1 * (d1 * d2) == (2 * s1 - 1) * area && (2 * s2 + 1) * p1 * (d1 * d2)
            == (2 * s2 + 1) * area) by (nonlinear_arith)
            requires
                area == p1 * (d1 * d2),
        ;
        assert(s1 == s2 + 1) by (nonlinear_arith)
            requires
                s1 > s2,
                (2 * s1 - 1) * area <= (2 * s2 + 1) * area,
                area > 0,
        ;
        assert(2 * (n1 * d2) == (2 * s1 - 1) * area && 2 * (n2 * d1) == (2 * s2 + 1) * area);
        // Both are midpoints, so both were rounded to even neighbours.
        assert(2 * n1 - 2 * (s1 * step1) == -step1) by (nonlinear_arith)
            requires
                2 * (n1 * d2) == (2 * s1 - 1) * area,
                area == p1 * (d1 * d2),
                step1 == d1 * p1,
                d2 > 0,
        ;
        assert(2 * n2 - 2 * (s2 * step2) == step2) by (nonlinear_arith)
            requires
                2 * (n2 * d1) == (2 * s2 + 1) * area,
                area == p1 * (d1 * d2),
                step2 == d2 * p1,
                d1 > 0,
        ;
        assert(false);
    }
}

/// The magnitude of `s` steps of 2^k units, saturating at infinity.
pub open spec fn packed(k: nat, s: int) -> int {
    if k * HIDDEN_BIT + s < INFINITE_MAGNITUDE {
        k * HIDDEN_BIT + s
    } else {
        INFINITE_MAGNITUDE as int
    }
}

/// Rounding `m * 2^e` units where bits are dropped: `s` is `m / 2^(k - e)`, rounded.
proof fn lemma_dyadic_dropping(m: nat, e: int, len: nat, k: nat, s: int)
    requires
        len > 0,
        pow2((len - 1) as nat) <= m < pow2(len),
        k == (if len + e > 53 { len + e - 53 } else { 0 }),
        k >= e,
        ({
            let w = pow2((k - e) as nat);
            &&& -w <= 2 * m - 2 * (s * w) <= w
            &&& 2 * m - 2 * (s * w) == w || 2 * m - 2 * (s * w) == -w ==> s % 2 == 0
        }),
    ensures
        nearest_dyadic(m, e) == packed(k, s),
        0 <= s <= SIGNIFICAND_LIMIT,
{
    let drop = (k - e) as nat;
    let w = pow2(drop);
    vstd::arithmetic::power2::lemma2_to64();
    vstd::arithmetic::power2::lemma2_to64_rest();
    assert(pow2(52) == HIDDEN_BIT && pow2(53) == SIGNIFICAND_LIMIT);
    lemma_pow2_pos(drop);
    // The bounds on `m`, in steps of `w`.
    lemma_pow2_adds(53, drop);
    if len < 53 + drop {
        lemma_pow2_strictly_increases(len, 53 + drop);
    }
    assert(m < SIGNIFICAND_LIMIT * w);
    if k > 0 {
        lemma_pow2_adds(52, drop);
        assert(len - 1 == 52 + drop);
        assert(m >= HIDDEN_BIT * w);
    }
    if e >= 0 {
        let c = pow2(e as nat);
        lemma_pow2_pos(e as nat);
        lemma_pow2_adds(drop, e as nat);
        let step = pow2(k);
        assert(drop + e as nat == k);
        assert(step == w * c);
        assert(1 * pow2(k) == step);
        let gap = 2 * m - 2 * (s * w);
        assert(m * c < SIGNIFICAND_LIMIT * step && (k > 0 ==> m * c >= HIDDEN_BIT * step))
            by (nonlinear_arith)
            requires
                m < SIGNIFICAND_LIMIT * w,
                k > 0 ==> m >= HIDDEN_BIT * w,
                step == w * c,
                c > 0,
        ;
        assert(2 * (m * c) - 2 * (s * step) == gap * c) by (nonlinear_arith)
            requires
                gap == 2 * m - 2 * (s * w),
                step == w * c,
        ;
        assert(-step <= gap * c <= step && (gap * c == step ==> gap == w) && (gap * c == -step
            ==> gap == -w)) by (nonlinear_arith)
            requires
                c > 0,
                -w <= gap <= w,
                step == w * c,
        ;
        lemma_rounds_to(m * c, 1, k, s);
    } else {
        let d = pow2((-e) as nat);
        lemma_pow2_pos((-e) as nat);
        lemma_pow2_adds((-e) as nat, k);
        assert((-e) as nat + k == drop);
        lemma_rounds_to(m, d, k, s);
    }
}

/// Rounding `m * 2^e` units where nothing is lost: there are exactly `m * 2^(e - k)` steps.
proof fn lemma_dyadic_exact(m: nat, e: int, len: nat, k: nat, s: nat)
    requires
        len > 0,
        pow2((len - 1) as nat) <= m < pow2(len),
        k == (if len + e > 53 { len + e - 53 } else { 0 }),
        k <= e,
        s == m * pow2((e - k) as nat),
    ensures
        nearest_dyadic(m, e) == packed(k, s as int),
        0 <= s <= SIGNIFICAND_LIMIT,
{
    let rise = (e - k) as nat;
    vstd::arithmetic::power2::lemma2_to64();
    vstd::arithmetic::power2::lemma2_to64_rest();
    assert(pow2(52) == HIDDEN_BIT && pow2(53) == SIGNIFICAND_LIMIT);
    lemma_pow2_pos(rise);
    lemma_pow2_pos(k);
    let step = pow2(k);
    lemma_pow2_adds(rise, k);
    let up = pow2(rise);
    assert(m * pow2(e as nat) == s * step) by (nonlinear_arith)
        requires
            pow2(e as nat) == up * step,
            s == m * up,
    ;
    lemma_pow2_adds(len, rise);
    if len + rise < 53 {
        lemma_pow2_strictly_increases(len + rise, 53);
    }
    assert(s < SIGNIFICAND_LIMIT) by (nonlinear_arith)
        requires
            m < pow2(len),
            up > 0,
            s == m * up,
            pow2(len) * up <= SIGNIFICAND_LIMIT,
    ;
    if k > 0 {
        lemma_pow2_adds((len - 1) as nat, rise);
        assert((len - 1) as nat + rise == 52);
        assert(s >= HIDDEN_BIT) by (nonlinear_arith)
            requires
                m >= pow2((len - 1) as nat),
                up > 0,
                s == m * up,
                pow2((len - 1) as nat) * up == HIDDEN_BIT,
        ;
    }
    assert(s * step < SIGNIFICAND_LIMIT * step && (k > 0 ==> s * step >= HIDDEN_BIT * step))
        by (nonlinear_arith)
        requires
            s < SIGNIFICAND_LIMIT,
            k > 0 ==> s >= HIDDEN_BIT,
            step > 0,
    ;
    assert(1 * pow2(k) == step);
    lemma_rounds_to(m * pow2(e as nat), 1, k, s as int);
}

/// Nothing rounds to zero.
pub proof fn lemma_nearest_zero(d: nat)
    requires
        d > 0,
    ensures
        nearest_magnitude(0, d) == 0,
{
    vstd::arithmetic::power2::lemma2_to64();
    assert(d * pow2(0) == d) by (nonlinear_arith)
        requires
            pow2(0) == 1,
    ;
    lemma_rounds_to(0, d, 0, 0);
}

/// 2^k.
pub fn power_of_two(k: u32) -> (p: u128)
    requires
        k < 128,
    ensures
        p == pow2(k as nat),
{
    proof {
        vstd::arithmetic::power2::lemma2_to64();
    }
    let mut p: u128 = 1;
    let mut i: u32 = 0;
    while i < k
        invariant
            i <= k < 128,
            p == pow2(i as nat),
        decreases k - i,
    {
        proof {
            vstd::arithmetic::power2::lemma_pow2_unfold((i + 1) as nat);
            lemma_pow2_small(i as nat);
        }
        p = p * 2;
        i = i + 1;
    }
    p
}

/// 2^k fits in 127 bits for k < 127.
pub proof fn lemma_pow2_small(k: nat)
    requires
        k < 127,
    ensures
        pow2(k) <= 0x4000_0000_0000_0000_0000_0000_0000_0000,
{
    vstd::arithmetic::power2::lemma2_to64();
    vstd::arithmetic::power2::lemma2_to64_rest();
    lemma_pow2_adds(63, 63);
    assert(0x8000_0000_0000_0000 * 0x8000_0000_0000_0000
        == 0x4000_0000_0000_0000_0000_0000_0000_0000) by (nonlinear_arith);
    if k < 126 {
        lemma_pow2_strictly_increases(k, 126);
    }
}

/// The number of binary digits of `m`.
fn bit_length(m: u128) -> (len: u32)
    requires
        0 < m < 0x4000_0000_0000_0000_0000_0000_0000_0000,
    ensures
        0 < len <= 126,
        pow2((len - 1) as nat) <= m < pow2(len as nat),
{
    proof {
        vstd::arithmetic::power2::lemma2_to64();
        vstd::arithmetic::power2::lemma2_to64_rest();
        lemma_pow2_adds(63, 63);
        assert(0x8000_0000_0000_0000 * 0x8000_0000_0000_0000
            == 0x4000_0000_0000_0000_0000_0000_0000_0000) by (nonlinear_arith);
    }
    let mut p: u128 = 1;
    let mut len: u32 = 0;
    while p <= m
        invariant
            0 < m < 0x4000_0000_0000_0000_0000_0000_0000_0000,
            pow2(126) == 0x4000_0000_0000_0000_0000_0000_0000_0000,
            p == pow2(len as nat),
            len <= 126,
            len > 0 ==> pow2((len - 1) as nat) <= m,
            len == 0 ==> p == 1,
        decreases 126 - len,
    {
        proof {
            vstd::arithmetic::power2::lemma_pow2_unfold((len + 1) as nat);
        }
        p = p * 2;
        len = len + 1;
    }
    len
}

/// The magnitude nearest to `m * 2^e` units.
pub fn round_dyadic(m: u128, e: i32) -> (magnitude: u64)
    requires
        m < 0x4000_0000_0000_0000_0000_0000_0000_0000,
        -10_000 <= e <= 10_000,
    ensures
        magnitude == nearest_dyadic(m as nat, e as int),
        magnitude <= INFINITE_MAGNITUDE,
{
    if m == 0 {
        proof {
            if e >= 0 {
                lemma_nearest_zero(1);
                assert(0 * pow2(e as nat) == 0);
            } else {
                lemma_pow2_pos((-e) as nat);
                lemma_nearest_zero(pow2((-e) as nat));
            }
        }
        return 0;
    }
    let len = bit_length(m);
    let k: i32 = if len as i32 + e > 53 { len as i32 + e - 53 } else { 0 };
    let s: u64;
    if k <= e {
        let up = power_of_two((e - k) as u32);
        proof {
            assert(m as nat * pow2((e - k) as nat) == m * up);
            lemma_dyadic_exact(m as nat, e as int, len as nat, k as nat, (m * up) as nat);
        }
        s = (m * up) as u64;
    } else if k - e >= 127 {
        proof {
            let w = pow2((k - e) as nat);
            vstd::arithmetic::power2::lemma2_to64();
            vstd::arithmetic::power2::lemma2_to64_rest();
            lemma_pow2_adds(63, 64);
            assert(pow2(127) == 0x8000_0000_0000_0000 * 0x1_0000_0000_0000_0000);
            assert(0x8000_0000_0000_0000 * 0x1_0000_0000_0000_0000
                == 0x8000_0000_0000_0000_0000_0000_0000_0000) by (nonlinear_arith);
            if k - e > 127 {
                lemma_pow2_strictly_increases(127, (k - e) as nat);
            }
            assert(0 * w == 0);
            lemma_dyadic_dropping(m as nat, e as int, len as nat, k as nat, 0);
        }
        s = 0;
    } else {
        let w = power_of_two((k - e) as u32);
        proof {
            lemma_pow2_pos((k - e) as nat);
            lemma_pow2_small((k - e) as nat);
        }
        let q = m / w;
        let r = m % w;
        let up: bool = 2 * r > w || (2 * r == w && q % 2 == 1);
        proof {
            vstd::arithmetic::div_mod::lemma_fundamental_div_mod(m as int, w as int);
            let rounded: int = if up { q + 1 } else { q as int };
            assert(w * q == q * w) by (nonlinear_arith);
            assert((q + 1) * w == q * w + w) by (nonlinear_arith);
            lemma_dyadic_dropping(m as nat, e as int, len as nat, k as nat, rounded);
        }
        s = (if up { q + 1 } else { q }) as u64;
    }
    assert(0 <= k * HIDDEN_BIT <= 20_000 * HIDDEN_BIT) by (nonlinear_arith)
        requires
            0 <= k <= 20_000,
    ;
    let biased: u128 = k as u128 * HIDDEN_BIT as u128 + s as u128;
    if biased < INFINITE_MAGNITUDE as u128 {
        biased as u64
    } else {
        INFINITE_MAGNITUDE
    }
}

/// `m * 2^a / 2^b` units are `m * 2^(a - b)` units.
pub proof fn lemma_dyadic_fraction(m: nat, a: nat, b: nat)
    ensures
        nearest_magnitude(m * pow2(a), pow2(b)) == nearest_dyadic(m, a - b),
{
    lemma_pow2_pos(a);
    lemma_pow2_pos(b);
    if a >= b {
        let e = (a - b) as nat;
        lemma_pow2_adds(b, e);
        lemma_nearest_cancels(m * pow2(e), 1, pow2(b));
        assert(pow2(b) * (m * pow2(e)) == m * pow2(a)) by (nonlinear_arith)
            requires
                pow2(a) == pow2(b) * pow2(e),
        ;
        assert(pow2(b) * 1 == pow2(b));
    } else {
        let e = (b - a) as nat;
        lemma_pow2_adds(a, e);
        lemma_pow2_pos(e);
        lemma_nearest_cancels(m, pow2(e), pow2(a));
        assert(pow2(a) * m == m * pow2(a)) by (nonlinear_arith);
    }
}

/// The last bit of a long quotient may stand for all that follows it: `m` is `n / d`, doubled and
/// rounded down, made odd where the division leaves a remainder.
pub proof fn lemma_quotient_sticky(n: nat, d: nat, m: nat, a: nat, b: nat)
    requires
        d > 0,
        n / d >= 0x40_0000_0000_0000,
        m == 2 * (n / d) + (if n % d == 0 { 0int } else { 1 }),
    ensures
        nearest_magnitude(n * pow2(a), d * pow2(b)) == nearest_dyadic(m, a - b - 1),
{
    let q = n / d;
    vstd::arithmetic::div_mod::lemma_fundamental_div_mod(n as int, d as int);
    let pa = pow2(a);
    let pb = pow2(b);
    lemma_pow2_pos(a);
    lemma_pow2_pos(b);
    vstd::arithmetic::power2::lemma_pow2_unfold(b + 1);
    lemma_dyadic_fraction(m, a, b + 1);
    assert(nearest_dyadic(m, a - b - 1) == nearest_magnitude(m * pa, 2 * pb));
    let k = step_exponent(m * pa, 2 * pb);
    lemma_nearest_rounds(m * pa, 2 * pb);
    let s = half_even((m * pa) as int, ((2 * pb) * pow2(k)) as int);
    lemma_rounds_to(m * pa, 2 * pb, k, s);
    lemma_pow2_adds(b, k);
    let total = pow2(b + k);
    assert((2 * pb) * pow2(k) == 2 * total) by (nonlinear_arith)
        requires
            total == pb * pow2(k),
    ;
    // The step is a multiple of four times 2^a.
    if b + k < a + 2 {
        if b + k < a + 1 {
            lemma_pow2_strictly_increases(b + k, a + 1);
        }
        vstd::arithmetic::power2::lemma_pow2_unfold(a + 1);
        assert(m * pa >= 0x80_0000_0000_0000 * pa) by (nonlinear_arith)
            requires
                m >= 0x80_0000_0000_0000,
        ;
        assert(false);
    }
    let t = (b + k - a) as nat;
    let w = pow2(t);
    lemma_pow2_adds(a, t);
    assert(total == pa * w);
    vstd::arithmetic::power2::lemma_pow2_unfold(t);
    lemma_pow2_pos(t);
    let step = (2 * pb) * pow2(k);
    let odd_low = (2 * s - 1) * w;
    let odd_high = (2 * s + 1) * w;
    assert(s * step == pa * (2 * (s * w))) by (nonlinear_arith)
        requires
            step == 2 * (pa * w),
    ;
    assert(odd_low == 2 * (s * w) - w && odd_high == 2 * (s * w) + w) by (nonlinear_arith)
        requires
            odd_low == (2 * s - 1) * w,
            odd_high == (2 * s + 1) * w,
    ;
    let sw = s * w;
    assert(m * pa <= pa * odd_high && m * pa >= pa * odd_low) by (nonlinear_arith)
        requires
            2 * (m * pa) - 2 * (s * step) <= step,
            2 * (m * pa) - 2 * (s * step) >= -step,
            s * step == pa * (2 * sw),
            step == 2 * (pa * w),
            odd_low == 2 * sw - w,
            odd_high == 2 * sw + w,
    ;
    assert(odd_low <= m <= odd_high) by (nonlinear_arith)
        requires
            m * pa <= pa * odd_high,
            m * pa >= pa * odd_low,
            pa > 0,
    ;
    assert(m == odd_low || m == odd_high ==> s % 2 == 0) by {
        if m == odd_low {
            assert(2 * (m * pa) - 2 * (s * step) == -step) by (nonlinear_arith)
                requires
                    m == 2 * sw - w,
                    s * step == pa * (2 * sw),
                    step == 2 * (pa * w),
            ;
        }
        if m == odd_high {
            assert(2 * (m * pa) - 2 * (s * step) == step) by (nonlinear_arith)
                requires
                    m == 2 * sw + w,
                    s * step == pa * (2 * sw),
                    step == 2 * (pa * w),
            ;
        }
    }
    assert(m < SIGNIFICAND_LIMIT * (2 * w) && (k > 0 ==> m >= HIDDEN_BIT * (2 * w)))
        by (nonlinear_arith)
        requires
            m * pa < SIGNIFICAND_LIMIT * step,
            k > 0 ==> m * pa >= HIDDEN_BIT * step,
            step == 2 * (pa * w),
            pa > 0,
    ;
    lemma_sticky_bounds(n, d, m, w, s, k > 0);
    // Back to units.
    let big = (d * pb) * pow2(k);
    assert(big == pa * (d * w)) by (nonlinear_arith)
        requires
            big == (d * pb) * pow2(k),
            pb * pow2(k) == pa * w,
    ;
    let dw = d * w;
    let sdw = s * dw;
    assert(s * big == pa * sdw) by (nonlinear_arith)
        requires
            big == pa * dw,
            sdw == s * dw,
    ;
    let gap = 2 * n - 2 * sdw;
    assert(2 * (n * pa) - 2 * (s * big) == pa * gap) by (nonlinear_arith)
        requires
            s * big == pa * sdw,
            gap == 2 * n - 2 * sdw,
    ;
    assert(n * pa < SIGNIFICAND_LIMIT * big && (k > 0 ==> n * pa >= HIDDEN_BIT * big) && -big <= pa
        * gap <= big && (pa * gap == big ==> gap == dw) && (pa * gap == -big ==> gap == -dw))
        by (nonlinear_arith)
        requires
            big == pa * dw,
            pa > 0,
            n < SIGNIFICAND_LIMIT * dw,
            k > 0 ==> n >= HIDDEN_BIT * dw,
            -dw <= gap <= dw,
    ;
    assert(d * pb > 0) by (nonlinear_arith)
        requires
            d > 0,
            pb > 0,
    ;
    lemma_rounds_to(n * pa, d * pb, k, s);
}

proof fn lemma_sticky_bounds(n: nat, d: nat, m: nat, w: nat, s: int, full: bool)
    requires
        d > 0,
        w > 0,
        w % 2 == 0,
        m == 2 * (n / d) + (if n % d == 0 { 0int } else { 1 }),
        (2 * s - 1) * w <= m <= (2 * s + 1) * w,
        m == (2 * s - 1) * w || m == (2 * s + 1) * w ==> s % 2 == 0,
        m < SIGNIFICAND_LIMIT * (2 * w),
        full ==> m >= HIDDEN_BIT * (2 * w),
    ensures
        n < SIGNIFICAND_LIMIT * (d * w),
        full ==> n >= HIDDEN_BIT * (d * w),
        -(d * w) <= 2 * n - 2 * (s * (d * w)) <= d * w,
        2 * n - 2 * (s * (d * w)) == d * w || 2 * n - 2 * (s * (d * w)) == -(d * w) ==> s % 2 == 0,
{
    let q = (n / d) as int;
    let r = (n % d) as int;
    let sticky: int = if r == 0 { 0 } else { 1 };
    vstd::arithmetic::div_mod::lemma_fundamental_div_mod(n as int, d as int);
    assert(n == q * d + r) by (nonlinear_arith)
        requires
            n == d * q + r,
    ;
    let dw = (d * w) as int;
    let half = (w / 2) as int;
    let low = (2 * s - 1) * w;
    let high = (2 * s + 1) * w;
    assert(low == 2 * ((2 * s - 1) * half) && high == 2 * ((2 * s + 1) * half))
        by (nonlinear_arith)
        requires
            w == 2 * half,
            low == (2 * s - 1) * w,
            high == (2 * s + 1) * w,
    ;
    assert(low * d == 2 * (s * dw) - dw && high * d == 2 * (s * dw) + dw) by (nonlinear_arith)
        requires
            low == (2 * s - 1) * w,
            high == (2 * s + 1) * w,
            dw == d * w,
    ;
    let x = (2 * s - 1) * half;
    let y = (2 * s + 1) * half;
    assert(q + sticky <= y);
    assert(q >= x);
    assert(2 * n <= high * d && 2 * n >= low * d) by (nonlinear_arith)
        requires
            n == q * d + r,
            0 <= r < d,
            sticky == (if r == 0 { 0int } else { 1 }),
            q + sticky <= y,
            q >= x,
            high == 2 * y,
            low == 2 * x,
    ;
    if 2 * n == high * d {
        assert(m == high) by (nonlinear_arith)
            requires
                2 * n == high * d,
                n == q * d + r,
                0 <= r < d,
                high == 2 * y,
                d > 0,
                m == 2 * q + sticky,
                sticky == (if r == 0 { 0int } else { 1 }),
                q + sticky <= y,
        ;
    }
    if 2 * n == low * d {
        assert(m == low) by (nonlinear_arith)
            requires
                2 * n == low * d,
                n == q * d + r,
                0 <= r < d,
                low == 2 * x,
                d > 0,
                m == 2 * q + sticky,
                sticky == (if r == 0 { 0int } else { 1 }),
                q >= x,
        ;
    }
    assert(n < SIGNIFICAND_LIMIT * dw) by (nonlinear_arith)
        requires
            n == q * d + r,
            0 <= r < d,
            q + 1 <= SIGNIFICAND_LIMIT * w,
            dw == d * w,
    ;
    if full {
        assert(n >= HIDDEN_BIT * dw) by (nonlinear_arith)
            requires
                n == q * d + r,
                0 <= r < d,
                q >= HIDDEN_BIT * w,
                dw == d * w,
        ;
    }
}

/// Adding less than a quarter of a step to a normal number leaves it as it is.
pub proof fn lemma_far_operand(s: nat, k: nat, delta: int)
    requires
        HIDDEN_BIT <= s < SIGNIFICAND_LIMIT,
        k >= 2,
        -pow2((k - 2) as nat) < delta < pow2((k - 2) as nat),
        k * HIDDEN_BIT + s < INFINITE_MAGNITUDE,
    ensures
        s * pow2(k) + delta > 0,
        nearest_magnitude((s * pow2(k) + delta) as nat, 1) == k * HIDDEN_BIT + s,
{
    let quarter = pow2((k - 2) as nat);
    vstd::arithmetic::power2::lemma_pow2_unfold((k - 1) as nat);
    vstd::arithmetic::power2::lemma_pow2_unfold(k);
    let step = pow2(k);
    assert(step == 4 * quarter);
    assert(s * step >= HIDDEN_BIT * step) by (nonlinear_arith)
        requires
            s >= HIDDEN_BIT,
    ;
    let n = (s * step + delta) as nat;
    if delta >= 0 || s > HIDDEN_BIT {
        assert(s * step <= SIGNIFICAND_LIMIT * step - step) by (nonlinear_arith)
            requires
                s <= SIGNIFICAND_LIMIT - 1,
        ;
        if s > HIDDEN_BIT {
            assert(s * step >= HIDDEN_BIT * step + step) by (nonlinear_arith)
                requires
                    s >= HIDDEN_BIT + 1,
            ;
        }
        assert(1 * pow2(k) == step);
        lemma_rounds_to(n, 1, k, s as int);
    } else {
        let fine = pow2((k - 1) as nat);
        assert(1 * fine == fine);
        assert(s * step == SIGNIFICAND_LIMIT * fine) by (nonlinear_arith)
            requires
                s == HIDDEN_BIT,
                step == 2 * fine,
        ;
        lemma_rounds_to(n, 1, (k - 1) as nat, SIGNIFICAND_LIMIT as int);
    }
}

} // verus!
