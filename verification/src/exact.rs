//! Whole numbers: where binary64 arithmetic is exact, and what its limits stand for.

use crate::double::{
    Double, SIGN_BIT, absolute, lemma_integer_exact, lemma_integer_shifted, lemma_nearest_exact,
    lemma_no_units, lemma_of_int_order, lemma_of_int_positive, lemma_units_order, of_int, signed,
};
use crate::numbers::{
    EIGHT_THOUSAND, FIFTEEN_HUNDREDTHS, FIFTH, FIFTY_THOUSAND, FIVE, HALF, HUNDRED, MILLION,
    NINE_TENTHS, ONE, QUARTER, SEVEN_TENTHS, TENTH, THOUSAND, THOUSANDTH, THREE, THREE_FIFTHS,
    THREE_HALVES, THREE_TENTHS, TWENTY_THOUSAND, TWO, TWO_FIFTHS, ZERO, num,
};
use crate::rounding::{
    HIDDEN_BIT, INFINITE_MAGNITUDE, ONE_EXPONENT, SIGNIFICAND_LIMIT, half_even,
    lemma_nearest_bounded, lemma_nearest_cancels, lemma_nearest_monotone, lemma_nearest_rounds,
    lemma_nearest_zero, lemma_rounds_to, nearest_magnitude, step_exponent,
};
use vstd::arithmetic::power2::{
    lemma_pow2_adds, lemma_pow2_pos, lemma_pow2_strictly_increases, pow2,
};
use vstd::prelude::*;

verus! {

/// Two fractions of units that lie far enough apart are not rounded to the same magnitude.
proof fn lemma_nearest_apart(n1: nat, d1: nat, n2: nat, d2: nat)
    requires
        d1 > 0,
        d2 > 0,
        (n2 * d1 - n1 * d2) * HIDDEN_BIT > n2 * d1,
        n2 >= SIGNIFICAND_LIMIT * d2,
        nearest_magnitude(n2, d2) < INFINITE_MAGNITUDE,
    ensures
        nearest_magnitude(n1, d1) < nearest_magnitude(n2, d2),
{
    let h = HIDDEN_BIT as int;
    let k1 = step_exponent(n1, d1);
    let k2 = step_exponent(n2, d2);
    let (p1, p2) = (pow2(k1) as int, pow2(k2) as int);
    let (step1, step2) = ((d1 * pow2(k1)) as int, (d2 * pow2(k2)) as int);
    let s1 = half_even(n1 as int, step1);
    let s2 = half_even(n2 as int, step2);
    let gap = n2 * d1 - n1 * d2;
    let area = (d1 * d2) as int;
    lemma_nearest_rounds(n1, d1);
    lemma_nearest_rounds(n2, d2);
    lemma_rounds_to(n1, d1, k1, s1);
    lemma_rounds_to(n2, d2, k2, s2);
    lemma_pow2_pos(k1);
    lemma_pow2_pos(k2);
    assert(n2 * d1 >= 0 && n1 * d2 >= 0) by (nonlinear_arith);
    assert(gap > 0) by (nonlinear_arith)
        requires
            gap * h > n2 * d1,
            n2 * d1 >= 0,
            h > 0,
    ;
    lemma_nearest_monotone(n1, d1, n2, d2);
    assert(area > 0) by (nonlinear_arith)
        requires
            area == d1 * d2,
            d1 > 0,
            d2 > 0,
    ;
    if k2 == 0 {
        vstd::arithmetic::power2::lemma2_to64();
        assert(d2 * pow2(0) == d2) by (nonlinear_arith)
            requires
                pow2(0) == 1,
        ;
        assert(false);
    }
    assert(n2 * d1 >= h * (p2 * area)) by (nonlinear_arith)
        requires
            n2 >= h * step2,
            step2 == d2 * p2,
            area == d1 * d2,
            d1 > 0,
    ;
    if nearest_magnitude(n1, d1) == nearest_magnitude(n2, d2) {
        assert(2 * (n2 * d1) <= (2 * s2 + 1) * (p2 * area)) by (nonlinear_arith)
            requires
                2 * n2 - 2 * (s2 * step2) <= step2,
                step2 == d2 * p2,
                area == d1 * d2,
                d1 > 0,
        ;
        assert(2 * (n1 * d2) >= (2 * s1 - 1) * (p1 * area)) by (nonlinear_arith)
            requires
                2 * n1 - 2 * (s1 * step1) >= -step1,
                step1 == d1 * p1,
                area == d1 * d2,
                d2 > 0,
        ;
        if k1 == k2 {
            assert(2 * gap <= 2 * (p2 * area)) by (nonlinear_arith)
                requires
                    s1 == s2,
                    p1 == p2,
                    gap == n2 * d1 - n1 * d2,
                    2 * (n2 * d1) <= (2 * s2 + 1) * (p2 * area),
                    2 * (n1 * d2) >= (2 * s1 - 1) * (p1 * area),
            ;
        } else if k1 < k2 {
            if s2 < h {
                assert(s2 * step2 <= h * step2 - step2) by (nonlinear_arith)
                    requires
                        s2 <= h - 1,
                        step2 >= 0,
                ;
                assert(step2 > 0) by (nonlinear_arith)
                    requires
                        step2 == d2 * p2,
                        d2 > 0,
                        p2 > 0,
                ;
            }
            assert(k2 * h >= (k1 + 1) * h && (k2 > k1 + 1 ==> k2 * h >= (k1 + 2) * h))
                by (nonlinear_arith)
                requires
                    k2 >= k1 + 1,
                    h > 0,
            ;
            assert((k1 + 1) * h == k1 * h + h && (k1 + 2) * h == k1 * h + 2 * h)
                by (nonlinear_arith);
            assert(k2 == k1 + 1 && s1 == 2 * h && s2 == h);
            vstd::arithmetic::power2::lemma_pow2_unfold(k2);
            let part = p1 * area;
            assert(part > 0) by (nonlinear_arith)
                requires
                    part == p1 * area,
                    p1 > 0,
                    area > 0,
            ;
            assert(p2 * area == 2 * part) by (nonlinear_arith)
                requires
                    p2 == 2 * p1,
                    part == p1 * area,
            ;
            assert((2 * h + 1) * (2 * part) - (2 * (2 * h) - 1) * part == 3 * part)
                by (nonlinear_arith);
            assert(2 * gap <= 3 * part);
        } else {
            vstd::arithmetic::power2::lemma_pow2_unfold(k2 + 1);
            if k2 + 1 < k1 {
                lemma_pow2_strictly_increases(k2 + 1, k1);
            }
            assert(n1 * d2 >= h * (p1 * area)) by (nonlinear_arith)
                requires
                    n1 >= h * step1,
                    step1 == d1 * p1,
                    area == d1 * d2,
                    d2 > 0,
            ;
            assert(n2 * d1 < 2 * h * (p2 * area)) by (nonlinear_arith)
                requires
                    n2 < 2 * h * step2,
                    step2 == d2 * p2,
                    area == d1 * d2,
                    d1 > 0,
            ;
            assert(2 * h * (p2 * area) <= h * (p1 * area)) by (nonlinear_arith)
                requires
                    2 * p2 <= p1,
                    area > 0,
                    h > 0,
            ;
        }
        assert(gap <= p2 * area);
        assert(gap * h <= h * (p2 * area)) by (nonlinear_arith)
            requires
                gap <= p2 * area,
                h > 0,
        ;
        assert(false);
    }
}

/// The quotient of two whole numbers is their exact quotient, rounded once.
proof fn lemma_quotient(a: int, b: int)
    requires
        0 <= a < SIGNIFICAND_LIMIT,
        0 < b < SIGNIFICAND_LIMIT,
    ensures
        of_int(a).over(of_int(b)) == signed(
            false,
            nearest_magnitude(a as nat * pow2(ONE_EXPONENT as nat), b as nat),
        ),
        nearest_magnitude(a as nat * pow2(ONE_EXPONENT as nat), b as nat) < INFINITE_MAGNITUDE,
{
    let one = pow2(ONE_EXPONENT as nat);
    let (x, y) = (of_int(a), of_int(b));
    lemma_pow2_pos(ONE_EXPONENT as nat);
    lemma_integer_exact(a);
    lemma_integer_exact(b);
    lemma_of_int_positive(b);
    lemma_of_int_order(a, a);
    let (n, d) = (a as nat * one, b as nat * one);
    assert(x.units() == n && y.units() == d);
    assert(n * one == one * (a as nat * one) && d == one * b as nat) by (nonlinear_arith)
        requires
            n == a as nat * one,
            d == b as nat * one,
    ;
    lemma_nearest_cancels(a as nat * one, b as nat, one);
    assert((a as nat * one) * 1 <= (a as nat * one) * b as nat) by (nonlinear_arith)
        requires
            b >= 1,
    ;
    lemma_nearest_monotone(a as nat * one, b as nat, a as nat * one, 1);
    lemma_nearest_bounded(a as nat * one, 1);
    assert(absolute(a) == a);
    assert(x.magnitude() == nearest_magnitude(a as nat * one, 1));
}

/// Quotients of whole numbers compare as the exact fractions do.
pub proof fn lemma_quotients_compare(a: int, b: int, p: int, q: int)
    requires
        0 <= a < SIGNIFICAND_LIMIT,
        0 < b < SIGNIFICAND_LIMIT,
        0 <= p < SIGNIFICAND_LIMIT,
        0 < q < SIGNIFICAND_LIMIT,
        p * b < HIDDEN_BIT,
    ensures
        of_int(a).over(of_int(b)).less(of_int(p).over(of_int(q))) <==> a * q < p * b,
{
    let one = pow2(ONE_EXPONENT as nat);
    let (x, y) = (of_int(a).over(of_int(b)), of_int(p).over(of_int(q)));
    lemma_quotient(a, b);
    lemma_quotient(p, q);
    lemma_pow2_pos(ONE_EXPONENT as nat);
    let (n1, d1, n2, d2) = (a as nat * one, b as nat, p as nat * one, q as nat);
    lemma_units_order(x.magnitude(), y.magnitude());
    assert(n1 * d2 == (a * q) * one && n2 * d1 == (p * b) * one) by (nonlinear_arith)
        requires
            n1 == a * one,
            n2 == p * one,
            d1 == b,
            d2 == q,
    ;
    if a * q < p * b {
        let h = HIDDEN_BIT as int;
        assert((n2 * d1 - n1 * d2) * h > n2 * d1) by (nonlinear_arith)
            requires
                n1 * d2 == (a * q) * one,
                n2 * d1 == (p * b) * one,
                a * q + 1 <= p * b < h,
                one > 0,
                h > 0,
        {
            let (u, v) = (a * q, p * b);
            assert((v * one - u * one) * h == (v - u) * h * one);
            assert((v - u) * h * one >= h * one);
            assert(h * one > v * one);
        }
        lemma_pow2_adds(53, 1021);
        lemma_pow2_adds(53, 53);
        vstd::arithmetic::power2::lemma2_to64_rest();
        lemma_pow2_strictly_increases(53, 1021);
        assert(p >= 1) by (nonlinear_arith)
            requires
                p * b > a * q,
                a >= 0,
                q > 0,
                b > 0,
                p >= 0,
        ;
        let limit = SIGNIFICAND_LIMIT as int;
        assert(n2 >= limit * d2) by (nonlinear_arith)
            requires
                n2 == p * one,
                p >= 1,
                one >= limit * limit,
                0 < d2 < limit,
        ;
        lemma_nearest_apart(n1, d1, n2, d2);
    } else {
        assert(n2 * d1 <= n1 * d2) by (nonlinear_arith)
            requires
                n1 * d2 == (a * q) * one,
                n2 * d1 == (p * b) * one,
                a * q >= p * b,
                one > 0,
        ;
        lemma_nearest_monotone(n2, d2, n1, d1);
    }
}

/// The bits of a quotient of whole numbers: `s` is `p * 2^j / q`, rounded, and has 53 bits.
proof fn lemma_fraction_bits(p: int, q: int, j: nat, s: int)
    requires
        0 < p < SIGNIFICAND_LIMIT,
        0 < q < SIGNIFICAND_LIMIT,
        j <= 64,
        HIDDEN_BIT * q <= p * pow2(j) < 2 * HIDDEN_BIT * q,
        -q <= 2 * (p * pow2(j)) - 2 * (s * q) <= q,
        2 * (p * pow2(j)) - 2 * (s * q) == q || 2 * (p * pow2(j)) - 2 * (s * q) == -q ==> s % 2
            == 0,
    ensures
        of_int(p).over(of_int(q)).bits == (ONE_EXPONENT - j) * HIDDEN_BIT + s,
{
    let h = HIDDEN_BIT as int;
    let one = pow2(ONE_EXPONENT as nat);
    let k = (ONE_EXPONENT - j) as nat;
    let (u, w) = (pow2(j) as int, pow2(k) as int);
    lemma_quotient(p, q);
    lemma_pow2_adds(j, k);
    lemma_pow2_pos(k);
    let n = p as nat * one;
    let x = p * u;
    let gap = 2 * x - 2 * (s * q);
    let step = (q as nat * pow2(k)) as int;
    assert(n == x * w && step == q * w) by (nonlinear_arith)
        requires
            n == p * one,
            one == u * w,
            x == p * u,
            step == q * w,
    ;
    assert(n < 2 * h * step && n >= h * step) by (nonlinear_arith)
        requires
            n == x * w,
            step == q * w,
            h * q <= x < 2 * h * q,
            w > 0,
    ;
    assert(2 * n - 2 * (s * step) == gap * w && -step <= gap * w <= step) by (nonlinear_arith)
        requires
            n == x * w,
            step == q * w,
            gap == 2 * x - 2 * (s * q),
            -q <= gap <= q,
            w > 0,
    ;
    assert((gap * w == step ==> gap == q) && (gap * w == -step ==> gap == -q)) by (nonlinear_arith)
        requires
            step == q * w,
            w > 0,
    ;
    lemma_rounds_to(n, q as nat, k, s);
    assert(k * h <= 1074 * h) by (nonlinear_arith)
        requires
            k <= 1074,
            h > 0,
    ;
}

/// The limits that are fractions stand for these fractions.
pub proof fn lemma_fraction_limits()
    ensures
        num(THOUSANDTH) == of_int(1).over(of_int(1000)),
        num(TENTH) == of_int(1).over(of_int(10)),
        num(FIFTEEN_HUNDREDTHS) == of_int(3).over(of_int(20)),
        num(FIFTH) == of_int(1).over(of_int(5)),
        num(QUARTER) == of_int(1).over(of_int(4)),
        num(THREE_TENTHS) == of_int(3).over(of_int(10)),
        num(TWO_FIFTHS) == of_int(2).over(of_int(5)),
        num(HALF) == of_int(1).over(of_int(2)),
        num(THREE_FIFTHS) == of_int(3).over(of_int(5)),
        num(SEVEN_TENTHS) == of_int(7).over(of_int(10)),
        num(NINE_TENTHS) == of_int(9).over(of_int(10)),
        num(THREE_HALVES) == of_int(3).over(of_int(2)),
{
    vstd::arithmetic::power2::lemma2_to64();
    vstd::arithmetic::power2::lemma2_to64_rest();
    lemma_fraction_bits(1, 1000, 62, 0x10624dd2f1a9fc);
    lemma_fraction_bits(1, 10, 56, 0x1999999999999a);
    lemma_fraction_bits(3, 20, 55, 0x13333333333333);
    lemma_fraction_bits(1, 5, 55, 0x1999999999999a);
    lemma_fraction_bits(1, 4, 54, 0x10000000000000);
    lemma_fraction_bits(3, 10, 54, 0x13333333333333);
    lemma_fraction_bits(2, 5, 54, 0x1999999999999a);
    lemma_fraction_bits(1, 2, 53, 0x10000000000000);
    lemma_fraction_bits(3, 5, 53, 0x13333333333333);
    lemma_fraction_bits(7, 10, 53, 0x16666666666666);
    lemma_fraction_bits(9, 10, 53, 0x1ccccccccccccd);
    lemma_fraction_bits(3, 2, 52, 0x18000000000000);
}

/// The limits that are whole numbers stand for these numbers.
pub proof fn lemma_whole_limits()
    ensures
        num(ZERO) == of_int(0),
        num(ONE) == of_int(1),
        num(TWO) == of_int(2),
        num(THREE) == of_int(3),
        num(FIVE) == of_int(5),
        num(HUNDRED) == of_int(100),
        num(THOUSAND) == of_int(1000),
        num(EIGHT_THOUSAND) == of_int(8000),
        num(TWENTY_THOUSAND) == of_int(20000),
        num(FIFTY_THOUSAND) == of_int(50000),
        num(MILLION) == of_int(1000000),
{
    vstd::arithmetic::power2::lemma2_to64();
    vstd::arithmetic::power2::lemma2_to64_rest();
    lemma_nearest_zero(1);
    assert(0 * pow2(ONE_EXPONENT as nat) == 0) by (nonlinear_arith);
    lemma_integer_shifted(1, 52);
    lemma_integer_shifted(2, 51);
    lemma_integer_shifted(3, 51);
    lemma_integer_shifted(5, 50);
    lemma_integer_shifted(100, 46);
    lemma_integer_shifted(1000, 43);
    lemma_integer_shifted(8000, 40);
    lemma_integer_shifted(20000, 38);
    lemma_integer_shifted(50000, 37);
    lemma_integer_shifted(1000000, 33);
}

/// Differences of whole numbers are exact.
pub proof fn lemma_whole_difference(a: int, b: int)
    requires
        -SIGNIFICAND_LIMIT < a < SIGNIFICAND_LIMIT,
        -SIGNIFICAND_LIMIT < b < SIGNIFICAND_LIMIT,
    ensures
        of_int(a).minus(of_int(b)) == of_int(a - b),
{
    let one = pow2(ONE_EXPONENT as nat);
    let d = a - b;
    lemma_pow2_pos(ONE_EXPONENT as nat);
    lemma_integer_exact(a);
    lemma_integer_exact(b);
    lemma_nearest_zero(1);
    lemma_no_units(0);
    assert(0 * one == 0) by (nonlinear_arith);
    assert(a * one - b * one == d * one) by (nonlinear_arith)
        requires
            d == a - b,
    ;
    assert(absolute(d * one) == absolute(d) * one) by {
        assert((-d) * one == -(d * one)) by (nonlinear_arith);
        assert(d >= 0 ==> d * one >= 0) by (nonlinear_arith);
        assert(d < 0 ==> d * one < 0) by (nonlinear_arith)
            requires
                one > 0,
        ;
    }
    assert((d * one < 0 <==> d < 0) && (d * one == 0 <==> d == 0)) by (nonlinear_arith)
        requires
            one > 0,
    ;
    let y = of_int(b).negated();
    assert(y.value() == -of_int(b).value());
    if a == 0 && b == 0 {
        assert(of_int(0) == signed(false, 0));
    }
}

/// A difference has the sign of the comparison, and swapping its terms reverses it.
pub proof fn lemma_difference_sign(a: Double, b: Double)
    requires
        !a.is_nan(),
        !b.is_nan(),
        a.is_finite() || b.is_finite(),
    ensures
        !a.minus(b).is_nan(),
        a.minus(b).value() == -b.minus(a).value(),
        a.less(b) <==> a.minus(b).value() < 0,
        b.less(a) <==> a.minus(b).value() > 0,
{
    let (d, e) = (a.value() - b.value(), b.value() - a.value());
    lemma_no_units(a.magnitude());
    lemma_no_units(b.magnitude());
    lemma_no_units(0);
    lemma_units_order(a.magnitude(), INFINITE_MAGNITUDE as nat);
    lemma_units_order(b.magnitude(), INFINITE_MAGNITUDE as nat);
    lemma_no_units(INFINITE_MAGNITUDE as nat);
    if a.is_finite() && b.is_finite() {
        let m = nearest_magnitude(absolute(d), 1);
        assert(absolute(d) == absolute(e));
        lemma_nearest_bounded(absolute(d), 1);
        if d != 0 {
            lemma_least_unit();
            lemma_nearest_monotone(1, 1, absolute(d), 1);
        }
        lemma_no_units(m);
    }
}

/// One unit is not rounded away.
proof fn lemma_least_unit()
    ensures
        nearest_magnitude(1, 1) == 1,
{
    vstd::arithmetic::power2::lemma2_to64();
    assert(1 * pow2(0) == 1);
    lemma_rounds_to(1, 1, 0, 1);
}

/// A product with a finite number that is one at least has the sign of the other factor.
pub proof fn lemma_scaled_sign(x: Double, c: Double)
    requires
        !x.is_nan(),
        c.is_finite(),
        !c.is_negative(),
        c.units() >= pow2(ONE_EXPONENT as nat),
    ensures
        !x.times(c).is_nan(),
        x.times(c).value() < 0 <==> x.value() < 0,
        x.times(c).value() > 0 <==> x.value() > 0,
        x.negated().times(c) == x.times(c).negated(),
{
    let one = pow2(ONE_EXPONENT as nat);
    lemma_pow2_pos(ONE_EXPONENT as nat);
    lemma_no_units(x.magnitude());
    lemma_no_units(c.magnitude());
    lemma_no_units(0);
    lemma_no_units(INFINITE_MAGNITUDE as nat);
    let m = nearest_magnitude(x.units() * c.units(), one);
    lemma_nearest_bounded(x.units() * c.units(), one);
    lemma_no_units(m);
    if x.is_finite() {
        if x.units() > 0 {
            assert(1 * one <= (x.units() * c.units()) * 1) by (nonlinear_arith)
                requires
                    x.units() >= 1,
                    c.units() >= one,
            ;
            lemma_least_unit();
            lemma_nearest_monotone(1, 1, x.units() * c.units(), one);
        } else {
            assert(x.units() * c.units() == 0) by (nonlinear_arith)
                requires
                    x.units() == 0,
            ;
            lemma_nearest_zero(one);
        }
    }
}

/// A whole number is as many times the units of one.
pub proof fn lemma_whole_units(n: int)
    requires
        1 <= n < SIGNIFICAND_LIMIT,
    ensures
        of_int(n).is_finite(),
        !of_int(n).is_negative(),
        of_int(n).units() >= pow2(ONE_EXPONENT as nat),
{
    let one = pow2(ONE_EXPONENT as nat);
    lemma_integer_exact(n);
    assert(n * one >= one) by (nonlinear_arith)
        requires
            n >= 1,
    ;
}

/// Adding negative zero changes nothing.
pub proof fn lemma_neutral(x: Double)
    requires
        !x.is_nan(),
    ensures
        (Double { bits: SIGN_BIT }).plus(x) == x,
        x.value() != 0 ==> num(ZERO).plus(x) == x,
{
    lemma_no_units(0);
    lemma_no_units(x.magnitude());
    if x.is_finite() {
        lemma_nearest_exact(x.magnitude());
        assert(absolute(x.value()) == x.units());
    }
}

/// Multiplying by one changes nothing.
pub proof fn lemma_times_one(x: Double)
    requires
        !x.is_nan(),
    ensures
        x.times(num(ONE)) == x,
{
    let one = pow2(ONE_EXPONENT as nat);
    lemma_whole_limits();
    lemma_integer_exact(1);
    lemma_no_units(x.magnitude());
    lemma_no_units(num(ONE).magnitude());
    lemma_pow2_pos(ONE_EXPONENT as nat);
    assert(1 * one == one) by (nonlinear_arith);
    assert(num(ONE).units() == one);
    if x.is_finite() {
        lemma_nearest_exact(x.magnitude());
        lemma_nearest_cancels(x.units(), 1, one);
        assert(x.units() * one == one * x.units() && one * 1 == one) by (nonlinear_arith);
    }
}

/// A whole number is not cut.
pub proof fn lemma_whole_truncated(n: int)
    requires
        -SIGNIFICAND_LIMIT < n < SIGNIFICAND_LIMIT,
    ensures
        of_int(n).truncated() == n,
{
    let one = pow2(ONE_EXPONENT as nat);
    lemma_pow2_pos(ONE_EXPONENT as nat);
    lemma_integer_exact(n);
    let units = of_int(n).units();
    assert((-n) * one == -(n * one)) by (nonlinear_arith);
    assert(units == absolute(n) * one);
    vstd::arithmetic::div_mod::lemma_div_multiples_vanish(absolute(n) as int, one as int);
    assert(one * absolute(n) == absolute(n) * one) by (nonlinear_arith);
}

/// Two numbers are the same, but perhaps for the sign of zero.
pub open spec fn same_number(a: Double, b: Double) -> bool {
    a.is_nan() == b.is_nan() && (!a.is_nan() ==> a.value() == b.value())
}

/// The same numbers have the same sums.
pub proof fn lemma_same_sum(a: Double, b: Double, x: Double)
    requires
        same_number(a, b),
    ensures
        same_number(a.plus(x), b.plus(x)),
{
    lemma_no_units(a.magnitude());
    lemma_no_units(b.magnitude());
    lemma_no_units(0);
    lemma_units_order(a.magnitude(), b.magnitude());
    lemma_no_units(INFINITE_MAGNITUDE as nat);
}

/// The same numbers compare alike and have the same quotients and products.
pub proof fn lemma_same_compares(a: Double, b: Double, x: Double)
    requires
        same_number(a, b),
    ensures
        a.less(x) == b.less(x),
        x.less(a) == x.less(b),
        a.at_most(x) == b.at_most(x),
        x.at_most(a) == x.at_most(b),
{
}

/// Dividing by one changes nothing.
pub proof fn lemma_over_one(x: Double)
    requires
        !x.is_nan(),
    ensures
        x.over(of_int(1)) == x,
{
    let one = pow2(ONE_EXPONENT as nat);
    lemma_integer_exact(1);
    lemma_of_int_positive(1);
    lemma_pow2_pos(ONE_EXPONENT as nat);
    assert(1 * one == one) by (nonlinear_arith);
    if x.is_finite() {
        lemma_nearest_exact(x.magnitude());
        lemma_nearest_cancels(x.units(), 1, one);
        assert(x.units() * one == one * x.units() && one * 1 == one) by (nonlinear_arith);
    }
}

/// The same positive number has the same bits.
pub proof fn lemma_same_positive(a: Double, b: Double)
    requires
        same_number(a, b),
        !b.is_nan(),
        b.value() > 0,
    ensures
        a == b,
{
    lemma_units_order(a.magnitude(), b.magnitude());
}

/// The same numbers have the same quotients.
pub proof fn lemma_same_quotient(a: Double, b: Double, w: Double)
    requires
        same_number(a, b),
        !w.is_nan(),
        !w.is_negative(),
        w.magnitude() > 0,
    ensures
        same_number(a.over(w), b.over(w)),
{
    lemma_no_units(a.magnitude());
    lemma_no_units(b.magnitude());
    lemma_no_units(w.magnitude());
    lemma_no_units(0);
    lemma_no_units(INFINITE_MAGNITUDE as nat);
    lemma_units_order(a.magnitude(), b.magnitude());
    if !a.is_nan() && a.value() == 0 {
        assert(0 * pow2(ONE_EXPONENT as nat) == 0) by (nonlinear_arith);
        lemma_nearest_zero(w.units());
    }
}

/// The same numbers have the same differences.
pub proof fn lemma_same_difference(a: Double, b: Double, x: Double, y: Double)
    requires
        same_number(a, b),
        same_number(x, y),
    ensures
        same_number(a.minus(x), b.minus(y)),
{
    lemma_no_units(a.magnitude());
    lemma_no_units(b.magnitude());
    lemma_no_units(x.magnitude());
    lemma_no_units(y.magnitude());
    lemma_no_units(0);
    lemma_no_units(INFINITE_MAGNITUDE as nat);
    lemma_units_order(a.magnitude(), b.magnitude());
    lemma_units_order(x.magnitude(), y.magnitude());
}

/// Quotients that are whole are exact.
pub proof fn lemma_whole_quotient(q: int, b: int)
    requires
        0 <= q < SIGNIFICAND_LIMIT,
        0 < b < SIGNIFICAND_LIMIT,
        q * b < SIGNIFICAND_LIMIT,
    ensures
        of_int(q * b).over(of_int(b)) == of_int(q),
{
    let one = pow2(ONE_EXPONENT as nat);
    let (u, v) = (q as nat, b as nat);
    assert(q * b >= 0) by (nonlinear_arith)
        requires
            q >= 0,
            b > 0,
    ;
    lemma_quotient(q * b, b);
    lemma_nearest_cancels(u * one, 1, v);
    assert((q * b) as nat * one == v * (u * one) && v * 1 == v) by (nonlinear_arith)
        requires
            u == q,
            v == b,
            q * b >= 0,
    ;
    assert(absolute(q) == u);
}

/// Products of whole numbers are exact.
pub proof fn lemma_whole_product(a: int, b: int)
    requires
        0 <= a < SIGNIFICAND_LIMIT,
        0 <= b < SIGNIFICAND_LIMIT,
        a * b < SIGNIFICAND_LIMIT,
    ensures
        of_int(a).times(of_int(b)) == of_int(a * b),
{
    let one = pow2(ONE_EXPONENT as nat);
    let (u, v) = (a as nat, b as nat);
    lemma_pow2_pos(ONE_EXPONENT as nat);
    lemma_integer_exact(a);
    lemma_integer_exact(b);
    lemma_of_int_order(a, a);
    lemma_of_int_order(b, b);
    assert(a * b >= 0) by (nonlinear_arith)
        requires
            a >= 0,
            b >= 0,
    ;
    let (x, y) = (of_int(a), of_int(b));
    assert(x.units() == u * one && y.units() == v * one);
    lemma_nearest_cancels((a * b) as nat * one, 1, one);
    assert((u * one) * (v * one) == one * ((a * b) as nat * one) && one * 1 == one)
        by (nonlinear_arith)
        requires
            u == a,
            v == b,
            a * b >= 0,
    ;
    assert(absolute(a * b) == (a * b) as nat);
}

/// Whole numbers from one on are positive.
pub proof fn lemma_positive_whole(n: int)
    requires
        0 < n < SIGNIFICAND_LIMIT,
    ensures
        !of_int(n).is_nan(),
        of_int(n).value() > 0,
{
    let one = pow2(ONE_EXPONENT as nat);
    lemma_integer_exact(n);
    lemma_pow2_pos(ONE_EXPONENT as nat);
    assert(n * one > 0) by (nonlinear_arith)
        requires
            n > 0,
            one > 0,
    ;
}

} // verus!
