//! Binary64 floating-point arithmetic on bit patterns.
//!
//! Amounts of money and ratios are binary64 numbers. Here such a number is its bit pattern, what
//! it stands for is an exact integer number of units (see `rounding`), and each operation is
//! specified as the exact result rounded once, to nearest, ties to even.

use crate::numbers::{TWO, num};
use crate::rounding::{
    HIDDEN_BIT, INFINITE_MAGNITUDE, ONE_EXPONENT, SIGNIFICAND_LIMIT, lemma_dyadic_fraction,
    lemma_far_operand,
    lemma_nearest_bounded, lemma_nearest_monotone, lemma_nearest_zero, lemma_quotient_sticky,
    lemma_rounds_to, nearest_magnitude, power_of_two, round_dyadic,
};
use vstd::arithmetic::power2::{
    lemma_pow2_adds, lemma_pow2_pos, lemma_pow2_strictly_increases, pow2,
};
use vstd::prelude::*;

verus! {

/// The sign bit.
pub const SIGN_BIT: u64 = 0x8000_0000_0000_0000;

/// The bit pattern of every "not a number" that an operation yields.
pub const QUIET_NAN: u64 = 0x7ff8_0000_0000_0000;

/// A binary64 number, as its bit pattern.
#[derive(Clone, Copy, Debug)]
pub struct Double {
    pub bits: u64,
}

/// The exact number of units of a magnitude. Infinity counts as 2^1024, above all finite ones.
pub open spec fn magnitude_units(magnitude: nat) -> nat {
    let exponent = magnitude / (HIDDEN_BIT as nat);
    let fraction = magnitude % (HIDDEN_BIT as nat);
    if exponent == 0 {
        fraction
    } else {
        (HIDDEN_BIT + fraction) as nat * pow2((exponent - 1) as nat)
    }
}

/// The number with the given sign and magnitude.
pub open spec fn signed(negative: bool, magnitude: nat) -> Double {
    Double { bits: if negative { (SIGN_BIT + magnitude) as u64 } else { magnitude as u64 } }
}

/// `i` or `-i`, whichever is not negative.
pub open spec fn absolute(i: int) -> nat {
    if i < 0 {
        (-i) as nat
    } else {
        i as nat
    }
}

impl Double {
    pub open spec fn is_negative(self) -> bool {
        self.bits >= SIGN_BIT
    }

    /// The bit pattern without its sign.
    pub open spec fn magnitude(self) -> nat {
        if self.is_negative() {
            (self.bits - SIGN_BIT) as nat
        } else {
            self.bits as nat
        }
    }

    pub open spec fn is_nan(self) -> bool {
        self.magnitude() > INFINITE_MAGNITUDE
    }

    pub open spec fn is_infinite(self) -> bool {
        self.magnitude() == INFINITE_MAGNITUDE
    }

    pub open spec fn is_finite(self) -> bool {
        self.magnitude() < INFINITE_MAGNITUDE
    }

    /// The exact size, in units.
    pub open spec fn units(self) -> nat {
        magnitude_units(self.magnitude())
    }

    /// The exact value, in units.
    pub open spec fn value(self) -> int {
        if self.is_negative() {
            -self.units()
        } else {
            self.units() as int
        }
    }
}

/// The number nearest to the integer `n`.
pub open spec fn of_int(n: int) -> Double {
    signed(n < 0, nearest_magnitude(absolute(n) * pow2(ONE_EXPONENT as nat), 1))
}

/// A finite number is `significand * 2^exponent` units.
pub struct Parts {
    pub significand: u64,
    pub exponent: u32,
}

impl Parts {
    pub open spec fn units(self) -> nat {
        self.significand as nat * pow2(self.exponent as nat)
    }

    /// The parts of a finite magnitude; a number with a positive exponent is normal.
    pub open spec fn describes(self, magnitude: nat) -> bool {
        &&& self.significand < 2 * HIDDEN_BIT
        &&& self.exponent <= 2045
        &&& self.exponent > 0 ==> self.significand >= HIDDEN_BIT
        &&& magnitude == self.exponent * HIDDEN_BIT + self.significand
        &&& self.units() == magnitude_units(magnitude)
        &&& self.significand == 0 <==> magnitude == 0
    }
}

/// Takes a finite magnitude apart.
pub fn parts(magnitude: u64) -> (p: Parts)
    requires
        magnitude < INFINITE_MAGNITUDE,
    ensures
        p.describes(magnitude as nat),
{
    let exponent = magnitude / HIDDEN_BIT;
    let fraction = magnitude % HIDDEN_BIT;
    if exponent == 0 {
        proof {
            vstd::arithmetic::power2::lemma2_to64();
            assert(fraction as nat * pow2(0) == fraction) by (nonlinear_arith)
                requires
                    pow2(0) == 1,
            ;
        }
        Parts { significand: fraction, exponent: 0 }
    } else {
        Parts { significand: HIDDEN_BIT + fraction, exponent: (exponent - 1) as u32 }
    }
}

/// A larger magnitude is a larger number.
pub proof fn lemma_units_increase(a: nat, b: nat)
    requires
        a < b,
    ensures
        magnitude_units(a) < magnitude_units(b),
{
    let h = HIDDEN_BIT as nat;
    let ea = a / h;
    let eb = b / h;
    vstd::arithmetic::power2::lemma2_to64();
    if ea == eb {
        if ea > 0 {
            let p = pow2((ea - 1) as nat);
            lemma_pow2_pos((ea - 1) as nat);
            let (fa, fb) = (a % h, b % h);
            assert((h + fa) * p < (h + fb) * p) by (nonlinear_arith)
                requires
                    fa < fb,
                    p > 0,
            ;
        }
    } else {
        assert(ea < eb);
        let pb = pow2((eb - 1) as nat);
        lemma_pow2_pos((eb - 1) as nat);
        assert((h + b % h) * pb >= h * pb && h * pb >= h) by (nonlinear_arith)
            requires
                pb >= 1,
        ;
        if ea > 0 {
            let pa = pow2((ea - 1) as nat);
            vstd::arithmetic::power2::lemma_pow2_unfold(ea);
            if ea < eb - 1 {
                lemma_pow2_strictly_increases(ea, (eb - 1) as nat);
            }
            lemma_pow2_pos((ea - 1) as nat);
            let fa = a % h;
            assert((h + fa) * pa < h * pb) by (nonlinear_arith)
                requires
                    0 <= fa < h,
                    pa > 0,
                    2 * pa <= pb,
            ;
        }
    }
}

pub proof fn lemma_units_order(a: nat, b: nat)
    ensures
        a < b <==> magnitude_units(a) < magnitude_units(b),
        a == b <==> magnitude_units(a) == magnitude_units(b),
{
    if a < b {
        lemma_units_increase(a, b);
    } else if b < a {
        lemma_units_increase(b, a);
    }
}

/// A number whose magnitude is nought counts nought units, and no other.
pub proof fn lemma_no_units(a: nat)
    ensures
        magnitude_units(a) == 0 <==> a == 0,
{
    lemma_units_order(0, a);
    assert(magnitude_units(0) == 0);
}

/// A power of two times the number of units in one: the exponent field is 1023 more than the power.
proof fn lemma_power_magnitude(k: nat)
    requires
        k <= 1022,
    ensures
        nearest_magnitude(pow2(k) * pow2(ONE_EXPONENT as nat), 1) == (1023 + k) * HIDDEN_BIT,
{
    let (n, step) = (pow2(k) * pow2(ONE_EXPONENT as nat), pow2(k + 1022));
    vstd::arithmetic::power2::lemma2_to64_rest();
    vstd::arithmetic::power2::lemma2_to64();
    lemma_pow2_adds(k, ONE_EXPONENT as nat);
    lemma_pow2_adds(52, k + 1022);
    lemma_pow2_pos(k + 1022);
    let h = HIDDEN_BIT as int;
    assert(h == pow2(52));
    assert(n == h * step);
    assert(1 * pow2(k + 1022) == step);
    lemma_rounds_to(n, 1, k + 1022, h);
    assert((k + 1022) * h + h == (1023 + k) * h) by (nonlinear_arith);
    assert((1023 + k) * h <= 2045 * h) by (nonlinear_arith)
        requires
            k <= 1022,
            h > 0,
    ;
}

/// Conversion of integers keeps their order, reaches neither zero nor infinity from between, and
/// takes one to one.
pub proof fn lemma_of_int_order(n: int, m: int)
    requires
        0 <= n <= m <= u64::MAX,
    ensures
        of_int(n).is_finite(),
        !of_int(n).is_negative(),
        of_int(n).magnitude() <= of_int(m).magnitude(),
        n > 0 ==> of_int(n).magnitude() > 0,
        of_int(1).bits == 0x3ff0_0000_0000_0000,
{
    let one = pow2(ONE_EXPONENT as nat);
    lemma_pow2_pos(ONE_EXPONENT as nat);
    vstd::arithmetic::power2::lemma2_to64();
    vstd::arithmetic::power2::lemma2_to64_rest();
    lemma_power_magnitude(0);
    lemma_power_magnitude(64);
    let limit = pow2(64);
    assert(1 <= limit);
    assert(n * one <= m * one && m * one <= limit * one && (n > 0 ==> 1 * one <= n * one))
        by (nonlinear_arith)
        requires
            0 <= n <= m <= limit,
            one > 0,
    ;
    lemma_nearest_monotone((n * one) as nat, 1, (m * one) as nat, 1);
    lemma_nearest_monotone((m * one) as nat, 1, limit * one, 1);
    if n > 0 {
        lemma_nearest_monotone(1 * one, 1, (n * one) as nat, 1);
    }
    assert(absolute(n) == n && absolute(m) == m && absolute(1) == 1);
}

/// A positive integer is converted to a positive number, if need be to infinity.
pub proof fn lemma_of_int_positive(n: int)
    requires
        n > 0,
    ensures
        !of_int(n).is_nan(),
        !of_int(n).is_negative(),
        of_int(n).magnitude() > 0,
{
    let one = pow2(ONE_EXPONENT as nat);
    lemma_power_magnitude(0);
    vstd::arithmetic::power2::lemma2_to64();
    assert(absolute(n) == n);
    assert(pow2(0) * one <= n * one) by (nonlinear_arith)
        requires
            pow2(0) == 1,
            n >= 1,
    ;
    lemma_nearest_monotone(pow2(0) * one, 1, absolute(n) * one, 1);
    lemma_nearest_bounded(absolute(n) * one, 1);
}

/// Dividing by a positive number keeps the order of what is not negative.
pub proof fn lemma_over_monotone(a: Double, b: Double, w: Double)
    requires
        !a.is_nan(),
        !b.is_nan(),
        0 <= a.value() <= b.value(),
        w.is_finite(),
        !w.is_negative(),
        w.magnitude() > 0,
    ensures
        a.over(w).at_most(b.over(w)),
{
    let one = pow2(ONE_EXPONENT as nat);
    lemma_units_order(a.magnitude(), b.magnitude());
    lemma_no_units(a.magnitude());
    lemma_no_units(b.magnitude());
    lemma_no_units(w.magnitude());
    lemma_nearest_zero(w.units());
    if b.is_finite() {
        assert((a.units() * one) * w.units() <= (b.units() * one) * w.units()) by (nonlinear_arith)
            requires
                a.units() <= b.units(),
        ;
        lemma_nearest_monotone(a.units() * one, w.units(), b.units() * one, w.units());
        lemma_nearest_bounded(b.units() * one, w.units());
    }
    lemma_nearest_bounded(a.units() * one, w.units());
    assert(0 * one == 0) by (nonlinear_arith);
    let (p, q) = (a.over(w), b.over(w));
    assert(p.magnitude() <= q.magnitude());
    lemma_units_order(p.magnitude(), q.magnitude());
    lemma_no_units(p.magnitude());
    lemma_no_units(q.magnitude());
}

/// What is not positive, divided by a positive number, is not positive.
pub proof fn lemma_quotient_sign(a: Double, w: Double)
    requires
        !w.is_negative(),
        w.magnitude() > 0,
        a.value() <= 0,
    ensures
        a.over(w).is_nan() || a.over(w).value() <= 0,
{
    let size = nearest_magnitude(a.units() * pow2(ONE_EXPONENT as nat), w.units());
    lemma_no_units(a.magnitude());
    lemma_no_units(w.magnitude());
    lemma_nearest_bounded(a.units() * pow2(ONE_EXPONENT as nat), w.units());
    if !a.is_negative() {
        assert(0 * pow2(ONE_EXPONENT as nat) == 0) by (nonlinear_arith);
        lemma_nearest_zero(w.units());
        lemma_no_units(0);
    }
}

/// The larger of two numbers is one of them and less than neither.
pub proof fn lemma_larger(a: Double, b: Double)
    requires
        !b.is_nan(),
    ensures
        a.larger(b) == a || a.larger(b) == b,
        !a.larger(b).is_nan(),
        b.at_most(a.larger(b)),
        !a.is_nan() ==> a.at_most(a.larger(b)),
{
}

/// A number times a finite number other than zero is a number.
pub proof fn lemma_times_number(a: Double, b: Double)
    requires
        !a.is_nan(),
        b.is_finite(),
        b.magnitude() > 0,
    ensures
        !a.times(b).is_nan(),
{
    lemma_pow2_pos(ONE_EXPONENT as nat);
    lemma_nearest_bounded(a.units() * b.units(), pow2(ONE_EXPONENT as nat));
}

/// The product of two numbers other than zero is a number.
pub proof fn lemma_times_nonzero(a: Double, b: Double)
    requires
        !a.is_nan(),
        !b.is_nan(),
        a.magnitude() > 0,
        b.magnitude() > 0,
    ensures
        !a.times(b).is_nan(),
{
    lemma_pow2_pos(ONE_EXPONENT as nat);
    lemma_nearest_bounded(a.units() * b.units(), pow2(ONE_EXPONENT as nat));
}

/// An integer of 53 bits, once shifted left by `shift`, is converted without rounding.
pub proof fn lemma_integer_shifted(n: nat, shift: nat)
    requires
        shift <= 52,
        HIDDEN_BIT <= n * pow2(shift) < 2 * HIDDEN_BIT,
    ensures
        of_int(n as int).bits == (ONE_EXPONENT - shift) * HIDDEN_BIT + n * pow2(shift),
        of_int(n as int).units() == n * pow2(ONE_EXPONENT as nat),
{
    let h = HIDDEN_BIT as nat;
    let k = (ONE_EXPONENT - shift) as nat;
    let (s, step, one) = (n * pow2(shift), pow2(k), pow2(ONE_EXPONENT as nat));
    lemma_pow2_adds(shift, k);
    lemma_pow2_pos(k);
    assert(n * one == s * step) by (nonlinear_arith)
        requires
            one == pow2(shift) * step,
            s == n * pow2(shift),
    ;
    assert(1 * pow2(k) == step);
    assert(s * step < 2 * h * step && s * step >= h * step) by (nonlinear_arith)
        requires
            h <= s < 2 * h,
            step > 0,
    ;
    lemma_rounds_to(n * one, 1, k, s as int);
    let magnitude = k * h + s;
    assert(k * h + 2 * h <= 1076 * h) by (nonlinear_arith)
        requires
            k <= 1074,
    ;
    assert(absolute(n as int) == n);
    let fraction = (s - h) as nat;
    assert(magnitude == (k + 1) * h + fraction) by (nonlinear_arith)
        requires
            magnitude == k * h + s,
            fraction == s - h,
    ;
    vstd::arithmetic::div_mod::lemma_fundamental_div_mod_converse(
        magnitude as int,
        h as int,
        (k + 1) as int,
        fraction as int,
    );
}

proof fn lemma_integer_from(n: nat, shift: nat)
    requires
        0 < n,
        shift <= 52,
        n * pow2(shift) < 2 * HIDDEN_BIT,
    ensures
        of_int(n as int).units() == n * pow2(ONE_EXPONENT as nat),
    decreases 52 - shift,
{
    if n * pow2(shift) >= HIDDEN_BIT {
        lemma_integer_shifted(n, shift);
    } else {
        vstd::arithmetic::power2::lemma_pow2_unfold(shift + 1);
        vstd::arithmetic::power2::lemma2_to64_rest();
        assert(n * pow2(shift + 1) == 2 * (n * pow2(shift))) by (nonlinear_arith)
            requires
                pow2(shift + 1) == 2 * pow2(shift),
        ;
        assert(n * pow2(shift) >= pow2(shift)) by (nonlinear_arith)
            requires
                n >= 1,
        ;
        lemma_integer_from(n, shift + 1);
    }
}

/// Integers of 53 bits are converted without rounding, and keep their order.
pub proof fn lemma_integer_exact(n: int)
    requires
        -SIGNIFICAND_LIMIT < n < SIGNIFICAND_LIMIT,
    ensures
        of_int(n).is_finite(),
        of_int(n).is_negative() <==> n < 0,
        of_int(n).value() == n * pow2(ONE_EXPONENT as nat),
{
    let one = pow2(ONE_EXPONENT as nat);
    let size = absolute(n);
    let magnitude = nearest_magnitude(size * one, 1);
    lemma_nearest_bounded(size * one, 1);
    assert(of_int(n) == signed(n < 0, magnitude));
    assert(of_int(n).magnitude() == magnitude);
    vstd::arithmetic::power2::lemma2_to64();
    if size > 0 {
        assert(size * pow2(0) == size) by (nonlinear_arith)
            requires
                pow2(0) == 1,
        ;
        lemma_integer_from(size, 0);
    } else {
        assert(0 * one == 0) by (nonlinear_arith);
        lemma_nearest_zero(1);
        lemma_no_units(0);
    }
    lemma_of_int_order(size as int, size as int);
    assert(absolute(size as int) == size);
    assert(of_int(size as int).magnitude() == magnitude);
    assert((-(size as int)) * one == -(size * one)) by (nonlinear_arith);
}

/// Sums of integers of 53 bits are exact.
pub proof fn lemma_integer_sum(a: int, b: int)
    requires
        -SIGNIFICAND_LIMIT < a < SIGNIFICAND_LIMIT,
        -SIGNIFICAND_LIMIT < b < SIGNIFICAND_LIMIT,
    ensures
        of_int(a).plus(of_int(b)) == of_int(a + b),
        of_int(a).less(of_int(b)) <==> a < b,
{
    let one = pow2(ONE_EXPONENT as nat);
    lemma_pow2_pos(ONE_EXPONENT as nat);
    lemma_integer_exact(a);
    lemma_integer_exact(b);
    assert(0 * one == 0) by (nonlinear_arith);
    lemma_nearest_zero(1);
    assert(a * one + b * one == (a + b) * one) by (nonlinear_arith);
    assert(absolute((a + b) * one) == absolute(a + b) * one) by {
        assert((-(a + b)) * one == -((a + b) * one)) by (nonlinear_arith);
        assert(a + b >= 0 ==> (a + b) * one >= 0) by (nonlinear_arith);
        assert(a + b < 0 ==> (a + b) * one < 0) by (nonlinear_arith)
            requires
                one > 0,
        ;
    }
    assert((a + b) * one < 0 <==> a + b < 0) by (nonlinear_arith)
        requires
            one > 0,
    ;
    assert((a + b) * one == 0 <==> a + b == 0) by (nonlinear_arith)
        requires
            one > 0,
    ;
    assert(a * one < b * one <==> a < b) by (nonlinear_arith)
        requires
            one > 0,
    ;
}

/// The steps of a finite magnitude: `s` steps of 2^k units.
proof fn lemma_steps(magnitude: nat) -> (r: (nat, nat))
    requires
        magnitude < INFINITE_MAGNITUDE,
    ensures
        ({
            let (k, s) = r;
            &&& k <= 2045
            &&& s < 2 * HIDDEN_BIT
            &&& k > 0 ==> s >= HIDDEN_BIT
            &&& magnitude == k * HIDDEN_BIT + s
            &&& magnitude_units(magnitude) == s * pow2(k)
        }),
{
    let h = HIDDEN_BIT as nat;
    vstd::arithmetic::power2::lemma2_to64();
    if magnitude < h {
        assert(magnitude * pow2(0) == magnitude) by (nonlinear_arith)
            requires
                pow2(0) == 1,
        ;
        assert(magnitude / h == 0 && magnitude % h == magnitude);
        (0, magnitude)
    } else {
        let k = (magnitude / h - 1) as nat;
        (k, h + magnitude % h)
    }
}

/// The units of `s` steps of 2^k units, where these make a magnitude.
proof fn lemma_units_of_steps(k: nat, s: nat)
    requires
        s < 2 * HIDDEN_BIT,
        k > 0 ==> s >= HIDDEN_BIT,
    ensures
        magnitude_units((k * HIDDEN_BIT + s) as nat) == s * pow2(k),
{
    let h = HIDDEN_BIT as nat;
    let magnitude = (k * h + s) as nat;
    vstd::arithmetic::power2::lemma2_to64();
    if s < h {
        assert(k * h == 0) by (nonlinear_arith)
            requires
                k == 0,
        ;
        assert(s * pow2(0) == s) by (nonlinear_arith)
            requires
                pow2(0) == 1,
        ;
        assert(magnitude / h == 0 && magnitude % h == s);
    } else {
        let fraction = (s - h) as nat;
        assert(magnitude == (k + 1) * h + fraction) by (nonlinear_arith)
            requires
                magnitude == k * h + s,
                fraction == s - h,
        ;
        vstd::arithmetic::div_mod::lemma_fundamental_div_mod_converse(
            magnitude as int,
            h as int,
            (k + 1) as int,
            fraction as int,
        );
    }
}

/// What is a number already is not rounded.
pub proof fn lemma_nearest_exact(magnitude: nat)
    requires
        magnitude < INFINITE_MAGNITUDE,
    ensures
        nearest_magnitude(magnitude_units(magnitude), 1) == magnitude,
{
    let (k, s) = lemma_steps(magnitude);
    lemma_steps_round(k, s);
}

proof fn lemma_steps_round(k: nat, s: nat)
    requires
        s < 2 * HIDDEN_BIT,
        k > 0 ==> s >= HIDDEN_BIT,
    ensures
        nearest_magnitude(s * pow2(k), 1) == (if k * HIDDEN_BIT + s < INFINITE_MAGNITUDE {
            k * HIDDEN_BIT + s
        } else {
            INFINITE_MAGNITUDE as int
        }),
{
    let (h, step) = (HIDDEN_BIT as int, pow2(k) as int);
    lemma_pow2_pos(k);
    assert(1 * pow2(k) == step);
    assert(s * step < 2 * h * step && (s >= h ==> s * step >= h * step)) by (nonlinear_arith)
        requires
            s < 2 * h,
            step > 0,
    ;
    lemma_rounds_to(s * pow2(k), 1, k, s as int);
}

/// Twice a number is exact, unless it is too large.
proof fn lemma_doubled(magnitude: nat)
    requires
        magnitude < INFINITE_MAGNITUDE,
    ensures
        ({
            let units = magnitude_units(magnitude);
            let doubled = nearest_magnitude(2 * units, 1);
            if doubled < INFINITE_MAGNITUDE {
                magnitude_units(doubled) == 2 * units
            } else {
                2 * units >= magnitude_units(INFINITE_MAGNITUDE as nat)
            }
        }),
{
    let h = HIDDEN_BIT as nat;
    let (k, s) = lemma_steps(magnitude);
    let units = magnitude_units(magnitude);
    vstd::arithmetic::power2::lemma2_to64();
    vstd::arithmetic::power2::lemma_pow2_unfold(k + 1);
    if s < h {
        assert(s * pow2(0) == s && (2 * s) * pow2(0) == 2 * s) by (nonlinear_arith)
            requires
                pow2(0) == 1,
        ;
        lemma_steps_round(0, 2 * s);
        lemma_units_of_steps(0, 2 * s);
    } else {
        assert(s * pow2(k + 1) == 2 * (s * pow2(k))) by (nonlinear_arith)
            requires
                pow2(k + 1) == 2 * pow2(k),
        ;
        lemma_steps_round(k + 1, s);
        lemma_units_of_steps(k + 1, s);
        if (k + 1) * h + s >= INFINITE_MAGNITUDE {
            assert(k + 1 == 2046) by (nonlinear_arith)
                requires
                    k <= 2045,
                    (k + 1) * h + s >= 2047 * h,
                    s < 2 * h,
            ;
            lemma_units_of_steps(2046, h);
            assert(s * pow2(2046) >= h * pow2(2046)) by (nonlinear_arith)
                requires
                    s >= h,
            ;
        }
    }
}

/// A sum that is no less than twice a number, rounded and halved, is no less than the number.
proof fn lemma_half_sum_above(v: Double, sum: int)
    requires
        v.is_finite(),
        2 * v.value() <= sum,
        nearest_magnitude(absolute(sum), 1) < INFINITE_MAGNITUDE,
    ensures
        ({
            let whole = nearest_magnitude(absolute(sum), 1);
            let half = nearest_magnitude(
                magnitude_units(whole) * pow2(ONE_EXPONENT as nat),
                2 * pow2(ONE_EXPONENT as nat),
            );
            &&& half < INFINITE_MAGNITUDE
            &&& sum >= 0 ==> v.value() <= magnitude_units(half)
            &&& sum <= 0 ==> v.value() <= -magnitude_units(half)
        }),
{
    let one = pow2(ONE_EXPONENT as nat);
    let size = absolute(sum);
    let whole = nearest_magnitude(size, 1);
    let units = magnitude_units(whole);
    let half = nearest_magnitude(units * one, 2 * one);
    let own = v.units();
    lemma_pow2_pos(ONE_EXPONENT as nat);
    lemma_nearest_exact(v.magnitude());
    lemma_nearest_exact(whole);
    lemma_doubled(v.magnitude());
    lemma_no_units(0);
    assert((units * one) * 1 <= units * (2 * one)) by (nonlinear_arith);
    lemma_nearest_monotone(units * one, 2 * one, units, 1);
    if sum > 0 && !v.is_negative() {
        lemma_nearest_monotone(2 * own, 1, size, 1);
        lemma_units_order(nearest_magnitude(2 * own, 1), whole);
        assert(own * (2 * one) <= (units * one) * 1) by (nonlinear_arith)
            requires
                2 * own <= units,
        ;
        lemma_nearest_monotone(own, 1, units * one, 2 * one);
        lemma_units_order(v.magnitude(), half);
    } else if sum <= 0 {
        lemma_nearest_monotone(size, 1, 2 * own, 1);
        lemma_units_order(whole, nearest_magnitude(2 * own, 1));
        lemma_units_order(whole, INFINITE_MAGNITUDE as nat);
        assert((units * one) * 1 <= own * (2 * one)) by (nonlinear_arith)
            requires
                units <= 2 * own,
        ;
        lemma_nearest_monotone(units * one, 2 * one, own, 1);
        lemma_units_order(half, v.magnitude());
    }
}

/// Half the sum of two numbers lies between them, unless the sum is too large to be finite or there
/// is none.
pub proof fn lemma_midpoint(a: Double, b: Double)
    requires
        a.at_most(b),
        a.is_finite() && b.is_finite() ==> a.plus(b).is_finite(),
        !a.plus(b).is_nan(),
    ensures
        a.at_most(a.plus(b).over(num(TWO))),
        a.plus(b).over(num(TWO)).at_most(b),
{
    let one = pow2(ONE_EXPONENT as nat);
    let sum = a.value() + b.value();
    let m = a.plus(b).over(num(TWO));
    lemma_pow2_adds(52, 1023);
    lemma_pow2_adds(1, 1074);
    vstd::arithmetic::power2::lemma2_to64();
    vstd::arithmetic::power2::lemma2_to64_rest();
    assert(num(TWO).units() == 2 * one);
    if a.is_finite() && b.is_finite() {
        lemma_nearest_zero(1);
        lemma_no_units(0);
        lemma_nearest_bounded(absolute(sum), 1);
        let whole = nearest_magnitude(absolute(sum), 1);
        assert(a.plus(b).magnitude() == whole);
        lemma_half_sum_above(a, sum);
        lemma_half_sum_above(b.negated(), -sum);
        assert(absolute(-sum) == absolute(sum));
    } else {
        lemma_infinite_order(a);
        lemma_infinite_order(b);
        lemma_infinite_order(m);
    }
}

/// No number exceeds infinity.
proof fn lemma_infinite_order(a: Double)
    requires
        !a.is_nan(),
    ensures
        a.units() <= magnitude_units(INFINITE_MAGNITUDE as nat),
{
    lemma_units_order(a.magnitude(), INFINITE_MAGNITUDE as nat);
}

/// A part of a whole, divided by it, is a number from zero to one.
pub proof fn lemma_part_of_whole(part: int, whole: int)
    requires
        0 <= part <= whole <= u64::MAX,
        0 < whole,
    ensures
        ({
            let r = of_int(part).over(of_int(whole));
            &&& !r.is_nan()
            &&& 0 <= r.value() <= of_int(1).value()
        }),
{
    let (a, b) = (of_int(part), of_int(whole));
    let one = pow2(ONE_EXPONENT as nat);
    lemma_of_int_order(part, whole);
    lemma_of_int_order(whole, whole);
    lemma_units_order(a.magnitude(), b.magnitude());
    lemma_no_units(b.magnitude());
    assert((a.units() * one) * 1 <= one * b.units()) by (nonlinear_arith)
        requires
            a.units() <= b.units(),
    ;
    lemma_nearest_monotone(a.units() * one, b.units(), one, 1);
    lemma_power_magnitude(0);
    vstd::arithmetic::power2::lemma2_to64();
    assert(pow2(0) * one == one) by (nonlinear_arith)
        requires
            pow2(0) == 1,
    ;
    let r = a.over(b);
    let size = nearest_magnitude(a.units() * one, b.units());
    assert(of_int(1).magnitude() == nearest_magnitude(one, 1));
    assert(r == signed(false, size));
    assert(r.magnitude() <= of_int(1).magnitude());
    lemma_units_order(r.magnitude(), of_int(1).magnitude());
}

impl Double {
    pub open spec fn spec_plus(self, other: Double) -> Double {
        if self.is_nan() || other.is_nan() {
            Double { bits: QUIET_NAN }
        } else if self.is_infinite() && other.is_infinite() && self.is_negative()
            != other.is_negative() {
            Double { bits: QUIET_NAN }
        } else if self.is_infinite() {
            self
        } else if other.is_infinite() {
            other
        } else {
            let sum = self.value() + other.value();
            if sum == 0 {
                signed(self.is_negative() && other.is_negative(), 0)
            } else {
                signed(sum < 0, nearest_magnitude(absolute(sum), 1))
            }
        }
    }

    pub open spec fn spec_negated(self) -> Double {
        signed(!self.is_negative(), self.magnitude())
    }

    pub open spec fn spec_abs(self) -> Double {
        signed(false, self.magnitude())
    }

    pub open spec fn spec_minus(self, other: Double) -> Double {
        self.spec_plus(other.spec_negated())
    }

    pub open spec fn spec_times(self, other: Double) -> Double {
        let negative = self.is_negative() != other.is_negative();
        if self.is_nan() || other.is_nan() {
            Double { bits: QUIET_NAN }
        } else if self.is_infinite() || other.is_infinite() {
            if self.magnitude() == 0 || other.magnitude() == 0 {
                Double { bits: QUIET_NAN }
            } else {
                signed(negative, INFINITE_MAGNITUDE as nat)
            }
        } else {
            signed(
                negative,
                nearest_magnitude(self.units() * other.units(), pow2(ONE_EXPONENT as nat)),
            )
        }
    }

    pub open spec fn spec_over(self, other: Double) -> Double {
        let negative = self.is_negative() != other.is_negative();
        if self.is_nan() || other.is_nan() {
            Double { bits: QUIET_NAN }
        } else if self.is_infinite() {
            if other.is_infinite() {
                Double { bits: QUIET_NAN }
            } else {
                signed(negative, INFINITE_MAGNITUDE as nat)
            }
        } else if other.is_infinite() {
            signed(negative, 0)
        } else if other.magnitude() == 0 {
            if self.magnitude() == 0 {
                Double { bits: QUIET_NAN }
            } else {
                signed(negative, INFINITE_MAGNITUDE as nat)
            }
        } else {
            signed(
                negative,
                nearest_magnitude(self.units() * pow2(ONE_EXPONENT as nat), other.units()),
            )
        }
    }

    /// `self < other`: false where either is not a number.
    pub open spec fn spec_less(self, other: Double) -> bool {
        !self.is_nan() && !other.is_nan() && self.value() < other.value()
    }

    /// `self <= other`: false where either is not a number.
    pub open spec fn spec_at_most(self, other: Double) -> bool {
        !self.is_nan() && !other.is_nan() && self.value() <= other.value()
    }

    /// The larger of two numbers; the other one where one is not a number.
    pub open spec fn spec_larger(self, other: Double) -> Double {
        if self.is_nan() || self.spec_less(other) {
            other
        } else {
            self
        }
    }

    /// The integer part, saturating at the ends of the range; zero for "not a number".
    pub open spec fn spec_truncated(self) -> i64 {
        let whole = self.units() / pow2(ONE_EXPONENT as nat);
        if self.is_nan() {
            0
        } else if self.is_negative() {
            if -whole < i64::MIN {
                i64::MIN
            } else {
                (-whole) as i64
            }
        } else {
            if whole > i64::MAX {
                i64::MAX
            } else {
                whole as i64
            }
        }
    }

    /// Whether the sign bit is set.
    pub fn negative(self) -> (r: bool)
        ensures
            r == self.is_negative(),
    {
        self.bits >= SIGN_BIT
    }

    /// The magnitude.
    pub fn unsigned(self) -> (r: u64)
        ensures
            r == self.magnitude(),
            r < SIGN_BIT,
    {
        if self.bits >= SIGN_BIT {
            self.bits - SIGN_BIT
        } else {
            self.bits
        }
    }

    fn from_parts(negative: bool, magnitude: u64) -> (r: Double)
        requires
            magnitude < SIGN_BIT,
        ensures
            r == signed(negative, magnitude as nat),
    {
        if negative {
            Double { bits: SIGN_BIT + magnitude }
        } else {
            Double { bits: magnitude }
        }
    }

    /// Whether this is "not a number".
    pub fn nan(self) -> (r: bool)
        ensures
            r == self.is_nan(),
    {
        self.unsigned() > INFINITE_MAGNITUDE
    }

    /// The number nearest to an integer.
    pub fn from_i64(n: i64) -> (r: Double)
        ensures
            r == of_int(n as int),
    {
        let negative = n < 0;
        let size: u128 = if negative { (-(n as i128)) as u128 } else { n as u128 };
        Double::from_parts(negative, round_dyadic(size, 1074))
    }

    /// The number nearest to a count.
    pub fn from_usize(n: usize) -> (r: Double)
        ensures
            r == of_int(n as int),
    {
        Double::from_parts(false, round_dyadic(n as u128, 1074))
    }

    /// `-self`.
    #[verifier::when_used_as_spec(spec_negated)]
    pub fn negated(self) -> (r: Double)
        ensures
            r == self.spec_negated(),
    {
        Double::from_parts(!self.negative(), self.unsigned())
    }

    /// The absolute value.
    #[verifier::when_used_as_spec(spec_abs)]
    pub fn abs(self) -> (r: Double)
        ensures
            r == self.spec_abs(),
    {
        Double::from_parts(false, self.unsigned())
    }

    /// `self < other`.
    #[verifier::when_used_as_spec(spec_less)]
    pub fn less(self, other: Double) -> (r: bool)
        ensures
            r == self.spec_less(other),
    {
        let x = self.unsigned();
        let y = other.unsigned();
        proof {
            lemma_units_order(x as nat, y as nat);
            lemma_no_units(x as nat);
            lemma_no_units(y as nat);
        }
        if self.nan() || other.nan() {
            false
        } else if self.negative() {
            if other.negative() {
                y < x
            } else {
                x > 0 || y > 0
            }
        } else {
            !other.negative() && x < y
        }
    }

    /// `self <= other`.
    #[verifier::when_used_as_spec(spec_at_most)]
    pub fn at_most(self, other: Double) -> (r: bool)
        ensures
            r == self.spec_at_most(other),
    {
        !self.nan() && !other.nan() && !other.less(self)
    }

    /// The larger of two numbers.
    #[verifier::when_used_as_spec(spec_larger)]
    pub fn larger(self, other: Double) -> (r: Double)
        ensures
            r == self.spec_larger(other),
    {
        if self.nan() || self.less(other) {
            other
        } else {
            self
        }
    }

    /// The integer part.
    #[verifier::when_used_as_spec(spec_truncated)]
    pub fn truncated(self) -> (r: i64)
        ensures
            r == self.spec_truncated(),
    {
        let magnitude = self.unsigned();
        if self.nan() {
            return 0;
        }
        let whole: u64 = whole_part(magnitude);
        if self.negative() {
            if whole >= 0x8000_0000_0000_0000 {
                i64::MIN
            } else {
                -(whole as i64)
            }
        } else {
            if whole >= 0x8000_0000_0000_0000 {
                i64::MAX
            } else {
                whole as i64
            }
        }
    }

    /// `self * other`, rounded.
    #[verifier::when_used_as_spec(spec_times)]
    pub fn times(self, other: Double) -> (r: Double)
        ensures
            r == self.spec_times(other),
    {
        let negative = self.negative() != other.negative();
        let x = self.unsigned();
        let y = other.unsigned();
        if x > INFINITE_MAGNITUDE || y > INFINITE_MAGNITUDE {
            return Double { bits: QUIET_NAN };
        }
        if x == INFINITE_MAGNITUDE || y == INFINITE_MAGNITUDE {
            return if x == 0 || y == 0 {
                Double { bits: QUIET_NAN }
            } else {
                Double::from_parts(negative, INFINITE_MAGNITUDE)
            };
        }
        let p = parts(x);
        let q = parts(y);
        proof {
            let (m, n) = (p.significand as nat, q.significand as nat);
            let (j, k) = (p.exponent as nat, q.exponent as nat);
            lemma_pow2_adds(j, k);
            assert((m * pow2(j)) * (n * pow2(k)) == (m * n) * pow2(j + k)) by (nonlinear_arith)
                requires
                    pow2(j + k) == pow2(j) * pow2(k),
            ;
            lemma_dyadic_fraction(m * n, j + k, ONE_EXPONENT as nat);
            assert(m * n < 0x4000_0000_0000_0000_0000_0000_0000_0000) by (nonlinear_arith)
                requires
                    m < 0x20_0000_0000_0000,
                    n < 0x20_0000_0000_0000,
            ;
        }
        let product: u128 = p.significand as u128 * q.significand as u128;
        let exponent: i32 = p.exponent as i32 + q.exponent as i32 - 1074;
        Double::from_parts(negative, round_dyadic(product, exponent))
    }

    /// `self / other`, rounded.
    #[verifier::when_used_as_spec(spec_over)]
    pub fn over(self, other: Double) -> (r: Double)
        ensures
            r == self.spec_over(other),
    {
        let negative = self.negative() != other.negative();
        let x = self.unsigned();
        let y = other.unsigned();
        if x > INFINITE_MAGNITUDE || y > INFINITE_MAGNITUDE {
            return Double { bits: QUIET_NAN };
        }
        if x == INFINITE_MAGNITUDE {
            return if y == INFINITE_MAGNITUDE {
                Double { bits: QUIET_NAN }
            } else {
                Double::from_parts(negative, INFINITE_MAGNITUDE)
            };
        }
        if y == INFINITE_MAGNITUDE {
            return Double::from_parts(negative, 0);
        }
        if y == 0 {
            return if x == 0 {
                Double { bits: QUIET_NAN }
            } else {
                Double::from_parts(negative, INFINITE_MAGNITUDE)
            };
        }
        Double::from_parts(negative, divide_magnitudes(x, y))
    }

    /// `self + other`, rounded.
    #[verifier::when_used_as_spec(spec_plus)]
    pub fn plus(self, other: Double) -> (r: Double)
        ensures
            r == self.spec_plus(other),
    {
        let x = self.unsigned();
        let y = other.unsigned();
        if x > INFINITE_MAGNITUDE || y > INFINITE_MAGNITUDE {
            return Double { bits: QUIET_NAN };
        }
        if x == INFINITE_MAGNITUDE {
            return if y == INFINITE_MAGNITUDE && self.negative() != other.negative() {
                Double { bits: QUIET_NAN }
            } else {
                self
            };
        }
        if y == INFINITE_MAGNITUDE {
            return other;
        }
        if x < y {
            add_finite(other, self)
        } else {
            add_finite(self, other)
        }
    }

    /// `self - other`, rounded.
    #[verifier::when_used_as_spec(spec_minus)]
    pub fn minus(self, other: Double) -> (r: Double)
        ensures
            r == self.spec_minus(other),
    {
        self.plus(other.negated())
    }
}

/// The integer part of a magnitude that is a number, capped at 2^63.
fn whole_part(magnitude: u64) -> (whole: u64)
    requires
        magnitude <= INFINITE_MAGNITUDE,
    ensures
        ({
            let exact = magnitude_units(magnitude as nat) / pow2(ONE_EXPONENT as nat);
            if exact < 0x8000_0000_0000_0000 {
                whole == exact
            } else {
                whole == 0x8000_0000_0000_0000u64
            }
        }),
{
    let one = ONE_EXPONENT;
    proof {
        lemma_pow2_pos(1074);
        vstd::arithmetic::power2::lemma2_to64();
        vstd::arithmetic::power2::lemma2_to64_rest();
    }
    if magnitude >= 0x43e0_0000_0000_0000 {
        proof {
            // 2^63 and above.
            let floor = 0x43e0_0000_0000_0000nat;
            if magnitude > floor {
                lemma_units_increase(floor, magnitude as nat);
            }
            assert(floor / (HIDDEN_BIT as nat) == 1086 && floor % (HIDDEN_BIT as nat) == 0);
            lemma_pow2_adds(52, 1085);
            lemma_pow2_adds(63, 1074);
            assert(magnitude_units(floor) == pow2(1137));
            assert(pow2(1137) == 0x8000_0000_0000_0000 * pow2(1074));
            vstd::arithmetic::div_mod::lemma_div_is_ordered(
                pow2(1137) as int,
                magnitude_units(magnitude as nat) as int,
                pow2(1074) as int,
            );
            vstd::arithmetic::div_mod::lemma_div_by_multiple(
                0x8000_0000_0000_0000,
                pow2(1074) as int,
            );
        }
        return 0x8000_0000_0000_0000;
    }
    let p = parts(magnitude);
    let ghost m = p.significand as nat;
    let ghost unit = pow2(1074);
    assert(p.exponent <= 1085);
    if p.exponent >= one {
        let rise = p.exponent - one;
        let up = power_of_two(rise);
        proof {
            lemma_pow2_adds(1074, rise as nat);
            if rise < 11 {
                lemma_pow2_strictly_increases(rise as nat, 11);
            }
            assert(m * up < 0x1_0000_0000_0000_0000) by (nonlinear_arith)
                requires
                    m < 0x20_0000_0000_0000,
                    up <= 0x800,
            ;
            assert(p.units() == (m * up) * unit) by (nonlinear_arith)
                requires
                    p.units() == m * pow2(p.exponent as nat),
                    pow2(p.exponent as nat) == unit * up,
            ;
            vstd::arithmetic::div_mod::lemma_div_by_multiple((m * up) as int, unit as int);
            // Below 2^63.
            lemma_units_increase(magnitude as nat, 0x43e0_0000_0000_0000);
            let floor = 0x43e0_0000_0000_0000nat;
            assert(floor / (HIDDEN_BIT as nat) == 1086 && floor % (HIDDEN_BIT as nat) == 0);
            lemma_pow2_adds(52, 1085);
            lemma_pow2_adds(63, 1074);
            assert((m * up) * unit < 0x8000_0000_0000_0000 * unit);
            assert(m * up < 0x8000_0000_0000_0000) by (nonlinear_arith)
                requires
                    (m * up) * unit < 0x8000_0000_0000_0000 * unit,
                    unit > 0,
            ;
        }
        (p.significand as u128 * up) as u64
    } else {
        let drop = one - p.exponent;
        if drop >= 64 {
            proof {
                lemma_pow2_adds(drop as nat, p.exponent as nat);
                if drop > 64 {
                    lemma_pow2_strictly_increases(64, drop as nat);
                }
                lemma_pow2_pos(p.exponent as nat);
                assert(p.units() < unit) by (nonlinear_arith)
                    requires
                        p.units() == m * pow2(p.exponent as nat),
                        unit == pow2(drop as nat) * pow2(p.exponent as nat),
                        m < pow2(drop as nat),
                        pow2(p.exponent as nat) > 0,
                ;
                vstd::arithmetic::div_mod::lemma_basic_div(p.units() as int, unit as int);
            }
            0
        } else {
            let down = power_of_two(drop);
            proof {
                lemma_pow2_adds(p.exponent as nat, drop as nat);
                lemma_pow2_pos(p.exponent as nat);
                lemma_pow2_pos(drop as nat);
                let c = pow2(p.exponent as nat) as int;
                vstd::arithmetic::div_mod::lemma_truncate_middle(m as int, c, down as int);
                assert(p.units() == c * m) by (nonlinear_arith)
                    requires
                        p.units() == m * c,
                ;
                vstd::arithmetic::div_mod::lemma_div_denominator(
                    p.units() as int,
                    c,
                    down as int,
                );
                vstd::arithmetic::div_mod::lemma_div_multiples_vanish(m as int, c);
                assert(m as int / down as int <= m) by (nonlinear_arith)
                    requires
                        down >= 1,
                        m >= 0,
                ;
            }
            (p.significand as u128 / down) as u64
        }
    }
}

/// The magnitude of a quotient.
fn divide_magnitudes(x: u64, y: u64) -> (r: u64)
    requires
        x < INFINITE_MAGNITUDE,
        0 < y < INFINITE_MAGNITUDE,
    ensures
        r == nearest_magnitude(
            magnitude_units(x as nat) * pow2(ONE_EXPONENT as nat),
            magnitude_units(y as nat),
        ),
        r <= INFINITE_MAGNITUDE,
{
    let p = parts(x);
    let q = parts(y);
    let ghost unit = pow2(1074);
    proof {
        lemma_no_units(x as nat);
        lemma_no_units(y as nat);
    }
    if x == 0 {
        proof {
            lemma_nearest_zero(magnitude_units(y as nat));
            assert(0 * unit == 0);
        }
        return 0;
    }
    // Bring the dividend to 53 bits, so that the quotient is long enough.
    let mut top = p.significand;
    let mut lift: u32 = 0;
    proof {
        vstd::arithmetic::power2::lemma2_to64();
        vstd::arithmetic::power2::lemma2_to64_rest();
        assert(p.significand as nat * pow2(0) == p.significand) by (nonlinear_arith)
            requires
                pow2(0) == 1,
        ;
    }
    while top < HIDDEN_BIT
        invariant
            p.significand > 0,
            0 < top < 2 * HIDDEN_BIT,
            lift <= 53,
            lift > 0 ==> pow2(lift as nat) <= top,
            top == p.significand * pow2(lift as nat),
            pow2(52) == HIDDEN_BIT,
            pow2(53) == 2 * HIDDEN_BIT,
        decreases 2 * HIDDEN_BIT - top,
    {
        proof {
            vstd::arithmetic::power2::lemma_pow2_unfold((lift + 1) as nat);
            assert(p.significand * (2 * pow2(lift as nat)) == 2 * (p.significand * pow2(
                lift as nat,
            ))) by (nonlinear_arith);
            assert(p.significand * pow2((lift + 1) as nat) >= pow2((lift + 1) as nat))
                by (nonlinear_arith)
                requires
                    p.significand > 0,
            ;
            if lift >= 52 {
                if lift > 52 {
                    lemma_pow2_strictly_increases(52, lift as nat);
                }
                assert(false);
            }
        }
        top = top * 2;
        lift = lift + 1;
    }
    let dividend: u128 = top as u128 * 0x1_0000_0000_0000_0000;
    let divisor: u128 = q.significand as u128;
    let quotient = dividend / divisor;
    let rest = dividend % divisor;
    let ghost (n, d) = (dividend as nat, divisor as nat);
    proof {
        assert(quotient >= 0x40_0000_0000_0000) by (nonlinear_arith)
            requires
                dividend >= 0x10_0000_0000_0000 * 0x1_0000_0000_0000_0000,
                0 < divisor < 0x20_0000_0000_0000,
                quotient == dividend / divisor,
        ;
        assert(quotient <= dividend) by (nonlinear_arith)
            requires
                divisor >= 1,
                quotient == dividend / divisor,
                dividend >= 0,
        ;
        let (j, k, l) = (p.exponent as nat, q.exponent as nat, lift as nat);
        let (a, b) = ((j + 1074) as nat, (k + l + 64) as nat);
        lemma_pow2_adds(j, 1074);
        lemma_pow2_adds(k, l + 64);
        lemma_pow2_adds(l, 64);
        let c = pow2(l + 64);
        lemma_pow2_pos(l + 64);
        let (ux, uy) = (p.units(), q.units());
        assert(c * (ux * unit) == n * pow2(a)) by (nonlinear_arith)
            requires
                c == pow2(l) * 0x1_0000_0000_0000_0000,
                ux == p.significand * pow2(j),
                n == (p.significand * pow2(l)) * 0x1_0000_0000_0000_0000,
                pow2(a) == pow2(j) * unit,
        ;
        assert(c * uy == d * pow2(b)) by (nonlinear_arith)
            requires
                uy == d * pow2(k),
                pow2(b) == pow2(k) * c,
        ;
        crate::rounding::lemma_nearest_cancels(ux * unit, uy, c);
        lemma_quotient_sticky(
            n,
            d,
            (2 * quotient + (if rest == 0 { 0int } else { 1 })) as nat,
            a,
            b,
        );
    }
    let sticky: u128 = if rest == 0 { 0 } else { 1 };
    let exponent: i32 = p.exponent as i32 + 1074 - q.exponent as i32 - lift as i32 - 64 - 1;
    round_dyadic(2 * quotient + sticky, exponent)
}

/// The sum of two finite numbers, the first not the smaller in size.
fn add_finite(a: Double, b: Double) -> (r: Double)
    requires
        b.magnitude() <= a.magnitude() < INFINITE_MAGNITUDE,
    ensures
        r == a.spec_plus(b),
        r == b.spec_plus(a),
{
    let x = a.unsigned();
    let y = b.unsigned();
    let p = parts(x);
    let q = parts(y);
    proof {
        lemma_units_order(x as nat, y as nat);
        lemma_no_units(x as nat);
        lemma_no_units(y as nat);
    }
    assert(q.exponent <= p.exponent) by {
        if q.exponent > p.exponent {
            assert(q.exponent * HIDDEN_BIT >= p.exponent * HIDDEN_BIT + HIDDEN_BIT)
                by (nonlinear_arith)
                requires
                    q.exponent >= p.exponent + 1,
            ;
        }
    }
    let gap = p.exponent - q.exponent;
    if gap > 64 {
        proof {
            let (j, k) = (p.exponent as nat, q.exponent as nat);
            lemma_pow2_adds(k, 53);
            lemma_pow2_strictly_increases(k + 53, (j - 2) as nat);
            vstd::arithmetic::power2::lemma2_to64();
            vstd::arithmetic::power2::lemma2_to64_rest();
            lemma_pow2_pos(k);
            assert(q.units() < pow2((j - 2) as nat)) by (nonlinear_arith)
                requires
                    q.units() == q.significand * pow2(k),
                    q.significand < 0x20_0000_0000_0000,
                    pow2(k + 53) == pow2(k) * 0x20_0000_0000_0000,
                    pow2(k + 53) < pow2((j - 2) as nat),
                    pow2(k) > 0,
            ;
            let delta: int = if a.is_negative() == b.is_negative() {
                q.units() as int
            } else {
                -q.units()
            };
            lemma_far_operand(p.significand as nat, j, delta);
        }
        return a;
    }
    let up = power_of_two(gap);
    let ghost base = pow2(q.exponent as nat);
    proof {
        lemma_pow2_adds(q.exponent as nat, gap as nat);
        lemma_pow2_pos(q.exponent as nat);
        vstd::arithmetic::power2::lemma2_to64();
        if gap < 64 {
            lemma_pow2_strictly_increases(gap as nat, 64);
        }
        assert(p.significand * up <= 0x20_0000_0000_0000 * 0x1_0000_0000_0000_0000)
            by (nonlinear_arith)
            requires
                p.significand <= 0x20_0000_0000_0000,
                up <= 0x1_0000_0000_0000_0000,
        ;
        assert(p.units() == (p.significand * up) * base) by (nonlinear_arith)
            requires
                p.units() == p.significand * pow2(p.exponent as nat),
                pow2(p.exponent as nat) == base * up,
        ;
    }
    let high: u128 = p.significand as u128 * up;
    let low: u128 = q.significand as u128;
    let exponent: i32 = q.exponent as i32;
    assert(high >= low) by (nonlinear_arith)
        requires
            high * base >= low * base,
            base > 0,
    ;
    if a.negative() == b.negative() {
        assert(p.units() + q.units() == (high + low) * base) by (nonlinear_arith)
            requires
                p.units() == high * base,
                q.units() == low * base,
        ;
        if x == 0 {
            return Double::from_parts(a.negative(), 0);
        }
        Double::from_parts(a.negative(), round_dyadic(high + low, exponent))
    } else {
        assert(p.units() - q.units() == (high - low) * base) by (nonlinear_arith)
            requires
                p.units() == high * base,
                q.units() == low * base,
        ;
        if x == y {
            return Double::from_parts(false, 0);
        }
        Double::from_parts(a.negative(), round_dyadic(high - low, exponent))
    }
}

} // verus!
