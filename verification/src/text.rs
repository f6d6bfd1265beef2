//! Decimal text of numbers, and the joining and padding of text.

use crate::double::{
    Double, absolute, lemma_integer_exact, magnitude_units, of_int, parts,
};
use crate::rounding::{
    INFINITE_MAGNITUDE, ONE_EXPONENT, SIGNIFICAND_LIMIT, half_even, lemma_half_even,
    lemma_nearest_zero, power_of_two,
};
use vstd::arithmetic::power2::{
    lemma_pow2_adds, lemma_pow2_pos, lemma_pow2_strictly_increases, pow2,
};
use vstd::prelude::*;

verus! {

/// The character of a decimal digit.
pub open spec fn digit_char(d: nat) -> char {
    (48 + d) as char
}

/// The decimal text of a natural number, without leading zeros.
pub open spec fn decimal(n: nat) -> Seq<char>
    decreases n,
{
    if n < 10 {
        seq![digit_char(n)]
    } else {
        decimal(n / 10).push(digit_char(n % 10))
    }
}

/// The last `places` decimal digits of a natural number, with leading zeros.
pub open spec fn low_digits(n: nat, places: nat) -> Seq<char>
    decreases places,
{
    if places == 0 {
        Seq::empty()
    } else {
        low_digits(n / 10, (places - 1) as nat).push(digit_char(n % 10))
    }
}

pub open spec fn power_of_ten(places: nat) -> nat
    decreases places,
{
    if places == 0 {
        1
    } else {
        10 * power_of_ten((places - 1) as nat)
    }
}

/// `n / 10^places` with exactly `places` digits behind the point.
pub open spec fn point_text(n: nat, places: nat) -> Seq<char> {
    let whole = decimal(n / power_of_ten(places));
    if places == 0 {
        whole
    } else {
        whole + "."@ + low_digits(n, places)
    }
}

/// How the text of a number shows that it is not negative.
pub open spec fn sign_text(negative: bool, plus: bool) -> Seq<char> {
    if negative {
        "-"@
    } else if plus {
        "+"@
    } else {
        ""@
    }
}

/// The text of a number, rounded to `places` decimal places, ties to even; with `plus`, a number
/// that is not negative has its sign too.
pub open spec fn number_text(a: Double, places: nat, plus: bool) -> Seq<char> {
    if a.is_nan() {
        "NaN"@
    } else if a.is_infinite() {
        sign_text(a.is_negative(), plus) + "inf"@
    } else {
        let scaled = half_even(
            (a.units() * power_of_ten(places)) as int,
            pow2(ONE_EXPONENT as nat) as int,
        );
        sign_text(a.is_negative(), plus) + point_text(scaled as nat, places)
    }
}

/// The decimal text of an integer; with `plus`, one that is not negative has its sign too.
pub open spec fn integer_text(n: int, plus: bool) -> Seq<char> {
    sign_text(n < 0, plus) + decimal(if n < 0 { -n } else { n } as nat)
}

/// `parts` in order, with `separator` between each two.
pub open spec fn joined(parts: Seq<Seq<char>>, separator: Seq<char>) -> Seq<char>
    decreases parts.len(),
{
    if parts.len() == 0 {
        Seq::empty()
    } else if parts.len() == 1 {
        parts[0]
    } else {
        joined(parts.drop_last(), separator) + separator + parts.last()
    }
}

/// The views of a list of texts.
pub open spec fn texts(list: Seq<String>) -> Seq<Seq<char>> {
    list.map_values(|s: String| s@)
}

/// `count` times the text `unit`.
pub open spec fn repeated(unit: Seq<char>, count: nat) -> Seq<char>
    decreases count,
{
    if count == 0 {
        Seq::empty()
    } else {
        repeated(unit, (count - 1) as nat) + unit
    }
}

/// `s` behind as many spaces as bring it to `width` characters.
pub open spec fn right_aligned(s: Seq<char>, width: nat) -> Seq<char> {
    if s.len() < width {
        repeated(" "@, (width - s.len()) as nat) + s
    } else {
        s
    }
}

/// The number whose decimal digits are `ds`, the lowest first.
spec fn digits_value(ds: Seq<u8>) -> nat
    decreases ds.len(),
{
    if ds.len() == 0 {
        0
    } else {
        ds[0] as nat + 10 * digits_value(ds.drop_first())
    }
}

spec fn all_digits(ds: Seq<u8>) -> bool {
    forall|i: int| 0 <= i < ds.len() ==> #[trigger] ds[i] < 10
}

/// The text of digits that are given lowest first.
spec fn digits_text(ds: Seq<u8>) -> Seq<char>
    decreases ds.len(),
{
    if ds.len() == 0 {
        Seq::empty()
    } else {
        digits_text(ds.drop_first()).push(digit_char(ds[0] as nat))
    }
}

proof fn lemma_value_push(ds: Seq<u8>, d: u8)
    ensures
        digits_value(ds.push(d)) == digits_value(ds) + d * power_of_ten(ds.len()),
    decreases ds.len(),
{
    if ds.len() == 0 {
        assert(ds.push(d).drop_first() =~= Seq::<u8>::empty());
        assert(d * power_of_ten(0) == d) by (nonlinear_arith)
            requires
                power_of_ten(0) == 1,
        ;
        assert(digits_value(ds) == 0 && digits_value(ds.push(d).drop_first()) == 0);
    } else {
        lemma_value_push(ds.drop_first(), d);
        assert(ds.push(d).drop_first() =~= ds.drop_first().push(d));
        let p = power_of_ten((ds.len() - 1) as nat);
        assert(10 * (d * p) == d * (10 * p)) by (nonlinear_arith);
    }
}

proof fn lemma_power_of_ten_positive(k: nat)
    ensures
        power_of_ten(k) > 0,
    decreases k,
{
    if k > 0 {
        lemma_power_of_ten_positive((k - 1) as nat);
    }
}

/// Digits with a leading one that is not zero have a positive value.
proof fn lemma_value_positive(ds: Seq<u8>)
    requires
        ds.len() > 0,
        ds.last() != 0,
    ensures
        digits_value(ds) > 0,
    decreases ds.len(),
{
    if ds.len() > 1 {
        assert(ds.drop_first().last() == ds.last());
        lemma_value_positive(ds.drop_first());
    }
}

/// Digits without superfluous leading zeros are the decimal text of their value.
proof fn lemma_digits_decimal(ds: Seq<u8>)
    requires
        all_digits(ds),
        ds.len() > 0,
        ds.len() == 1 || ds.last() != 0,
    ensures
        decimal(digits_value(ds)) == digits_text(ds),
    decreases ds.len(),
{
    let rest = ds.drop_first();
    assert(ds[0] < 10);
    if ds.len() == 1 {
        assert(rest =~= Seq::<u8>::empty());
        assert(digits_value(rest) == 0);
        assert(digits_text(rest) =~= Seq::<char>::empty());
        assert(digits_text(ds) =~= seq![digit_char(ds[0] as nat)]);
    } else {
        assert(rest.last() == ds.last());
        assert(all_digits(rest)) by {
            assert forall|i: int| 0 <= i < rest.len() implies #[trigger] rest[i] < 10 by {
                assert(rest[i] == ds[i + 1]);
            }
        }
        lemma_value_positive(rest);
        lemma_digits_decimal(rest);
        let n = digits_value(ds);
        assert(n / 10 == digits_value(rest) && n % 10 == ds[0] as nat);
    }
}

/// The low and the high part of digits, as numbers and as text.
proof fn lemma_digits_split(ds: Seq<u8>, places: nat)
    requires
        all_digits(ds),
        places <= ds.len(),
    ensures
        digits_value(ds) / power_of_ten(places) == digits_value(ds.skip(places as int)),
        low_digits(digits_value(ds), places) == digits_text(ds.take(places as int)),
    decreases places,
{
    let n = digits_value(ds);
    if places == 0 {
        assert(ds.skip(0) =~= ds);
        assert(ds.take(0) =~= Seq::<u8>::empty());
        assert(n / power_of_ten(0) == n) by (nonlinear_arith)
            requires
                power_of_ten(0) == 1,
        ;
    } else {
        let rest = ds.drop_first();
        assert(ds[0] < 10);
        assert(all_digits(rest)) by {
            assert forall|i: int| 0 <= i < rest.len() implies #[trigger] rest[i] < 10 by {
                assert(rest[i] == ds[i + 1]);
            }
        }
        let fewer = (places - 1) as nat;
        lemma_digits_split(rest, fewer);
        assert(n / 10 == digits_value(rest) && n % 10 == ds[0] as nat);
        lemma_power_of_ten_positive(fewer);
        vstd::arithmetic::div_mod::lemma_div_denominator(n as int, 10, power_of_ten(fewer) as int);
        assert(rest.skip(fewer as int) =~= ds.skip(places as int));
        assert(ds.take(places as int).drop_first() =~= rest.take(fewer as int));
        assert(ds.take(places as int)[0] == ds[0]);
    }
}

/// Appends the character of a digit.
fn push_digit(s: &mut String, d: u8)
    requires
        d < 10,
    ensures
        final(s)@ == old(s)@.push(digit_char(d as nat)),
{
    proof {
        reveal_strlit("0");
        reveal_strlit("1");
        reveal_strlit("2");
        reveal_strlit("3");
        reveal_strlit("4");
        reveal_strlit("5");
        reveal_strlit("6");
        reveal_strlit("7");
        reveal_strlit("8");
        reveal_strlit("9");
    }
    let text: &str = match d {
        0 => "0",
        1 => "1",
        2 => "2",
        3 => "3",
        4 => "4",
        5 => "5",
        6 => "6",
        7 => "7",
        8 => "8",
        _ => "9",
    };
    assert(text@ =~= seq![digit_char(d as nat)]);
    assert(s@ + seq![digit_char(d as nat)] =~= s@.push(digit_char(d as nat)));
    s.append(text);
}

/// The decimal digits of `n`, the lowest first; none for zero.
fn digits_of(n: u128) -> (ds: Vec<u8>)
    ensures
        all_digits(ds@),
        digits_value(ds@) == n,
{
    let mut ds: Vec<u8> = Vec::new();
    let mut rest = n;
    assert(n * power_of_ten(0) == n) by (nonlinear_arith)
        requires
            power_of_ten(0) == 1,
    ;
    while rest > 0
        invariant
            all_digits(ds@),
            digits_value(ds@) + rest * power_of_ten(ds@.len()) == n,
        decreases rest,
    {
        let d = (rest % 10) as u8;
        proof {
            lemma_value_push(ds@, d);
            let p = power_of_ten(ds@.len());
            let higher = rest as int / 10;
            assert(rest * p == d * p + higher * (10 * p)) by (nonlinear_arith)
                requires
                    rest == d + 10 * higher,
            ;
        }
        ds.push(d);
        rest = rest / 10;
    }
    ds
}

/// The digits of twice a number.
fn doubled(ds: &Vec<u8>) -> (out: Vec<u8>)
    requires
        all_digits(ds@),
    ensures
        all_digits(out@),
        digits_value(out@) == 2 * digits_value(ds@),
{
    let mut out: Vec<u8> = Vec::new();
    let mut carry: u8 = 0;
    let mut i: usize = 0;
    assert(ds@.skip(0) =~= ds@);
    assert(power_of_ten(0) * (2 * digits_value(ds@)) == 2 * digits_value(ds@)) by (nonlinear_arith)
        requires
            power_of_ten(0) == 1,
    ;
    while i < ds.len()
        invariant
            i <= ds@.len(),
            out@.len() == i,
            carry <= 1,
            all_digits(ds@),
            all_digits(out@),
            digits_value(out@) + power_of_ten(i as nat) * (carry + 2 * digits_value(
                ds@.skip(i as int),
            )) == 2 * digits_value(ds@),
        decreases ds@.len() - i,
    {
        assert(ds@[i as int] < 10);
        let sum: u8 = 2 * ds[i] + carry;
        let d: u8 = sum % 10;
        proof {
            lemma_value_push(out@, d);
            assert(ds@.skip(i as int).drop_first() =~= ds@.skip(i + 1));
            let p = power_of_ten(i as nat);
            let rest = digits_value(ds@.skip(i + 1));
            let next = (sum / 10) as int;
            assert(p * (carry + 2 * (ds@[i as int] + 10 * rest)) == d * p + (10 * p) * (next + 2
                * rest)) by (nonlinear_arith)
                requires
                    2 * ds@[i as int] + carry == d + 10 * next,
            ;
        }
        out.push(d);
        carry = sum / 10;
        i = i + 1;
    }
    proof {
        assert(ds@.skip(i as int) =~= Seq::<u8>::empty());
        assert(power_of_ten(i as nat) * (carry + 2 * 0) == carry * power_of_ten(i as nat))
            by (nonlinear_arith);
    }
    if carry > 0 {
        proof {
            lemma_value_push(out@, carry);
        }
        out.push(carry);
    } else {
        assert(carry * power_of_ten(i as nat) == 0) by (nonlinear_arith)
            requires
                carry == 0,
        ;
    }
    out
}

/// The point text of the number with the given digits.
fn render_digits(prefix: String, digits: Vec<u8>, places: usize) -> (s: String)
    requires
        all_digits(digits@),
        places < usize::MAX,
    ensures
        s@ == prefix@ + point_text(digits_value(digits@), places as nat),
{
    let mut ds = digits;
    // At least one digit in front of the point.
    while ds.len() <= places
        invariant
            all_digits(ds@),
            digits_value(ds@) == digits_value(digits@),
            places < usize::MAX,
        decreases places + 1 - ds@.len(),
    {
        proof {
            lemma_value_push(ds@, 0);
            assert(0 * power_of_ten(ds@.len()) == 0) by (nonlinear_arith);
        }
        ds.push(0);
    }
    // No zeros in front of that.
    while ds.len() > places + 1 && ds[ds.len() - 1] == 0
        invariant
            all_digits(ds@),
            digits_value(ds@) == digits_value(digits@),
            places < ds@.len(),
            places < usize::MAX,
        decreases ds@.len(),
    {
        proof {
            let shorter = ds@.drop_last();
            assert(ds@ =~= shorter.push(0));
            lemma_value_push(shorter, 0);
            assert(0 * power_of_ten(shorter.len()) == 0) by (nonlinear_arith);
        }
        let _ = ds.pop();
    }
    let ghost whole = ds@.skip(places as int);
    proof {
        lemma_digits_split(ds@, places as nat);
        assert forall|i: int| 0 <= i < whole.len() implies #[trigger] whole[i] < 10 by {
            assert(whole[i] == ds@[i + places]);
        }
        lemma_digits_decimal(whole);
    }
    let mut s = prefix;
    let mut i: usize = ds.len();
    assert(ds@.skip(i as int) =~= Seq::<u8>::empty());
    assert(s@ =~= prefix@ + digits_text(ds@.skip(i as int)));
    while i > places
        invariant
            all_digits(ds@),
            places <= i <= ds@.len(),
            s@ == prefix@ + digits_text(ds@.skip(i as int)),
        decreases i,
    {
        i = i - 1;
        proof {
            assert(ds@[i as int] < 10);
            assert(ds@.skip(i as int).drop_first() =~= ds@.skip(i + 1));
            assert(ds@.skip(i as int)[0] == ds@[i as int]);
            let head = digits_text(ds@.skip(i + 1));
            let c = digit_char(ds@[i as int] as nat);
            assert((prefix@ + head).push(c) =~= prefix@ + head.push(c));
        }
        push_digit(&mut s, ds[i]);
    }
    if places > 0 {
        let ghost front = s@ + "."@;
        s.append(".");
        let ghost low = ds@.take(places as int);
        assert(low.skip(places as int) =~= Seq::<u8>::empty());
        assert(s@ =~= front + digits_text(low.skip(i as int)));
        while i > 0
            invariant
                all_digits(ds@),
                i <= places <= ds@.len(),
                low == ds@.take(places as int),
                s@ == front + digits_text(low.skip(i as int)),
            decreases i,
        {
            i = i - 1;
            proof {
                assert(ds@[i as int] < 10);
                assert(low.skip(i as int).drop_first() =~= low.skip(i + 1));
                assert(low.skip(i as int)[0] == ds@[i as int]);
                let head = digits_text(low.skip(i + 1));
                let c = digit_char(ds@[i as int] as nat);
                assert((front + head).push(c) =~= front + head.push(c));
            }
            push_digit(&mut s, ds[i]);
        }
        proof {
            assert(low.skip(0) =~= low);
            let w = decimal(digits_value(ds@) / power_of_ten(places as nat));
            assert(prefix@ + w + "."@ + digits_text(low) =~= prefix@ + (w + "."@ + digits_text(
                low,
            )));
        }
    }
    s
}

/// The digits of a finite magnitude times `tens`, rounded to an integer.
fn rounded_digits(magnitude: u64, tens: u64) -> (ds: Vec<u8>)
    requires
        magnitude < INFINITE_MAGNITUDE,
        0 < tens <= 100,
    ensures
        all_digits(ds@),
        digits_value(ds@) == half_even(
            (magnitude_units(magnitude as nat) * tens) as int,
            pow2(ONE_EXPONENT as nat) as int,
        ),
{
    let p = parts(magnitude);
    let one = ONE_EXPONENT;
    assert(p.significand * tens <= 0x20_0000_0000_0000 * 100) by (nonlinear_arith)
        requires
            p.significand <= 0x20_0000_0000_0000,
            tens <= 100,
    ;
    let m: u128 = p.significand as u128 * tens as u128;
    let ghost unit = pow2(1074);
    let ghost c = pow2(p.exponent as nat);
    let ghost n = magnitude_units(magnitude as nat) * tens;
    proof {
        lemma_pow2_pos(1074);
        lemma_pow2_pos(p.exponent as nat);
        assert(n == m * c) by (nonlinear_arith)
            requires
                n == (p.significand * c) * tens,
                m == p.significand * tens,
        ;
    }
    if p.exponent >= one {
        let rise = p.exponent - one;
        let mut ds = digits_of(m);
        let mut i: u32 = 0;
        proof {
            vstd::arithmetic::power2::lemma2_to64();
            assert(m * pow2(0) == m) by (nonlinear_arith)
                requires
                    pow2(0) == 1,
            ;
        }
        while i < rise
            invariant
                i <= rise,
                all_digits(ds@),
                digits_value(ds@) == m * pow2(i as nat),
            decreases rise - i,
        {
            ds = doubled(&ds);
            proof {
                vstd::arithmetic::power2::lemma_pow2_unfold((i + 1) as nat);
                assert(2 * (m * pow2(i as nat)) == m * (2 * pow2(i as nat))) by (nonlinear_arith);
            }
            i = i + 1;
        }
        proof {
            lemma_pow2_adds(rise as nat, 1074);
            let whole = m * pow2(rise as nat);
            assert(n == whole * unit) by (nonlinear_arith)
                requires
                    n == m * c,
                    c == pow2(rise as nat) * unit,
                    whole == m * pow2(rise as nat),
            ;
            lemma_half_even(n as int, unit as int, whole as int);
        }
        return ds;
    }
    let drop = one - p.exponent;
    proof {
        lemma_pow2_adds(p.exponent as nat, drop as nat);
    }
    if drop >= 127 {
        proof {
            lemma_large_power(drop as nat);
            assert(2 * n < unit) by (nonlinear_arith)
                requires
                    n == m * c,
                    unit == c * pow2(drop as nat),
                    2 * m < pow2(drop as nat),
                    c > 0,
            ;
            lemma_half_even(n as int, unit as int, 0);
        }
        return Vec::new();
    }
    let w = power_of_two(drop);
    proof {
        lemma_pow2_pos(drop as nat);
        crate::rounding::lemma_pow2_small(drop as nat);
    }
    let q = m / w;
    let r = m % w;
    let up: bool = 2 * r > w || (2 * r == w && q % 2 == 1);
    proof {
        vstd::arithmetic::div_mod::lemma_fundamental_div_mod(m as int, w as int);
        assert(q <= m) by (nonlinear_arith)
            requires
                m == w * q + r,
                r >= 0,
                w >= 1,
                q >= 0,
        ;
        let s: int = if up { q + 1 } else { q as int };
        let gap = 2 * m - 2 * (s * w);
        assert(w * q == q * w) by (nonlinear_arith);
        assert((q + 1) * w == q * w + w) by (nonlinear_arith);
        assert(2 * n - 2 * (s * unit) == c * gap) by (nonlinear_arith)
            requires
                n == m * c,
                unit == c * w,
                gap == 2 * m - 2 * (s * w),
        ;
        assert(-unit <= c * gap <= unit && (c * gap == unit ==> gap == w) && (c * gap == -unit
            ==> gap == -w)) by (nonlinear_arith)
            requires
                unit == c * w,
                c > 0,
                -w <= gap <= w,
        ;
        lemma_half_even(n as int, unit as int, s);
    }
    digits_of(if up { q + 1 } else { q })
}

proof fn lemma_large_power(k: nat)
    requires
        k >= 127,
    ensures
        pow2(k) > 0x80_0000_0000_0000 * 100,
{
    vstd::arithmetic::power2::lemma2_to64();
    lemma_pow2_strictly_increases(64, k);
}

/// The text of `negative`'s sign.
fn sign(negative: bool, plus: bool) -> (s: String)
    ensures
        s@ == sign_text(negative, plus),
{
    if negative {
        "-".to_owned()
    } else if plus {
        "+".to_owned()
    } else {
        "".to_owned()
    }
}

/// The text of a number with at most two decimal places.
pub fn number(a: Double, places: usize, plus: bool) -> (s: String)
    requires
        places <= 2,
    ensures
        s@ == number_text(a, places as nat, plus),
{
    let magnitude = a.unsigned();
    if magnitude > INFINITE_MAGNITUDE {
        return "NaN".to_owned();
    }
    let mut s = sign(a.negative(), plus);
    if magnitude == INFINITE_MAGNITUDE {
        s.append("inf");
        return s;
    }
    let tens: u64 = if places == 0 {
        1
    } else if places == 1 {
        10
    } else {
        100
    };
    proof {
        reveal_with_fuel(power_of_ten, 3);
        assert(tens == power_of_ten(places as nat));
    }
    render_digits(s, rounded_digits(magnitude, tens), places)
}

/// The text of an integer.
pub fn integer(n: i64, plus: bool) -> (s: String)
    ensures
        s@ == integer_text(n as int, plus),
{
    let size: u128 = if n < 0 {
        (-(n as i128)) as u128
    } else {
        n as u128
    };
    proof {
        reveal_with_fuel(power_of_ten, 1);
        assert(size as nat / 1 == size);
    }
    render_digits(sign(n < 0, plus), digits_of(size), 0)
}

/// The text of a count.
pub fn count(n: usize) -> (s: String)
    ensures
        s@ == decimal(n as nat),
{
    proof {
        reveal_with_fuel(power_of_ten, 1);
        assert(n as nat / 1 == n);
        assert(Seq::<char>::empty() + decimal(n as nat) =~= decimal(n as nat));
    }
    render_digits(String::new(), digits_of(n as u128), 0)
}

/// Joins texts.
pub fn join(list: &Vec<String>, separator: &str) -> (s: String)
    ensures
        s@ == joined(texts(list@), separator@),
{
    let mut s = String::new();
    let mut i: usize = 0;
    while i < list.len()
        invariant
            i <= list@.len(),
            s@ == joined(texts(list@).take(i as int), separator@),
        decreases list@.len() - i,
    {
        let ghost before = texts(list@).take(i as int);
        let ghost after = texts(list@).take(i + 1);
        assert(after.drop_last() =~= before);
        assert(after.last() == list@[i as int]@);
        if i > 0 {
            s.append(separator);
        } else {
            assert(s@ + list@[i as int]@ =~= list@[i as int]@);
        }
        s.append(list[i].as_str());
        i = i + 1;
    }
    assert(texts(list@).take(i as int) =~= texts(list@));
    s
}

/// Repeats a text.
pub fn repeat(unit: &str, count: usize) -> (s: String)
    ensures
        s@ == repeated(unit@, count as nat),
{
    let mut s = String::new();
    let mut i: usize = 0;
    while i < count
        invariant
            i <= count,
            s@ == repeated(unit@, i as nat),
        decreases count - i,
    {
        s.append(unit);
        i = i + 1;
    }
    s
}

/// Right-aligns a text.
pub fn align_right(s: &str, width: usize) -> (r: String)
    ensures
        r@ == right_aligned(s@, width as nat),
{
    let len = s.unicode_len();
    if len < width {
        let mut r = repeat(" ", width - len);
        r.append(s);
        r
    } else {
        s.to_owned()
    }
}

/// Whether two texts are the same.
pub fn same(a: &str, b: &str) -> (r: bool)
    ensures
        r == (a@ == b@),
{
    a.to_owned() == b.to_owned()
}

/// The number that a text of decimal digits stands for.
pub open spec fn read_digits(s: Seq<char>) -> int
    decreases s.len(),
{
    if s.len() == 0 {
        0
    } else {
        10 * read_digits(s.drop_last()) + (s.last() as int - 48)
    }
}

/// A decimal text is made of digits, has no leading zero but for zero itself, and reads as the
/// number that it was made from.
pub proof fn lemma_decimal_reads(n: nat)
    ensures
        decimal(n).len() > 0,
        read_digits(decimal(n)) == n,
        forall|i: int| 0 <= i < decimal(n).len() ==> '0' <= #[trigger] decimal(n)[i] <= '9',
        n > 0 ==> decimal(n)[0] != '0',
    decreases n,
{
    reveal_with_fuel(read_digits, 2);
    if n >= 10 {
        lemma_decimal_reads(n / 10);
        let s = decimal(n);
        assert(s.drop_last() =~= decimal(n / 10));
        assert forall|i: int| 0 <= i < s.len() implies '0' <= #[trigger] s[i] <= '9' by {
            if i < s.len() - 1 {
                assert(s[i] == decimal(n / 10)[i]);
            }
        }
        assert(s[0] == decimal(n / 10)[0]);
    } else {
        assert(decimal(n).drop_last() =~= Seq::<char>::empty());
    }
}

/// Low digits are as many digits as asked for, and read as the remainder.
pub proof fn lemma_low_digits_read(n: nat, places: nat)
    ensures
        low_digits(n, places).len() == places,
        read_digits(low_digits(n, places)) == n % power_of_ten(places),
    decreases places,
{
    lemma_power_of_ten_positive(places);
    if places > 0 {
        let fewer = (places - 1) as nat;
        lemma_low_digits_read(n / 10, fewer);
        lemma_power_of_ten_positive(fewer);
        assert(low_digits(n, places).drop_last() =~= low_digits(n / 10, fewer));
        vstd::arithmetic::div_mod::lemma_mod_breakdown(n as int, 10, power_of_ten(fewer) as int);
    } else {
        assert(n % 1 == 0);
    }
}

/// The text of an integer is the decimal text of its size, behind a minus where it is negative; where
/// signs are wanted, behind a plus where it is not.
pub proof fn lemma_integer_signed(n: int)
    ensures
        n < 0 ==> integer_text(n, false) == "-"@ + decimal((-n) as nat) && integer_text(n, true)
            == integer_text(n, false),
        n >= 0 ==> integer_text(n, false) == decimal(n as nat) && integer_text(n, true) == "+"@
            + decimal(n as nat),
{
    reveal_strlit("");
    assert(n >= 0 ==> ""@ + decimal(n as nat) =~= decimal(n as nat));
}

/// A whole number is written like the integer; with places, behind a point that is followed by
/// zeros.
pub proof fn lemma_whole_number_text(n: int, plus: bool)
    requires
        -SIGNIFICAND_LIMIT < n < SIGNIFICAND_LIMIT,
    ensures
        number_text(of_int(n), 0, plus) == integer_text(n, plus),
        number_text(of_int(n), 2, plus) == integer_text(n, plus) + ".00"@,
{
    let one = pow2(ONE_EXPONENT as nat) as int;
    let size = absolute(n) as int;
    lemma_pow2_pos(ONE_EXPONENT as nat);
    lemma_integer_exact(n);
    assert(of_int(n).units() == size * one) by {
        assert((-n) * one == -(n * one)) by (nonlinear_arith);
    }
    reveal_with_fuel(power_of_ten, 3);
    assert(size * one >= 0) by (nonlinear_arith)
        requires
            size >= 0,
            one > 0,
    ;
    assert((size * one) * 1 == size * one && (size * one) * 100 == (100 * size) * one)
        by (nonlinear_arith);
    lemma_half_even_exact(size, one);
    lemma_half_even_exact(100 * size, one);
    if n == 0 {
        lemma_whole_zero();
    } else {
        assert(of_int(n).is_negative() <==> n < 0) by {
            assert(n * one > 0 || n * one < 0) by (nonlinear_arith)
                requires
                    n != 0,
                    one > 0,
            ;
            assert((n * one < 0) == (n < 0)) by (nonlinear_arith)
                requires
                    one > 0,
            ;
        }
    }
    reveal_with_fuel(low_digits, 3);
    reveal_strlit(".");
    reveal_strlit(".00");
    let m = (100 * size) as nat;
    assert(m / 100 == size && m % 10 == 0 && (m / 10) % 10 == 0);
    assert(low_digits(m, 2) =~= seq!['0', '0']);
    assert("."@ + low_digits(m, 2) =~= ".00"@);
    let s = sign_text(n < 0, plus);
    assert(s + (decimal(size as nat) + "."@ + low_digits(m, 2)) =~= s + decimal(size as nat)
        + ".00"@);
}

proof fn lemma_whole_zero()
    ensures
        !of_int(0).is_negative(),
{
    lemma_nearest_zero(1);
    assert(0 * pow2(ONE_EXPONENT as nat) == 0) by (nonlinear_arith);
}

/// A whole quotient is not rounded.
proof fn lemma_half_even_exact(q: int, d: int)
    requires
        q >= 0,
        d > 0,
    ensures
        half_even(q * d, d) == q,
{
    lemma_half_even(q * d, d, q);
}

/// Repeated text is as long as its repetitions together.
pub proof fn lemma_repeated(unit: Seq<char>, count: nat)
    ensures
        repeated(unit, count).len() == count * unit.len(),
        forall|i: int|
            0 <= i < repeated(unit, count).len() ==> unit.len() > 0 && #[trigger] repeated(
                unit,
                count,
            )[i] == unit[i % (unit.len() as int)],
    decreases count,
{
    let k = unit.len() as int;
    if count > 0 {
        let fewer = (count - 1) as nat;
        lemma_repeated(unit, fewer);
        let (s, earlier) = (repeated(unit, count), repeated(unit, fewer));
        assert(count * unit.len() == fewer * unit.len() + unit.len()) by (nonlinear_arith)
            requires
                count == fewer + 1,
        ;
        assert forall|i: int| 0 <= i < s.len() implies unit.len() > 0 && #[trigger] s[i] == unit[i
            % k] by {
            if i < earlier.len() {
                assert(s[i] == earlier[i]);
            } else {
                let j = i - earlier.len();
                vstd::arithmetic::div_mod::lemma_mod_multiples_vanish(fewer as int, j, k);
                assert(k * fewer + j == i) by (nonlinear_arith)
                    requires
                        j == i - fewer * k,
                ;
                vstd::arithmetic::div_mod::lemma_small_mod(j as nat, k as nat);
            }
        }
    }
    assert(0 * unit.len() == 0) by (nonlinear_arith);
}

/// Aligned text is as wide as asked for, or as it was where that is wider; it ends with the text, and
/// has spaces before it.
pub proof fn lemma_aligned(s: Seq<char>, width: nat)
    ensures
        ({
            let t = right_aligned(s, width);
            &&& t.len() == (if s.len() < width {
                width
            } else {
                s.len()
            })
            &&& t.subrange(t.len() - s.len(), t.len() as int) == s
            &&& forall|i: int| 0 <= i < t.len() - s.len() ==> #[trigger] t[i] == ' '
        }),
{
    reveal_strlit(" ");
    let t = right_aligned(s, width);
    if s.len() < width {
        let gap = (width - s.len()) as nat;
        lemma_repeated(" "@, gap);
        assert forall|i: int| 0 <= i < gap implies #[trigger] t[i] == ' ' by {
            assert(t[i] == repeated(" "@, gap)[i]);
        }
    }
    assert(t.subrange(t.len() - s.len(), t.len() as int) =~= s);
}

/// Joining one more text puts the separator before it, unless it is the first.
pub proof fn lemma_joined_push(parts: Seq<Seq<char>>, part: Seq<char>, separator: Seq<char>)
    ensures
        joined(Seq::empty(), separator) == Seq::<char>::empty(),
        parts.len() == 0 ==> joined(parts.push(part), separator) == part,
        parts.len() > 0 ==> joined(parts.push(part), separator) == joined(parts, separator)
            + separator + part,
{
    assert(parts.push(part).drop_last() =~= parts);
}

} // verus!
