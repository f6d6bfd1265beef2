use advisor::double::Double;

/// Bit patterns that cover zeros, subnormals, the ends of the range, infinities and "not a number".
fn edge_patterns() -> Vec<u64> {
    let mut list: Vec<u64> = Vec::new();
    for x in [
        0.0f64,
        1.0,
        1.5,
        2.0,
        3.0,
        0.1,
        0.001,
        0.3,
        1e-300,
        1e-308,
        5e-324,
        1e300,
        f64::MAX,
        f64::MIN_POSITIVE,
        f64::INFINITY,
        f64::NAN,
        9007199254740992.0,
        9007199254740993.0,
        9223372036854775807.0,
        1e19,
        0.5,
        2.5,
        4503599627370497.5,
    ] {
        list.push(x.to_bits());
        list.push((-x).to_bits());
    }
    for n in [1u64, 2, 3, 0xf_ffff_ffff_ffff, 0x10_0000_0000_0000, 0x10_0000_0000_0001, 0x1f_ffff_ffff_ffff] {
        list.push(n);
    }
    list
}

/// A fixed sequence of varied bit patterns.
fn varied_patterns(count: usize) -> Vec<u64> {
    let mut state: u64 = 0x9e37_79b9_7f4a_7c15;
    let mut list: Vec<u64> = Vec::new();
    for i in 0..count {
        state = state.wrapping_mul(6364136223846793005).wrapping_add(1442695040888963407);
        let mixed = state ^ (state >> 29);
        // Every other pattern has an exponent near that of 1, so that operands interact.
        if i % 2 == 0 {
            list.push(mixed);
        } else {
            let exponent = 1023 - 40 + (mixed >> 52) % 80;
            list.push((mixed & 0x800f_ffff_ffff_ffff) | (exponent << 52));
        }
    }
    list
}

fn pairs() -> Vec<(u64, u64)> {
    let edges = edge_patterns();
    let mut list: Vec<(u64, u64)> = Vec::new();
    for a in &edges {
        for b in &edges {
            list.push((*a, *b));
        }
    }
    let varied = varied_patterns(40000);
    for i in 1..varied.len() {
        list.push((varied[i - 1], varied[i]));
        list.push((varied[i], edges[i % edges.len()]));
    }
    list
}

fn assert_same(got: Double, want: f64, what: &str, a: u64, b: u64) {
    if want.is_nan() {
        assert!(got.nan(), "{} of {:x} and {:x}", what, a, b);
    } else {
        assert_eq!(got.bits, want.to_bits(), "{} of {:x} and {:x}", what, a, b);
    }
}

#[test]
fn arithmetic_agrees_with_the_processor() {
    for (a, b) in pairs() {
        let (x, y) = (f64::from_bits(a), f64::from_bits(b));
        let (p, q) = (Double { bits: a }, Double { bits: b });
        assert_same(p.plus(q), x + y, "sum", a, b);
        assert_same(p.minus(q), x - y, "difference", a, b);
        assert_same(p.times(q), x * y, "product", a, b);
        assert_same(p.over(q), x / y, "quotient", a, b);
    }
}

#[test]
fn comparisons_agree_with_the_processor() {
    for (a, b) in pairs() {
        let (x, y) = (f64::from_bits(a), f64::from_bits(b));
        let (p, q) = (Double { bits: a }, Double { bits: b });
        assert_eq!(p.less(q), x < y, "{:x} {:x}", a, b);
        assert_eq!(p.at_most(q), x <= y, "{:x} {:x}", a, b);
        let larger = f64::from_bits(p.larger(q).bits);
        assert!(larger == x.max(y) || (larger.is_nan() && x.is_nan() && y.is_nan()));
    }
}

#[test]
fn unary_operations_agree_with_the_processor() {
    let mut patterns = edge_patterns();
    patterns.extend(varied_patterns(20000));
    for a in patterns {
        let x = f64::from_bits(a);
        let p = Double { bits: a };
        assert_eq!(p.truncated(), x as i64, "{:x}", a);
        assert_eq!(p.abs().bits, x.abs().to_bits());
        assert_eq!(p.negated().bits, (-x).to_bits());
        assert_eq!(p.nan(), x.is_nan());
        assert_eq!(Double::from_i64(a as i64).bits, (a as i64 as f64).to_bits(), "{:x}", a);
        assert_eq!(Double::from_usize(a as usize).bits, (a as usize as f64).to_bits(), "{:x}", a);
    }
}

#[test]
fn integers_of_53_bits_are_exact() {
    let limit = (1i64 << 53) - 1;
    let list = [0i64, 1, -1, 5, 1000, -4_503_599_627_370_497, limit, -limit, limit / 3];
    for a in list {
        assert_eq!(Double::from_i64(a).bits, (a as f64).to_bits());
        for b in list {
            let sum = Double::from_i64(a).plus(Double::from_i64(b));
            assert_eq!(sum.bits, Double::from_i64(a + b).bits);
            assert_eq!(Double::from_i64(a).less(Double::from_i64(b)), a < b);
        }
    }
}

#[test]
fn a_part_of_a_whole_is_at_most_one() {
    for (part, whole) in [(0i64, 1i64), (1, 1), (1, 3), (i64::MAX - 1, i64::MAX), (9_007_199_254_740_993, 9_007_199_254_740_994)] {
        let r = f64::from_bits(Double::from_i64(part).over(Double::from_i64(whole)).bits);
        assert_eq!(r, part as f64 / whole as f64);
        assert!((0.0..=1.0).contains(&r));
    }
}
