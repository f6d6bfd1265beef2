use advisor::double::Double;
use advisor::text::{align_right, count, integer, join, number, repeat, same};

fn of(x: f64) -> Double {
    Double { bits: x.to_bits() }
}

fn check(x: f64) {
    let d = of(x);
    assert_eq!(number(d, 0, false), format!("{:.0}", x));
    assert_eq!(number(d, 1, false), format!("{:.1}", x));
    assert_eq!(number(d, 2, false), format!("{:.2}", x));
    assert_eq!(number(d, 0, true), format!("{:+.0}", x));
    assert_eq!(number(d, 2, true), format!("{:+.2}", x));
}

#[test]
fn numbers_read_as_the_standard_library_writes_them() {
    for x in [
        0.0,
        0.5,
        1.5,
        2.5,
        0.125,
        0.375,
        1.005,
        0.25,
        0.75,
        0.05,
        0.005,
        0.015,
        0.995,
        9.995,
        99.5,
        1e-10,
        5e-324,
        123456.789,
        1e15,
        9007199254740993.0,
        1e16,
        1e22,
        1.7976931348623157e308,
        f64::INFINITY,
        f64::NAN,
        4503599627370496.5,
    ] {
        check(x);
        check(-x);
    }
    let mut state: u64 = 88172645463325252;
    for _ in 0..4000 {
        state ^= state << 13;
        state ^= state >> 7;
        state ^= state << 17;
        check((state % 100_000_000) as f64 / 1000.0);
        check((state % 100_000) as f64 / 8.0);
        check(f64::from_bits(state));
    }
}

#[test]
fn integers_read_as_the_standard_library_writes_them() {
    for n in [0, 1, -1, 9, 10, -10, 99, 100, 12345, i64::MAX, i64::MIN] {
        assert_eq!(integer(n, false), format!("{}", n));
        assert_eq!(integer(n, true), format!("{:+}", n));
    }
    assert_eq!(count(0), "0");
    assert_eq!(count(usize::MAX), format!("{}", usize::MAX));
}

#[test]
fn texts_are_joined_and_aligned() {
    let list = vec!["a".to_string(), "".to_string(), "é".to_string()];
    assert_eq!(join(&list, ", "), "a, , é");
    assert_eq!(join(&Vec::new(), ", "), "");
    assert_eq!(repeat("─", 3), "───");
    assert_eq!(align_right("Δ", 10), format!("{:>10}", "Δ"));
    assert_eq!(align_right("longer than it", 5), "longer than it");
    assert!(same("other", "other"));
    assert!(!same("other", "others"));
}
