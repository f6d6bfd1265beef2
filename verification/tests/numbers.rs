use advisor::numbers::{
    EIGHT_THOUSAND, FIFTEEN_HUNDREDTHS, FIFTH, FIFTY_THOUSAND, FIVE, HALF, HUNDRED, MILLION,
    NINE_TENTHS, ONE, QUARTER, SEVEN_TENTHS, TENTH, THOUSAND, THOUSANDTH, THREE, THREE_FIFTHS,
    THREE_HALVES, THREE_TENTHS, TWENTY_THOUSAND, TWO, TWO_FIFTHS, ZERO, num,
};

#[test]
fn numbers_have_the_bits_of_their_literals() {
    let pairs: Vec<(u64, f64)> = vec![
        (ZERO, 0.0),
        (THOUSANDTH, 0.001),
        (TENTH, 0.1),
        (FIFTEEN_HUNDREDTHS, 0.15),
        (FIFTH, 0.2),
        (QUARTER, 0.25),
        (THREE_TENTHS, 0.3),
        (TWO_FIFTHS, 0.4),
        (HALF, 0.5),
        (THREE_FIFTHS, 0.6),
        (SEVEN_TENTHS, 0.7),
        (NINE_TENTHS, 0.9),
        (ONE, 1.0),
        (THREE_HALVES, 1.5),
        (TWO, 2.0),
        (THREE, 3.0),
        (FIVE, 5.0),
        (HUNDRED, 100.0),
        (THOUSAND, 1000.0),
        (EIGHT_THOUSAND, 8000.0),
        (TWENTY_THOUSAND, 20_000.0),
        (FIFTY_THOUSAND, 50_000.0),
        (MILLION, 1_000_000.0),
    ];
    for (bits, x) in pairs {
        assert_eq!(num(bits).bits, x.to_bits());
    }
}
