use rusty_lox::number::{equals, is_less, is_less_or_equal, nan, negate};

fn samples() -> Vec<f64> {
    vec![
        0.0,
        -0.0,
        1.0,
        -1.0,
        0.5,
        -0.5,
        2.0,
        1e300,
        -1e300,
        5e-324,
        -5e-324,
        f64::MIN_POSITIVE,
        f64::MAX,
        f64::MIN,
        f64::INFINITY,
        f64::NEG_INFINITY,
        f64::NAN,
        -f64::NAN,
        f64::from_bits(0x7ff0_0000_0000_0001),
        f64::from_bits(0xfff8_0000_0000_0001),
        123.456,
        -123.456,
        45.67,
    ]
}

#[test]
fn order_and_equality_agree_with_the_machine() {
    for a in samples() {
        for b in samples() {
            let (x, y) = (a.to_bits(), b.to_bits());
            assert_eq!(equals(x, y), a == b, "{a} == {b}");
            assert_eq!(is_less(x, y), a < b, "{a} < {b}");
            assert_eq!(is_less_or_equal(x, y), a <= b, "{a} <= {b}");
        }
    }
}

#[test]
fn negation_flips_the_sign() {
    for a in samples() {
        assert_eq!(negate(a.to_bits()), (-a).to_bits());
        assert_eq!(negate(negate(a.to_bits())), a.to_bits());
    }
    assert_eq!(f64::from_bits(negate(3.5f64.to_bits())), -3.5);
}

#[test]
fn nan_is_told_apart() {
    for a in samples() {
        assert_eq!(nan(a.to_bits()), a.is_nan());
    }
}

#[test]
fn order_and_equality_agree_on_many_bit_patterns() {
    // A fixed pseudo-random walk over bit patterns, so that every run sees
    // the same numbers.
    let mut state: u64 = 0x9e37_79b9_7f4a_7c15;
    let mut patterns = Vec::new();
    for _ in 0..400 {
        state = state.wrapping_mul(6364136223846793005).wrapping_add(1442695040888963407);
        patterns.push(state);
        patterns.push(state >> 1);
        patterns.push(state & 0xfff0_0000_0000_0000);
    }
    for pair in patterns.windows(2) {
        let (x, y) = (pair[0], pair[1]);
        let (a, b) = (f64::from_bits(x), f64::from_bits(y));
        assert_eq!(equals(x, y), a == b);
        assert_eq!(is_less(x, y), a < b);
        assert_eq!(is_less_or_equal(x, y), a <= b);
        assert_eq!(equals(x, x), a == a);
        assert_eq!(negate(x), (-a).to_bits());
        assert_eq!(nan(x), a.is_nan());
    }
}
