use key_stats::reading::{is_finite, is_less, INFINITE, LARGEST, SIGN, SMALLEST, ZERO};

fn samples() -> Vec<f64> {
    vec![
        0.0,
        -0.0,
        1.0,
        -1.0,
        3.0,
        4.0,
        5.0,
        -99.9,
        99.9,
        0.1,
        -0.1,
        f64::MIN_POSITIVE,
        -f64::MIN_POSITIVE,
        5e-324,
        -5e-324,
        f64::MAX,
        f64::MIN,
        f64::INFINITY,
        f64::NEG_INFINITY,
        f64::NAN,
        -f64::NAN,
        f64::EPSILON,
        1e308,
        -1e308,
    ]
}

#[test]
fn the_constants_are_the_bits_of_the_values() {
    assert_eq!(LARGEST, f64::MAX.to_bits());
    assert_eq!(SMALLEST, f64::MIN.to_bits());
    assert_eq!(ZERO, 0.0f64.to_bits());
    assert_eq!(INFINITE, f64::INFINITY.to_bits());
    assert_eq!(SIGN, (-0.0f64).to_bits());
}

#[test]
fn less_is_the_comparison_of_the_values() {
    for &a in &samples() {
        for &b in &samples() {
            assert_eq!(is_less(a.to_bits(), b.to_bits()), a < b, "{a} < {b}");
        }
    }
}

#[test]
fn finite_is_finiteness_of_the_value() {
    for &a in &samples() {
        assert_eq!(is_finite(a.to_bits()), a.is_finite(), "{a}");
    }
}

#[test]
fn the_two_zeros_are_not_less_than_one_another() {
    assert!(!is_less(0.0f64.to_bits(), (-0.0f64).to_bits()));
    assert!(!is_less((-0.0f64).to_bits(), 0.0f64.to_bits()));
}

#[test]
fn nothing_is_less_than_a_nan() {
    let nan = f64::NAN.to_bits();
    assert!(!is_less(1.0f64.to_bits(), nan));
    assert!(!is_less(nan, 1.0f64.to_bits()));
    assert!(!is_less(nan, nan));
}
