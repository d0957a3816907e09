use graphcalc::binary64::{
    abs, is_nan, le, lt, E, HALF, INFINITY, MINUS_ONE, NEG_INFINITY, PI, SIGN_BIT, TWENTY, ZERO,
};
use graphcalc::{COARSE_STEP, FINE_STEP};

fn values() -> Vec<f64> {
    vec![
        0.0,
        -0.0,
        1.0,
        -1.0,
        0.5,
        -0.5,
        2.0,
        -2.0,
        20.0,
        1e-300,
        -1e-300,
        5e-324,
        -5e-324,
        1e300,
        -1e300,
        f64::MAX,
        f64::MIN,
        f64::MIN_POSITIVE,
        f64::EPSILON,
        f64::INFINITY,
        f64::NEG_INFINITY,
        f64::NAN,
        -f64::NAN,
        f64::from_bits(0x7FF0_0000_0000_0001),
        f64::from_bits(0xFFFF_FFFF_FFFF_FFFF),
        std::f64::consts::PI,
        -std::f64::consts::E,
        0.001953125,
    ]
}

#[test]
fn constants_are_the_patterns_of_their_numbers() {
    assert_eq!(ZERO, 0.0f64.to_bits());
    assert_eq!(SIGN_BIT, (-0.0f64).to_bits());
    assert_eq!(INFINITY, f64::INFINITY.to_bits());
    assert_eq!(NEG_INFINITY, f64::NEG_INFINITY.to_bits());
    assert_eq!(MINUS_ONE, (-1.0f64).to_bits());
    assert_eq!(HALF, 0.5f64.to_bits());
    assert_eq!(TWENTY, 20.0f64.to_bits());
    assert_eq!(PI, std::f64::consts::PI.to_bits());
    assert_eq!(E, std::f64::consts::E.to_bits());
    assert_eq!(FINE_STEP, 0.001953125f64.to_bits());
    assert_eq!(COARSE_STEP, 0.00390625f64.to_bits());
}

#[test]
fn abs_clears_the_sign() {
    for v in values() {
        assert_eq!(abs(v.to_bits()), v.abs().to_bits(), "abs of {v}");
    }
    assert_eq!(abs(MINUS_ONE), 1.0f64.to_bits());
}

#[test]
fn is_nan_agrees_with_the_hardware() {
    for v in values() {
        assert_eq!(is_nan(v.to_bits()), v.is_nan(), "is_nan of {v}");
    }
    assert!(is_nan(0x7FF8_0000_0000_0000));
    assert!(!is_nan(INFINITY));
    assert!(!is_nan(NEG_INFINITY));
}

#[test]
fn le_agrees_with_the_hardware() {
    for a in values() {
        for b in values() {
            assert_eq!(le(a.to_bits(), b.to_bits()), a <= b, "{a} <= {b}");
        }
    }
}

#[test]
fn lt_agrees_with_the_hardware() {
    for a in values() {
        for b in values() {
            assert_eq!(lt(a.to_bits(), b.to_bits()), a < b, "{a} < {b}");
        }
    }
}

#[test]
fn zeros_compare_equal() {
    assert!(le(ZERO, SIGN_BIT));
    assert!(le(SIGN_BIT, ZERO));
    assert!(!lt(ZERO, SIGN_BIT));
    assert!(!lt(SIGN_BIT, ZERO));
}

#[test]
fn nan_compares_with_nothing() {
    let nan = f64::NAN.to_bits();
    assert!(!le(nan, nan));
    assert!(!lt(nan, ZERO));
    assert!(!le(ZERO, nan));
    assert!(!lt(NEG_INFINITY, nan));
}

#[test]
fn order_is_that_of_the_number_line() {
    let ascending = [
        f64::NEG_INFINITY,
        -1e300,
        -2.0,
        -1.0,
        -1e-300,
        -5e-324,
        0.0,
        5e-324,
        1e-300,
        1.0,
        2.0,
        1e300,
        f64::INFINITY,
    ];
    for i in 0..ascending.len() {
        for j in 0..ascending.len() {
            let (a, b) = (ascending[i].to_bits(), ascending[j].to_bits());
            assert_eq!(lt(a, b), i < j);
            assert_eq!(le(a, b), i <= j);
        }
    }
}
