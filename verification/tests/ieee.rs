use calculator::ieee::{
    is_finite, is_infinite, is_nan, is_negative, is_zero, magnitude, negate, INFINITY, ONE,
    SIGN_BIT, WHOLE, ZERO,
};

const SAMPLES: [f64; 14] = [
    0.0,
    -0.0,
    1.0,
    -1.0,
    0.1,
    -2.5,
    1e15,
    1e-10,
    5e-324,
    f64::MAX,
    f64::MIN_POSITIVE,
    f64::INFINITY,
    f64::NEG_INFINITY,
    f64::NAN,
];

#[test]
fn patterns_are_classified_as_the_doubles_they_stand_for() {
    for x in SAMPLES {
        let bits = x.to_bits();
        assert_eq!(is_zero(bits), x == 0.0, "{x}");
        assert_eq!(is_nan(bits), x.is_nan(), "{x}");
        assert_eq!(is_infinite(bits), x.is_infinite(), "{x}");
        assert_eq!(is_finite(bits), x.is_finite(), "{x}");
        assert_eq!(is_negative(bits), x.is_sign_negative(), "{x}");
        assert_eq!(magnitude(bits), x.abs().to_bits(), "{x}");
        assert_eq!(negate(bits), (-x).to_bits(), "{x}");
        assert_eq!(negate(negate(bits)), bits, "{x}");
    }
}

#[test]
fn the_constants_are_the_patterns_of_their_doubles() {
    assert_eq!(ZERO, 0.0f64.to_bits());
    assert_eq!(ONE, 1.0f64.to_bits());
    assert_eq!(INFINITY, f64::INFINITY.to_bits());
    assert_eq!(SIGN_BIT, (-0.0f64).to_bits());
    assert_eq!(WHOLE, 4503599627370496.0f64.to_bits());
    assert_eq!(calculator::format::TOLERANCE, 1e-10f64.to_bits());
    assert_eq!(calculator::format::PLAIN_LIMIT, 1e15f64.to_bits());
    assert_eq!(calculator::format::PLAIN_FLOOR, 1e-4f64.to_bits());
    let tolerance = calculator::format::TOLERANCE_SIGNIFICAND as f64 / 2f64.powi(86);
    assert_eq!(tolerance, 1e-10);
}
