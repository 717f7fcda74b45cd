use calculator::format::{format_number, is_integer_like, needs_digits, push_decimal};

fn show(x: f64) -> String {
    format_number(x.to_bits(), &format!("{:.8}", x), &format!("{:.6e}", x))
}

#[test]
fn whole_numbers_are_shown_without_decimals() {
    assert_eq!(show(0.0), "0");
    assert_eq!(show(-0.0), "0");
    assert_eq!(show(3.0), "3");
    assert_eq!(show(-4.0), "-4");
    assert_eq!(show(20.0), "20");
    assert_eq!(show(999999999999999.0), "999999999999999");
    assert_eq!(show(-123456789012345.0), "-123456789012345");
}

#[test]
fn a_fraction_under_the_tolerance_is_dropped() {
    assert_eq!(show(3.00000000001), "3");
    assert_eq!(show(-3.00000000001), "-3");
    assert_eq!(show(0.00000000001), "0");
    assert_eq!(show(-0.00000000001), "0");
    assert_eq!(show(5e-324), "0");
}

#[test]
fn decimals_are_trimmed() {
    assert_eq!(show(2.5), "2.5");
    assert_eq!(show(-2.5), "-2.5");
    assert_eq!(show(0.1 + 0.2), "0.3");
    assert_eq!(show(1.0 / 3.0), "0.33333333");
    assert_eq!(show(2.99999999999), "3");
    assert_eq!(show(0.0001), "0.0001");
    assert_eq!(show(100.25), "100.25");
    assert_eq!(show(123456789.5), "123456789.5");
}

#[test]
fn long_or_extreme_values_are_scientific() {
    assert_eq!(show(1e15), "1e15");
    assert_eq!(show(1e20), "1e20");
    assert_eq!(show(-2.5e30), "-2.5e30");
    assert_eq!(show(1.5e-7), "1.5e-7");
    assert_eq!(show(0.00009), "9e-5");
    assert_eq!(show(1234567890123.5), "1.234568e12");
    assert_eq!(show(123456789.125), "1.234568e8");
    assert_eq!(show(f64::MAX), "1.797693e308");
}

#[test]
fn values_that_are_no_numbers_have_fixed_tokens() {
    assert_eq!(show(f64::NAN), "Error");
    assert_eq!(show(f64::INFINITY), "Infinity");
    assert_eq!(show(f64::NEG_INFINITY), "-Infinity");
}

#[test]
fn renderings_of_the_wrong_shape_are_not_shown() {
    let bits = 2.5f64.to_bits();
    assert_eq!(format_number(bits, "2.5", "2.500000e0"), "2.5e0");
    assert_eq!(format_number(bits, "(2.50000000", "2.5e0"), "Error");
    assert_eq!(format_number(bits, "", ""), "Error");
    assert_eq!(format_number(bits, "2.50000000", ""), "2.5");
    assert_eq!(format_number(3.0f64.to_bits(), "", ""), "3");
}

#[test]
fn digits_are_needed_for_finite_fractions_only() {
    assert!(!needs_digits(3.0f64.to_bits()));
    assert!(!needs_digits(f64::NAN.to_bits()));
    assert!(!needs_digits(f64::INFINITY.to_bits()));
    assert!(needs_digits(2.5f64.to_bits()));
    assert!(needs_digits(1e15f64.to_bits()));
    assert!(needs_digits(1e300f64.to_bits()));
}

#[test]
fn integer_likeness_agrees_with_the_arithmetic_on_doubles() {
    let mut state: u64 = 0x2545_f491_4f6c_dd1d;
    let mut checked = 0;
    for round in 0..200_000u32 {
        state ^= state << 13;
        state ^= state >> 7;
        state ^= state << 17;
        let x = match round % 4 {
            0 => f64::from_bits(state),
            1 => (state % 2_000_000) as f64 / 1000.0 - 1000.0,
            2 => (state % 1_000_000_007) as f64 + ((state >> 40) % 3) as f64 * 1e-11,
            _ => ((state >> 11) as f64) * 2f64.powi(-((state % 64) as i32)),
        };
        if !x.is_finite() {
            continue;
        }
        let expected = x.fract().abs() < 1e-10 && x.abs() < 1e15;
        assert_eq!(is_integer_like(x.to_bits()), expected, "{:e}", x);
        if expected {
            assert_eq!(show(x), format!("{}", x as i64), "{:e}", x);
            checked += 1;
        }
    }
    assert!(checked > 1000);
}

#[test]
fn decimal_digits_have_no_zero_in_front() {
    for n in [0u64, 7, 10, 42, 1000, 999999999999999, u64::MAX] {
        let mut out = vec!['#'];
        push_decimal(&mut out, n);
        let text: String = out.into_iter().collect();
        assert_eq!(text, format!("#{n}"));
    }
}
