use beaumont::num::text::TEXT_CAPACITY;
use beaumont::num::Decimal;

// Without scaling.

#[test]
fn display_min_positive_number_unscaled() {
    let n = Decimal::new(-i32::MAX, 0);
    assert_eq!(n.to_string(), (-i32::MAX).to_string());
}

#[test]
fn display_negative_number_unscaled() {
    let n = Decimal::new(-123456, 0);
    assert_eq!(n.to_string(), "-123456");
}

#[test]
fn display_zero_unscaled() {
    let n = Decimal::new(0, 0);
    assert_eq!(n.to_string(), "0");
}

#[test]
fn display_positive_number_unscaled() {
    let n = Decimal::new(123456, 0);
    assert_eq!(n.to_string(), "123456");
}

#[test]
fn display_max_positive_number_unscaled() {
    let n = Decimal::new(i32::MAX, 0);
    assert_eq!(n.to_string(), i32::MAX.to_string());
}

// With fewer digits after the point than the coefficient has.

#[test]
fn display_negative_underscaled() {
    let n = Decimal::new(-123456, 2);
    assert_eq!(n.to_string(), "-1234.56");
}

#[test]
fn display_positive_underscaled() {
    let n = Decimal::new(123456, 2);
    assert_eq!(n.to_string(), "1234.56");
}

// With as many digits after the point as the coefficient has.

#[test]
fn display_negative_number_fully_scaled() {
    let n = Decimal::new(-123456, 6);
    assert_eq!(n.to_string(), "-0.123456");
}

#[test]
fn display_zero_fully_scaled() {
    let n = Decimal::new(0, 1);
    assert_eq!(n.to_string(), "0.0");
}

#[test]
fn display_positive_number_fully_scaled() {
    let n = Decimal::new(123456, 6);
    assert_eq!(n.to_string(), "0.123456");
}

// With more digits after the point than the coefficient has.

#[test]
fn display_negative_over_scaled() {
    let n = Decimal::new(-123456, 8);
    assert_eq!(n.to_string(), "-0.00123456");
}

#[test]
fn display_positive_over_scaled() {
    let n = Decimal::new(12, 8);
    assert_eq!(n.to_string(), "0.00000012");
}

#[test]
fn display_min_coefficient() {
    assert_eq!(Decimal::new(i32::MIN, 0).to_string(), "-2147483648");
    assert_eq!(Decimal::new(i32::MIN, 2).to_string(), "-21474836.48");
    assert_eq!(Decimal::new(i32::MIN, 8).to_string(), "-21.47483648");
}

#[test]
fn display_zero_with_every_scaling() {
    let expected = [
        "0",
        "0.0",
        "0.00",
        "0.000",
        "0.0000",
        "0.00000",
        "0.000000",
        "0.0000000",
        "0.00000000",
    ];
    for scaling in 0..=8u8 {
        assert_eq!(Decimal::new(0, scaling).to_string(), expected[scaling as usize]);
    }
}

#[test]
fn display_digit_counts() {
    assert_eq!(Decimal::new(7, 0).to_string(), "7");
    assert_eq!(Decimal::new(10, 0).to_string(), "10");
    assert_eq!(Decimal::new(99, 1).to_string(), "9.9");
    assert_eq!(Decimal::new(100, 1).to_string(), "10.0");
    assert_eq!(Decimal::new(101, 3).to_string(), "0.101");
    assert_eq!(Decimal::new(1000000000, 8).to_string(), "10.00000000");
    assert_eq!(Decimal::new(-5, 1).to_string(), "-0.5");
}

#[test]
fn format_into_writes_at_the_right_end() {
    let mut buffer = [0u8; TEXT_CAPACITY];
    let first = Decimal::new(-123456, 2).format_into(&mut buffer);
    assert_eq!(first, TEXT_CAPACITY - 8);
    assert_eq!(&buffer[first..], b"-1234.56");

    let first = Decimal::new(5, 0).format_into(&mut buffer);
    assert_eq!(first, TEXT_CAPACITY - 1);
    assert_eq!(&buffer[first..], b"5");
}

#[test]
fn format_agrees_with_integer_formatting() {
    for coefficient in [0, 1, -1, 9, 10, 99, 100, 12345, -98765, i32::MAX, i32::MIN, i32::MIN + 1] {
        assert_eq!(Decimal::new(coefficient, 0).to_string(), coefficient.to_string());
    }
}
