use beaumont::num::{Decimal, Error, RoundingMode, MAX_SCALING, MIN_COEFFICIENT};

const RM: RoundingMode = RoundingMode::HalfUp;

#[test]
fn align_1234_56_upscale_by_2() {
    // Upscaling is no more than appending zeros.
    let decimal = Decimal::new(123456, 2);
    let aligned = decimal.upscale_by(2);
    assert_eq!(aligned.coefficient(), 12345600);
    assert_eq!(aligned.scaling(), 4);
}

#[test]
fn align_12_341120_downscale_by_4() {
    let decimal = Decimal::new(12341120, 6);
    let aligned = decimal.downscale_by(4, &RM);
    assert_eq!(aligned.coefficient(), 1234);
    assert_eq!(aligned.scaling(), 2);
}

#[test]
fn align_12_3456789_downscale_by_5() {
    let decimal = Decimal::new(123456789, 7);
    let aligned = decimal.downscale_by(5, &RM);
    assert_eq!(aligned.coefficient(), 1235);
    assert_eq!(aligned.scaling(), 2);
}

#[test]
fn align_12_6_downscale_by_1() {
    let decimal = Decimal::new(126, 1);
    let aligned = decimal.downscale_by(1, &RM);
    assert_eq!(aligned.coefficient(), 13);
    assert_eq!(aligned.scaling(), 0);
}

#[test]
fn align_12_1_downscale_by_1() {
    let decimal = Decimal::new(121, 1);
    let aligned = decimal.downscale_by(1, &RM);
    assert_eq!(aligned.coefficient(), 12);
    assert_eq!(aligned.scaling(), 0);
}

#[test]
fn align_min_coefficient_downscale_by_1() {
    // "-21474836.48" with one digit less is "-21474836.5".
    let decimal = Decimal::new(MIN_COEFFICIENT, 2);
    let aligned = decimal.downscale_by(1, &RM);
    assert_eq!(aligned.coefficient(), -214748365);
    assert_eq!(aligned.scaling(), 1);
    assert_eq!(aligned.to_string(), "-21474836.5");
}

#[test]
fn is_aligned_to_compares_scaling() {
    let d1 = Decimal::new(100, 2);
    let d2 = Decimal::new(500, 2);
    let d3 = Decimal::new(100, 3);
    assert_eq!(d1.is_aligned_to(d2), true);
    assert_eq!(d1.is_aligned_to(d3), false);
}

#[test]
fn upscale_renders_trailing_zeros() {
    assert_eq!(Decimal::new(123591, 3).upscale_by(2).to_string(), "123.59100");
}

#[test]
fn try_upscale_by_outcomes() {
    let d = Decimal::new(123591, 3);
    assert_eq!(d.try_upscale_by(2).unwrap().to_string(), "123.59100");
    // Too many zeros for the coefficient.
    assert!(matches!(d.try_upscale_by(5), Err(Error::CoefficientOverflow)));
    // Too many for the coefficient and for the scaling factor: the coefficient is named.
    assert!(matches!(d.try_upscale_by(6), Err(Error::CoefficientOverflow)));
    let far = Decimal::new(123456, 2).try_upscale_by(MAX_SCALING + 1);
    assert!(matches!(far, Err(Error::CoefficientOverflow)));
}

#[test]
fn try_upscale_by_scaling_overflow() {
    // The coefficient stays in range, the scaling factor does not.
    assert!(matches!(Decimal::new(1, 3).try_upscale_by(6), Err(Error::ScalingOverflow)));
    assert!(matches!(Decimal::new(0, 8).try_upscale_by(255), Err(Error::ScalingOverflow)));
    assert!(matches!(Decimal::new(0, 0).try_upscale_by(9), Err(Error::ScalingOverflow)));
    let most = Decimal::new(21, 0).try_upscale_by(8).unwrap();
    assert_eq!(most.coefficient(), 2_100_000_000);
    assert_eq!(most.scaling(), 8);
}

#[test]
fn try_upscale_by_negative_overflow() {
    assert!(matches!(Decimal::new(-3, 0).try_upscale_by(9), Err(Error::CoefficientOverflow)));
    let least = Decimal::new(-2147483, 0).try_upscale_by(3).unwrap();
    assert_eq!(least.coefficient(), -2_147_483_000);
    assert!(matches!(Decimal::new(-2147484, 0).try_upscale_by(3), Err(Error::CoefficientOverflow)));
}

#[test]
fn upscale_by_nothing() {
    let same = Decimal::new(-42, 8).try_upscale_by(0).unwrap();
    assert_eq!(same.coefficient(), -42);
    assert_eq!(same.scaling(), 8);
}

#[test]
fn downscale_renders_rounded() {
    assert_eq!(Decimal::new(12341120, 6).downscale_by(4, &RM).to_string(), "12.34");
    assert_eq!(Decimal::new(123591, 3).downscale_by(2, &RM).to_string(), "123.6");
}

#[test]
fn downscale_by_nothing() {
    let same = Decimal::new(-12345, 3).downscale_by(0, &RM);
    assert_eq!(same.coefficient(), -12345);
    assert_eq!(same.scaling(), 3);
}

#[test]
fn downscale_ties_go_away_from_zero() {
    assert_eq!(Decimal::new(125, 2).downscale_by(1, &RM).coefficient(), 13);
    assert_eq!(Decimal::new(-125, 2).downscale_by(1, &RM).coefficient(), -13);
    assert_eq!(Decimal::new(124, 2).downscale_by(1, &RM).coefficient(), 12);
    assert_eq!(Decimal::new(-124, 2).downscale_by(1, &RM).coefficient(), -12);
    assert_eq!(Decimal::new(1500, 3).downscale_by(3, &RM).coefficient(), 2);
    assert_eq!(Decimal::new(1499, 3).downscale_by(3, &RM).coefficient(), 1);
    assert_eq!(Decimal::new(-1500, 3).downscale_by(3, &RM).coefficient(), -2);
}

#[test]
fn downscale_to_nothing_left() {
    assert_eq!(Decimal::new(4, 1).downscale_by(1, &RM).coefficient(), 0);
    assert_eq!(Decimal::new(5, 1).downscale_by(1, &RM).coefficient(), 1);
    assert_eq!(Decimal::new(49999999, 8).downscale_by(8, &RM).coefficient(), 0);
    assert_eq!(Decimal::new(50000000, 8).downscale_by(8, &RM).coefficient(), 1);
    assert_eq!(Decimal::new(i32::MAX, 8).downscale_by(8, &RM).coefficient(), 21);
    assert_eq!(Decimal::new(i32::MIN, 8).downscale_by(8, &RM).coefficient(), -21);
}
