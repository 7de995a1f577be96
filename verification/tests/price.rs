use matching_engine::error::EngineError;
use matching_engine::price::{Price, SCALE};

#[test]
fn price_scale_is_one_thousand() {
    assert_eq!(SCALE, 1000);
}

#[test]
fn price_from_whole_number() {
    let price = Price::new(10000, 0).unwrap();
    assert_eq!(price.ticks, 10_000_000);
    assert_eq!(price.integral(), 10000);
    assert_eq!(price.fractional(), 0);
}

#[test]
fn price_from_decimal_keeps_thousandths() {
    let price = Price::new(55, 1).unwrap();
    assert_eq!(price.ticks, 5500);
    assert_eq!(price.integral(), 5);
    assert_eq!(price.fractional(), 500);
}

#[test]
fn price_truncates_below_a_tick() {
    let price = Price::new(1234567, 6).unwrap();
    assert_eq!(price.ticks, 1234);
    assert_eq!(price.integral(), 1);
    assert_eq!(price.fractional(), 234);
    let other = Price::new(1999999, 6).unwrap();
    assert_eq!(other.ticks, 1999);
}

#[test]
fn price_same_value_in_other_digits_is_equal() {
    assert_eq!(Price::new(55, 1).unwrap(), Price::new(5500, 3).unwrap());
    assert_eq!(Price::new(55, 1).unwrap(), Price::new(5_500_000, 6).unwrap());
    assert_ne!(Price::new(55, 1).unwrap(), Price::new(5501, 3).unwrap());
}

#[test]
fn price_negative_is_rejected() {
    assert_eq!(Price::new(-1, 0), Err(EngineError::InvalidPrice));
    assert_eq!(Price::new(-55, 1), Err(EngineError::InvalidPrice));
    assert_eq!(Price::new(i64::MIN, 255), Err(EngineError::InvalidPrice));
}

#[test]
fn price_zero_is_accepted() {
    let price = Price::new(0, 0).unwrap();
    assert_eq!(price.ticks, 0);
    assert_eq!(Price::new(0, 200).unwrap().ticks, 0);
}

#[test]
fn price_many_decimals_vanish() {
    assert_eq!(Price::new(i64::MAX, 22).unwrap().ticks, 0);
    assert_eq!(Price::new(i64::MAX, 255).unwrap().ticks, 0);
    assert_eq!(Price::new(i64::MAX, 21).unwrap().ticks, 9);
    assert_eq!(Price::new(i64::MAX, 19).unwrap().ticks, 922);
}

#[test]
fn price_too_large_is_capped() {
    assert_eq!(Price::new(i64::MAX, 0).unwrap().ticks, u64::MAX);
    assert_eq!(
        Price::new(18_446_744_073_709_551, 0).unwrap().ticks,
        18_446_744_073_709_551_000
    );
    assert_eq!(Price::new(18_446_744_073_709_552, 0).unwrap().ticks, u64::MAX);
}

#[test]
fn price_gt_orders_by_integral_then_fractional() {
    let low = Price::new(99, 0).unwrap();
    let mid = Price::new(995, 1).unwrap();
    let high = Price::new(100, 0).unwrap();
    assert!(mid.gt(&low));
    assert!(high.gt(&mid));
    assert!(high.gt(&low));
    assert!(!low.gt(&mid));
    assert!(!mid.gt(&mid));
    assert!(!low.gt(&high));
}
