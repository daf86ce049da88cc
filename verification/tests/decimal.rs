use rusty_engine::decimal::{DecimalValue, MAX_MANTISSA, MAX_SCALE};

#[test]
fn decimals_compare_by_value() {
    let a = DecimalValue::new(125, 1);
    let b = DecimalValue::new(1250, 2);
    let c = DecimalValue::new(13, 0);
    assert_eq!(a, b);
    assert!(!a.less_than(&b));
    assert!(!b.less_than(&a));
    assert!(a.less_than(&c));
    assert!(!c.less_than(&a));
    assert_ne!(a, c);
    assert!(DecimalValue::new(-5, 0).less_than(&DecimalValue::new(-49, 1)));
}

#[test]
fn from_parts_refuses_what_a_decimal_cannot_hold() {
    assert!(DecimalValue::from_parts(MAX_MANTISSA, MAX_SCALE).is_some());
    assert!(DecimalValue::from_parts(-MAX_MANTISSA, 0).is_some());
    assert!(DecimalValue::from_parts(MAX_MANTISSA + 1, 0).is_none());
    assert!(DecimalValue::from_parts(-MAX_MANTISSA - 1, 0).is_none());
    assert!(DecimalValue::from_parts(1, MAX_SCALE + 1).is_none());
    let d = DecimalValue::from_parts(-314, 2).unwrap();
    assert_eq!(d.mantissa(), -314);
    assert_eq!(d.scale(), 2);
}

#[test]
fn checked_sub_subtracts() {
    let d = DecimalValue::new(145, 1)
        .checked_sub(&DecimalValue::new(125, 1))
        .unwrap();
    assert_eq!(d.mantissa(), 20);
    assert_eq!(d.scale(), 1);
    let e = DecimalValue::new(1, 0)
        .checked_sub(&DecimalValue::new(25, 2))
        .unwrap();
    assert_eq!(e, DecimalValue::new(75, 2));
    let max = DecimalValue::from_parts(MAX_MANTISSA, 0).unwrap();
    let min = DecimalValue::from_parts(-MAX_MANTISSA, 0).unwrap();
    assert!(max.checked_sub(&min).is_none());
}

#[test]
fn ordering_key_splits_integer_part_and_fraction() {
    let tenth_27: u128 = 1_000_000_000_000_000_000_000_000_000;
    assert_eq!(DecimalValue::new(125, 1).key(), (12, 5 * tenth_27));
    assert_eq!(DecimalValue::new(1250, 2).key(), (12, 5 * tenth_27));
    assert_eq!(DecimalValue::new(-3, 1).key(), (-1, 7 * tenth_27));
    assert_eq!(DecimalValue::new(-20, 1).key(), (-2, 0));
    assert_eq!(DecimalValue::new(7, 0).key(), (7, 0));
    let max = DecimalValue::from_parts(MAX_MANTISSA, MAX_SCALE).unwrap();
    assert_eq!(max.key(), (7, 9228162514264337593543950335));
    let min = DecimalValue::from_parts(-MAX_MANTISSA, 0).unwrap();
    assert_eq!(min.key(), (-MAX_MANTISSA, 0));
}
