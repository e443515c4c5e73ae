use price_oracle::{wide_mul, Asset, Contract, Fraction, Oracle, PriceError};
use std::cmp::Ordering;

fn f(numerator: u128, denominator: u128) -> Fraction {
    Fraction { numerator, denominator }
}

#[test]
fn wide_product_of_largest_values() {
    let w = wide_mul(u128::MAX, u128::MAX);
    assert_eq!(w.hi, u128::MAX - 1);
    assert_eq!(w.lo, 1);
    let w = wide_mul(1u128 << 64, 1u128 << 64);
    assert_eq!(w.hi, 1);
    assert_eq!(w.lo, 0);
    let w = wide_mul(123456789, 987654321);
    assert_eq!(w.hi, 0);
    assert_eq!(w.lo, 123456789u128 * 987654321u128);
}

#[test]
fn fractions_compare_by_value() {
    assert_eq!(f(1, 3).compare(&f(2, 6)), Ordering::Equal);
    assert_eq!(f(1, 3).compare(&f(1, 2)), Ordering::Less);
    assert_eq!(f(3, 4).compare(&f(2, 3)), Ordering::Greater);
    // Cross products far beyond 128 bits.
    let big = f(u128::MAX, u128::MAX - 1);
    let one = f(u128::MAX - 1, u128::MAX - 1);
    assert_eq!(big.compare(&one), Ordering::Greater);
    assert_eq!(one.compare(&big), Ordering::Less);
    assert_eq!(f(u128::MAX, u128::MAX).compare(&f(1, 1)), Ordering::Equal);
}

#[test]
fn zero_denominator_is_refused() {
    assert_eq!(f(1, 0).assert_valid(), Err(PriceError::OutOfRange));
    assert_eq!(f(0, 1).assert_valid(), Ok(()));
}

#[test]
fn records_can_be_set_directly() {
    let mut c = Contract::new(90, "owner.near".to_string(), 0);
    let o = Oracle { last_report: 1, price_reports: 2, last_near_claim: 3 };
    c.internal_set_oracle(&"a.near".to_string(), o);
    assert_eq!(c.internal_get_oracle(&"a.near".to_string()), Some(o));
    c.internal_set_oracle(&"a.near".to_string(), Oracle::new());
    assert_eq!(c.get_oracle(&"a.near".to_string()), Some(Oracle::new()));
    assert_eq!(c.get_oracles(None, None).len(), 1);
    c.internal_set_asset(&"x".to_string(), Asset::new());
    assert!(c.get_asset(&"x".to_string()).is_some());
    assert!(c.internal_set_asset_status(&"x".to_string(), price_oracle::AssetStatus::Hidden));
    assert!(!c.internal_set_asset_status(&"y".to_string(), price_oracle::AssetStatus::Hidden));
    assert!(c.get_asset(&"x".to_string()).is_none());
}
