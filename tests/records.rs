use borsh::BorshSerialize;
use price_oracle::{
    decode_asset, decode_oracle, encode_asset, encode_oracle, parse_asset_query, parse_period,
    select_nth, Asset, AssetEma, AssetStatus, DecodeError, Oracle, Price, PriceError, Report,
};
use std::cmp::Ordering;

fn report(id: &str, timestamp: u64, multiplier: u128) -> Report {
    Report { oracle_id: id.to_string(), timestamp, price: Price { multiplier, decimals: 28 } }
}

fn sample_asset() -> Asset {
    let mut a = Asset::new();
    a.add_report(report("user_0.near", 7, 100000));
    a.add_report(report("ünïcødé.near", 9, 110000));
    a.emas.push(AssetEma { period_sec: 3600, timestamp: 11, price: Some(Price { multiplier: 5, decimals: 2 }) });
    a.emas.push(AssetEma::new(60));
    a.status = AssetStatus::Hidden;
    a
}

type RawReport = (String, u64, (u128, u8));
type RawEma = (u32, u64, Option<(u128, u8)>);

fn raw_reports(a: &Asset) -> Vec<RawReport> {
    a.reports
        .iter()
        .map(|r| (r.oracle_id.clone(), r.timestamp, (r.price.multiplier, r.price.decimals)))
        .collect()
}

fn raw_emas(a: &Asset) -> Vec<RawEma> {
    a.emas
        .iter()
        .map(|e| (e.period_sec, e.timestamp, e.price.map(|p| (p.multiplier, p.decimals))))
        .collect()
}

fn same_asset(a: &Asset, b: &Asset) -> bool {
    a.status == b.status && raw_reports(a) == raw_reports(b) && raw_emas(a) == raw_emas(b)
}

#[test]
fn current_record_round_trips() {
    let a = sample_asset();
    let bytes = encode_asset(&a);
    let back = decode_asset(&bytes).unwrap();
    assert!(same_asset(&a, &back));
}

#[test]
fn current_record_has_the_stored_layout() {
    let a = sample_asset();
    let expected = (2u8, 1u8, raw_reports(&a), raw_emas(&a)).try_to_vec().unwrap();
    assert_eq!(encode_asset(&a), expected);
}

#[test]
fn first_shape_reads_as_active_without_averages() {
    let a = sample_asset();
    let bytes = (0u8, raw_reports(&a)).try_to_vec().unwrap();
    let back = decode_asset(&bytes).unwrap();
    assert_eq!(back.status, AssetStatus::Active);
    assert_eq!(raw_reports(&back), raw_reports(&a));
    assert!(back.emas.is_empty());
}

#[test]
fn second_shape_reads_as_active() {
    let a = sample_asset();
    let bytes = (1u8, raw_reports(&a), raw_emas(&a)).try_to_vec().unwrap();
    let back = decode_asset(&bytes).unwrap();
    assert_eq!(back.status, AssetStatus::Active);
    assert_eq!(raw_reports(&back), raw_reports(&a));
    assert_eq!(raw_emas(&back), raw_emas(&a));
}

#[test]
fn corrupt_records_are_refused() {
    let a = sample_asset();
    let mut bytes = encode_asset(&a);
    bytes.push(0);
    assert_eq!(decode_asset(&bytes).err(), Some(DecodeError::Corrupt));
    assert_eq!(decode_asset(&vec![3u8]).err(), Some(DecodeError::Corrupt));
    assert_eq!(decode_asset(&vec![]).err(), Some(DecodeError::Corrupt));
    let good = encode_asset(&a);
    assert_eq!(decode_asset(&good[..good.len() - 1].to_vec()).err(), Some(DecodeError::Corrupt));
    // A reporter name that is not UTF-8.
    let bad = (0u8, 1u32, 2u32, 0xffu8, 0xfeu8, 0u64, (1u128, 0u8)).try_to_vec().unwrap();
    assert_eq!(decode_asset(&bad).err(), Some(DecodeError::Corrupt));
}

#[test]
fn oracle_records_round_trip() {
    let o = Oracle { last_report: 5, price_reports: 6, last_near_claim: 7 };
    let bytes = encode_oracle(&o);
    assert_eq!(bytes, (1u8, 5u64, 6u64, 7u64).try_to_vec().unwrap());
    assert_eq!(decode_oracle(&bytes), Ok(o));
    let old = (0u8, 5u64, 6u64).try_to_vec().unwrap();
    assert_eq!(
        decode_oracle(&old),
        Ok(Oracle { last_report: 5, price_reports: 6, last_near_claim: 0 })
    );
    assert_eq!(decode_oracle(&vec![1u8, 2u8]), Err(DecodeError::Corrupt));
    assert_eq!(Oracle::new(), Oracle { last_report: 0, price_reports: 0, last_near_claim: 0 });
}

#[test]
fn rescaled_prices_are_equal() {
    let a = Price { multiplier: 100, decimals: 2 };
    let b = Price { multiplier: 1000, decimals: 3 };
    assert_eq!(a.compare(&b), Ordering::Equal);
    assert_eq!(a, b);
    assert_eq!(Price { multiplier: 1, decimals: 2 }, Price { multiplier: 10, decimals: 3 });
}

#[test]
fn order_across_scales() {
    let near = Price { multiplier: 1000, decimals: 26 };
    let dai = Price { multiplier: 101, decimals: 20 };
    assert_eq!(near.compare(&dai), Ordering::Less);
    assert_eq!(dai.compare(&near), Ordering::Greater);
    assert!(near < dai);
    // Far finer than a positive price: smaller.
    let tiny = Price { multiplier: u128::MAX, decimals: 77 };
    let one = Price { multiplier: 1, decimals: 0 };
    assert_eq!(tiny.compare(&one), Ordering::Less);
    // The multiplication overflows: the finer one is smaller.
    let big = Price { multiplier: u128::MAX, decimals: 38 };
    assert_eq!(big.compare(&Price { multiplier: 10, decimals: 0 }), Ordering::Less);
    assert_eq!(big.compare(&Price { multiplier: 1, decimals: 0 }), Ordering::Greater);
}

#[test]
fn zeros_and_far_finer_prices_compare_by_value() {
    let zero = Price { multiplier: 0, decimals: 0 };
    assert_eq!(Price { multiplier: 0, decimals: 60 }.compare(&zero), Ordering::Equal);
    assert_eq!(Price { multiplier: 0, decimals: 60 }, zero);
    assert_eq!(Price { multiplier: 0, decimals: 30 }, zero);
    assert_eq!(Price { multiplier: 1, decimals: 40 }.compare(&zero), Ordering::Greater);
    assert_eq!(zero.compare(&Price { multiplier: 1, decimals: 40 }), Ordering::Less);
    assert_eq!(Price { multiplier: 0, decimals: 77 }.compare(&Price { multiplier: 1, decimals: 0 }), Ordering::Less);
}

#[test]
fn validity_ceiling() {
    assert_eq!(Price { multiplier: 1, decimals: 77 }.assert_valid(), Ok(()));
    assert_eq!(Price { multiplier: 1, decimals: 78 }.assert_valid(), Err(PriceError::OutOfRange));
}

#[test]
fn selection_places_rank() {
    let mut v: Vec<Price> = [5u128, 1, 4, 1, 3, 9, 2]
        .iter()
        .map(|&m| Price { multiplier: m, decimals: 0 })
        .collect();
    select_nth(&mut v, 3);
    assert_eq!(v[3].multiplier, 3);
    assert!(v[..3].iter().all(|p| p.multiplier <= 3));
    assert!(v[4..].iter().all(|p| p.multiplier >= 3));
}

#[test]
fn median_middle_of_three() {
    let mut a = Asset::new();
    a.add_report(report("a", 10, 100000));
    a.add_report(report("b", 10, 110000));
    a.add_report(report("c", 10, 106000));
    assert_eq!(a.median_price(0, 2), Some(Price { multiplier: 106000, decimals: 28 }));
}

#[test]
fn median_upper_middle_of_even_count() {
    let mut a = Asset::new();
    a.add_report(report("a", 10, 4));
    a.add_report(report("b", 10, 1));
    a.add_report(report("c", 10, 3));
    a.add_report(report("d", 10, 2));
    assert_eq!(a.median_price(0, 1).unwrap().multiplier, 3);
}

#[test]
fn median_quorum_boundary() {
    let mut a = Asset::new();
    a.add_report(report("a", 10, 1));
    a.add_report(report("b", 10, 2));
    a.add_report(report("c", 3, 9));
    // Two fresh reports at cut 5.
    assert_eq!(a.median_price(5, 3), None);
    assert_eq!(a.median_price(5, 2).unwrap().multiplier, 2);
    assert_eq!(Asset::new().median_price(0, 0), None);
}

#[test]
fn median_ignores_order_and_reporters() {
    let mut a = Asset::new();
    let mut b = Asset::new();
    let values = [7u128, 3, 9, 1, 5];
    for (i, &m) in values.iter().enumerate() {
        a.add_report(report(&format!("r{}", i), 10, m));
        b.add_report(report(&format!("s{}", 4 - i), 10, values[4 - i]));
    }
    assert_eq!(a.median_price(0, 1), b.median_price(0, 1));
    assert_eq!(a.median_price(0, 1).unwrap().multiplier, 5);
}

#[test]
fn upsert_keeps_only_latest() {
    let mut a = Asset::new();
    a.upsert_report(report("a", 1, 10));
    a.upsert_report(report("b", 1, 20));
    a.upsert_report(report("a", 2, 30));
    assert_eq!(a.reports.len(), 2);
    assert_eq!(a.reports[1].oracle_id, "a");
    assert_eq!(a.reports[1].timestamp, 2);
    assert_eq!(a.reports[0].oracle_id, "b");
    assert!(a.remove_report(&"a".to_string()));
    assert!(!a.remove_report(&"a".to_string()));
    assert_eq!(a.reports.len(), 1);
}

#[test]
fn asset_ids_with_periods() {
    let q = parse_asset_query(&"wrap.near#3600".to_string()).unwrap();
    assert_eq!(q.base_asset_id, "wrap.near");
    assert_eq!(q.period_sec, Some(3600));
    let q = parse_asset_query(&"wrap.near".to_string()).unwrap();
    assert_eq!(q.base_asset_id, "wrap.near");
    assert_eq!(q.period_sec, None);
    let q = parse_asset_query(&"a#b#60".to_string());
    assert!(q.is_err());
    assert_eq!(parse_period("+5"), Some(5));
    assert_eq!(parse_period("4294967295"), Some(u32::MAX));
    assert_eq!(parse_period("4294967296"), None);
    assert_eq!(parse_period("-1"), None);
    assert_eq!(parse_period(""), None);
    assert_eq!(parse_period("+"), None);
    assert_eq!(parse_period("007"), Some(7));
}

#[test]
fn snapshot_copies_asset() {
    let a = sample_asset();
    assert!(same_asset(&a, &a.snapshot()));
}
