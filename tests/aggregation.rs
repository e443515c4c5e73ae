use price_oracle::{
    to_nano, AssetEma, AssetPrice, Contract, OracleError, Price, PriceError, QueryError,
    Timestamp,
};

const OWNER_ID: &str = "owner.near";
const WRAP_NEAR: &str = "wrap.near";
const WRAP_NEAR_3600: &str = "wrap.near#3600";
const BASE_DECIMALS: u8 = 28;

fn ts(sec: u32) -> Timestamp {
    to_nano(1_600_000_000 + sec)
}

fn user(i: usize) -> String {
    format!("user_{}.near", i)
}

fn mp(multiplier: u128) -> Price {
    Price { multiplier, decimals: BASE_DECIMALS }
}

/// The time-weighted smoothing step that the contract uses for its moving
/// averages.
fn ema_step(current: Price, median: Price, time_diff: u64, period_sec: u32) -> Price {
    let alpha = 1.0f64 - (-2.0f64 * time_diff as f64 / to_nano(period_sec) as f64).exp();
    let mut current_f64 = current.multiplier as f64;
    current_f64 *= 10f64.powi(median.decimals as i32 - current.decimals as i32);
    current_f64 += alpha * (median.multiplier as f64 - current_f64);
    if current_f64 <= 1e30 {
        Price { multiplier: (current_f64 * 1e4).round() as u128, decimals: median.decimals + 4 }
    } else {
        Price { multiplier: current_f64.round() as u128, decimals: median.decimals }
    }
}

struct Env {
    contract: Contract,
    now: Timestamp,
}

impl Env {
    fn setup() -> Env {
        Env {
            contract: Contract::new(90, OWNER_ID.to_string(), 5_000_000_000_000_000_000_000_000),
            now: ts(0),
        }
    }

    fn owner(&self) -> String {
        OWNER_ID.to_string()
    }

    fn add_oracle(&mut self, i: usize) {
        let owner = self.owner();
        self.contract.add_oracle(&owner, user(i)).unwrap();
    }

    fn add_asset(&mut self, asset_id: &str) {
        let owner = self.owner();
        self.contract.add_asset(&owner, asset_id.to_string()).unwrap();
    }

    fn add_asset_ema(&mut self, asset_id: &str, period_sec: u32) {
        let owner = self.owner();
        self.contract.add_asset_ema(&owner, &asset_id.to_string(), period_sec).unwrap();
    }

    fn skip_time(&mut self, seconds: u32) {
        self.now += to_nano(seconds);
    }

    fn report(&mut self, i: usize, asset_id: &str, price: Price) -> Option<u128> {
        let receipt = self
            .contract
            .report_prices(
                &user(i),
                self.now,
                vec![AssetPrice { asset_id: asset_id.to_string(), price }],
                &ema_step,
            )
            .unwrap();
        assert_eq!(receipt.outcomes, vec![Ok(())]);
        receipt.near_claim
    }

    fn make_reports(&mut self, multipliers: &[u128]) {
        for (i, &multiplier) in multipliers.iter().enumerate() {
            if multiplier > 0 {
                self.report(i, WRAP_NEAR, mp(multiplier));
            }
        }
    }

    fn prices(&self, asset_ids: Option<Vec<&str>>) -> Vec<(String, Option<Price>)> {
        let ids = asset_ids.map(|v| v.into_iter().map(|s| s.to_string()).collect());
        let data = self.contract.get_price_data(ids, self.now).unwrap();
        assert_eq!(data.timestamp, self.now);
        data.prices.into_iter().map(|p| (p.asset_id, p.price)).collect()
    }

    fn three_oracles_one_asset() -> Env {
        let mut e = Env::setup();
        e.add_oracle(0);
        e.add_oracle(1);
        e.add_oracle(2);
        e.add_asset(WRAP_NEAR);
        e
    }
}

#[test]
fn test_init() {
    let e = Env::setup();
    assert_eq!(e.contract.get_owner_id(), OWNER_ID.to_string());
    assert!(e.prices(None).is_empty());
}

#[test]
fn test_basic() {
    let mut e = Env::three_oracles_one_asset();
    e.make_reports(&[100000, 110000, 106000]);
    let data = e.contract.get_price_data(None, e.now).unwrap();
    assert_eq!(data.recency_duration_sec, 90);
    assert_eq!(data.timestamp, ts(0));
    assert_eq!(data.prices.len(), 1);
    assert_eq!(&data.prices[0].asset_id, WRAP_NEAR);
    assert_eq!(&data.prices[0].price, &Some(Price { multiplier: 106000, decimals: 28 }));
}

// The reward is decided by the claim period alone: a reporter that never
// claimed is due with its first report, then once a day. Balances are the
// runtime's, so this checks the amount the receipt says is due.
#[test]
fn test_claim_near() {
    let mut e = Env::three_oracles_one_asset();
    let claimed = e.report(0, WRAP_NEAR, mp(100000));
    // A reporter that never claimed is due its reward with its first report.
    assert_eq!(claimed, Some(5_000_000_000_000_000_000_000_000));
    e.report(1, WRAP_NEAR, mp(110000));
    e.report(2, WRAP_NEAR, mp(106000));
    let prices = e.prices(None);
    assert_eq!(prices.len(), 1);
    assert_eq!(prices[0].0, WRAP_NEAR);
    assert_eq!(prices[0].1, Some(Price { multiplier: 106000, decimals: 28 }));

    // Within the claim period no second reward is due.
    assert_eq!(e.report(0, WRAP_NEAR, mp(108000)), None);
    let prices = e.prices(None);
    assert_eq!(prices[0].1, Some(Price { multiplier: 108000, decimals: 28 }));

    // A full day later it is due again.
    e.skip_time(24 * 60 * 60);
    assert_eq!(e.report(0, WRAP_NEAR, mp(108000)), Some(5_000_000_000_000_000_000_000_000));
    let record = e.contract.get_oracle(&user(0)).unwrap();
    assert_eq!(record.last_near_claim, e.now);
    assert_eq!(record.price_reports, 3);
}

// The runtime's balance is not the library's concern; a claim amount of zero
// stands for a contract with nothing to pay out, and prices are unaffected.
#[test]
fn test_claim_near_no_oracle_balance() {
    let mut e = Env::three_oracles_one_asset();
    let owner = e.owner();
    e.contract.update_near_claim_amount(&owner, 0).unwrap();
    assert_eq!(e.contract.get_near_claim_amount(), 0);
    e.make_reports(&[100000, 110000, 106000]);
    let prices = e.prices(None);
    assert_eq!(prices.len(), 1);
    assert_eq!(prices[0].1, Some(Price { multiplier: 106000, decimals: 28 }));
    e.report(0, WRAP_NEAR, mp(108000));
    let prices = e.prices(None);
    assert_eq!(prices[0].0, WRAP_NEAR);
    assert_eq!(prices[0].1, Some(Price { multiplier: 108000, decimals: 28 }));
}

#[test]
fn test_ema() {
    let mut e = Env::three_oracles_one_asset();
    e.make_reports(&[100000, 110000, 106000]);
    e.add_asset_ema(WRAP_NEAR, 3600);

    let prices = e.prices(None);
    assert_eq!(prices.len(), 1);
    assert_eq!(prices[0].0, WRAP_NEAR);
    assert_eq!(prices[0].1, Some(Price { multiplier: 106000, decimals: 28 }));

    let prices = e.prices(Some(vec![WRAP_NEAR, WRAP_NEAR_3600]));
    assert_eq!(prices.len(), 2);
    assert_eq!(prices[0].0, WRAP_NEAR);
    assert_eq!(prices[0].1, Some(Price { multiplier: 106000, decimals: 28 }));
    assert_eq!(prices[1].0, WRAP_NEAR_3600);
    assert!(prices[1].1.is_none());

    e.skip_time(60);
    e.make_reports(&[100000]);

    let prices = e.prices(Some(vec![WRAP_NEAR, WRAP_NEAR_3600]));
    assert_eq!(prices.len(), 2);
    assert_eq!(prices[0].1, Some(Price { multiplier: 106000, decimals: 28 }));
    assert_eq!(prices[1].0, WRAP_NEAR_3600);
    assert_eq!(prices[1].1, Some(Price { multiplier: 106000, decimals: 28 }));

    e.make_reports(&[0, 110000, 106000]);

    let prices = e.prices(Some(vec![WRAP_NEAR_3600]));
    assert_eq!(prices.len(), 1);
    assert_eq!(prices[0].0, WRAP_NEAR_3600);
    assert_eq!(prices[0].1, Some(Price { multiplier: 106000, decimals: 28 }));

    e.skip_time(60);
    e.make_reports(&[110000]);

    let prices = e.prices(Some(vec![WRAP_NEAR, WRAP_NEAR_3600]));
    assert_eq!(prices.len(), 2);
    assert_eq!(prices[0].1, Some(Price { multiplier: 110000, decimals: 28 }));
    assert_eq!(prices[1].0, WRAP_NEAR_3600);
    assert_eq!(prices[1].1, Some(Price { multiplier: 1061311356, decimals: 32 }));

    // The other two reporters did not report within the window: no median.
    e.skip_time(60);
    let prices = e.prices(Some(vec![WRAP_NEAR, WRAP_NEAR_3600]));
    assert!(prices[0].1.is_none());
    assert_eq!(prices[1].1, Some(Price { multiplier: 1061311356, decimals: 32 }));

    // A minute later the average is stale too.
    e.skip_time(60);
    let prices = e.prices(Some(vec![WRAP_NEAR, WRAP_NEAR_3600]));
    assert!(prices[0].1.is_none());
    assert!(prices[1].1.is_none());
}

#[test]
fn test_ema_init() {
    let mut ema = AssetEma { period_sec: 60000, timestamp: ts(0), price: None };
    let timestamp = ts(10);
    let price = mp(100000);
    ema.recompute(price, timestamp, &ema_step);
    assert_eq!(ema.timestamp, timestamp);
    assert_eq!(ema.price, Some(price));
    assert_eq!(ema.price.unwrap().multiplier, 100000);
    assert_eq!(ema.price.unwrap().decimals, BASE_DECIMALS);
}

#[test]
fn test_ema_period() {
    let price_multipliers = vec![
        22.27, 22.19, 22.08, 22.17, 22.18, 22.13, 22.23, 22.43, 22.24, 22.29, 22.15, 22.39, 22.38,
        22.61, 23.36, 24.05, 23.75, 23.83, 23.95, 23.63, 23.82, 23.87, 23.65, 23.19, 23.10, 23.33,
        22.68, 23.10, 22.40, 22.17,
    ];
    let expected_emas = vec![
        0.0, 0.0, 0.0, 0.0, 0.0, 0.0, 0.0, 0.0, 0.0, 22.22, 22.21, 22.24, 22.27, 22.33, 22.52,
        22.80, 22.97, 23.13, 23.28, 23.34, 23.43, 23.51, 23.53, 23.47, 23.40, 23.39, 23.26, 23.23,
        23.08, 22.92,
    ];
    let step = 60;
    let period_sec = step * 10;
    let mut ema = AssetEma { period_sec, timestamp: ts(0), price: None };
    for (i, (multiplier, expected_ema)) in
        price_multipliers.into_iter().zip(expected_emas).enumerate()
    {
        let timestamp = ts(step * (i as u32 + 1));
        let price = mp((multiplier * 1e4) as u128);
        ema.recompute(price, timestamp, &ema_step);
        assert_eq!(ema.timestamp, timestamp);
        if expected_ema > 0.0 {
            let ema_price = ema.price.as_ref().unwrap();
            let ema_value = (ema_price.multiplier as f64)
                / 10f64.powi(ema_price.decimals as i32 + 4 - BASE_DECIMALS as i32);
            assert!((ema_value - expected_ema).abs() <= 0.031, "{} vs {}", ema_value, expected_ema);
        }
    }
}

#[test]
fn ema_converges_to_constant_feed() {
    let mut ema = AssetEma::new(600);
    for i in 0..200u32 {
        ema.recompute(mp(250000), ts(60 * (i + 1)), &ema_step);
    }
    let p = ema.price.unwrap();
    assert_eq!(p, mp(250000));
}

#[test]
fn ema_first_feed_ignores_elapsed_time() {
    let mut ema = AssetEma::new(3600);
    ema.recompute(mp(123), ts(1_000_000), &ema_step);
    assert_eq!(ema.price.unwrap().multiplier, 123);
    assert_eq!(ema.price.unwrap().decimals, BASE_DECIMALS);
    assert_eq!(ema.timestamp, ts(1_000_000));
}

#[test]
fn ema_stays_none_until_fed() {
    let mut e = Env::three_oracles_one_asset();
    e.add_asset_ema(WRAP_NEAR, 3600);
    // Only one report: below quorum, so the average is not fed.
    e.report(0, WRAP_NEAR, mp(100000));
    assert_eq!(e.prices(Some(vec![WRAP_NEAR_3600]))[0].1, None);
    e.report(1, WRAP_NEAR, mp(110000));
    assert_eq!(e.prices(Some(vec![WRAP_NEAR_3600]))[0].1, Some(mp(110000)));
}

#[test]
fn invalid_price_is_refused_alone() {
    let mut e = Env::three_oracles_one_asset();
    e.add_asset("dai.near");
    let receipt = e
        .contract
        .report_prices(
            &user(0),
            e.now,
            vec![
                AssetPrice { asset_id: WRAP_NEAR.to_string(), price: Price { multiplier: 1, decimals: 78 } },
                AssetPrice { asset_id: "dai.near".to_string(), price: Price { multiplier: 101, decimals: 20 } },
            ],
            &ema_step,
        )
        .unwrap();
    assert_eq!(receipt.outcomes, vec![Err(PriceError::OutOfRange), Ok(())]);
    let data = e.contract.get_oracle_price_data(&user(0), None, None, e.now);
    assert_eq!(data.len(), 2);
    assert_eq!(data[0].price, None);
    assert_eq!(data[1].price, Some(Price { multiplier: 101, decimals: 20 }));
    assert_eq!(data[1].timestamp, Some(e.now));
}

#[test]
fn batch_errors_change_nothing() {
    let mut e = Env::three_oracles_one_asset();
    let batch = |id: &str| vec![AssetPrice { asset_id: id.to_string(), price: mp(1) }];
    assert_eq!(
        e.contract.report_prices(&user(0), e.now, vec![], &ema_step).err(),
        Some(OracleError::EmptyBatch)
    );
    assert_eq!(
        e.contract.report_prices(&user(4), e.now, batch(WRAP_NEAR), &ema_step).err(),
        Some(OracleError::NotAnOracle)
    );
    let mut two = batch(WRAP_NEAR);
    two.extend(batch("missing.near"));
    assert_eq!(
        e.contract.report_prices(&user(0), e.now, two, &ema_step).err(),
        Some(OracleError::UnknownAsset)
    );
    assert!(e.contract.get_oracle_price_data(&user(0), None, None, e.now)[0].price.is_none());
    assert_eq!(e.contract.get_oracle(&user(0)).unwrap().price_reports, 0);
}

#[test]
fn report_before_average_update_is_refused() {
    let mut e = Env::three_oracles_one_asset();
    e.add_asset_ema(WRAP_NEAR, 3600);
    e.make_reports(&[100000, 110000]);
    let earlier = e.now - 1;
    let r = e.contract.report_prices(
        &user(2),
        earlier,
        vec![AssetPrice { asset_id: WRAP_NEAR.to_string(), price: mp(1) }],
        &ema_step,
    );
    assert_eq!(r.err(), Some(OracleError::ClockBehind));
}

#[test]
fn bad_period_suffix_fails_query() {
    let mut e = Env::three_oracles_one_asset();
    e.make_reports(&[100000, 110000, 106000]);
    let r = e.contract.get_price_data(Some(vec!["wrap.near#1h".to_string()]), e.now);
    assert_eq!(r.err(), Some(QueryError::BadEmaPeriod));
    let r = e.contract.get_price_data(Some(vec!["wrap.near#".to_string()]), e.now);
    assert_eq!(r.err(), Some(QueryError::BadEmaPeriod));
}

#[test]
fn base_and_period_ids_are_independent() {
    let mut e = Env::three_oracles_one_asset();
    e.make_reports(&[100000, 110000, 106000]);
    let prices = e.prices(Some(vec![WRAP_NEAR, "wrap.near#60", "other.near"]));
    assert_eq!(prices[0].1, Some(mp(106000)));
    assert_eq!(prices[1].1, None);
    assert_eq!(prices[2].1, None);
}

#[test]
fn hidden_asset_has_no_price() {
    let mut e = Env::three_oracles_one_asset();
    e.make_reports(&[100000, 110000, 106000]);
    assert_eq!(
        e.contract.hide_asset(&"stranger.near".to_string(), &WRAP_NEAR.to_string()),
        Err(OracleError::NotAnOracle)
    );
    e.contract.hide_asset(&user(0), &WRAP_NEAR.to_string()).unwrap();
    assert_eq!(e.prices(None)[0].1, None);
    assert!(e.contract.get_asset(&WRAP_NEAR.to_string()).is_none());
    assert_eq!(
        e.contract.internal_get_asset_status(&WRAP_NEAR.to_string()),
        Some(price_oracle::AssetStatus::Hidden)
    );
    // The reporter's own data stays readable.
    let data = e.contract.get_oracle_price_data(&user(1), None, None, e.now);
    assert_eq!(data[0].price, Some(mp(110000)));
}

#[test]
fn clean_oracle_data_removes_reports() {
    let mut e = Env::three_oracles_one_asset();
    e.make_reports(&[100000, 110000, 106000]);
    let owner = e.owner();
    assert_eq!(
        e.contract.clean_oracle_data(&user(2), vec![WRAP_NEAR.to_string()]),
        Err(OracleError::StillAnOracle)
    );
    e.contract.remove_oracle(&owner, &user(2)).unwrap();
    assert_eq!(e.contract.remove_oracle(&owner, &user(2)), Err(OracleError::UnknownOracle));
    assert_eq!(
        e.contract.clean_oracle_data(&user(2), vec!["missing.near".to_string()]),
        Err(OracleError::UnknownAsset)
    );
    e.contract.clean_oracle_data(&user(2), vec![WRAP_NEAR.to_string()]).unwrap();
    let asset = e.contract.get_asset(&WRAP_NEAR.to_string()).unwrap();
    assert_eq!(asset.reports.len(), 2);
    // Two reporters remain: quorum 2 of the two reports left, upper middle.
    assert_eq!(e.prices(None)[0].1, Some(mp(110000)));
}

#[test]
fn owner_operations_check_the_caller() {
    let mut e = Env::setup();
    let stranger = "stranger.near".to_string();
    let owner = e.owner();
    assert_eq!(e.contract.add_oracle(&stranger, user(0)), Err(OracleError::NotOwner));
    assert_eq!(e.contract.add_asset(&stranger, WRAP_NEAR.to_string()), Err(OracleError::NotOwner));
    assert_eq!(e.contract.set_recency_duration_sec(&stranger, 1), Err(OracleError::NotOwner));
    assert_eq!(e.contract.update_owner_id(&stranger, stranger.clone()), Err(OracleError::NotOwner));
    e.contract.add_oracle(&owner, user(0)).unwrap();
    assert_eq!(e.contract.add_oracle(&owner, user(0)), Err(OracleError::OracleExists));
    e.contract.add_asset(&owner, WRAP_NEAR.to_string()).unwrap();
    assert_eq!(e.contract.add_asset(&owner, WRAP_NEAR.to_string()), Err(OracleError::AssetExists));
    let id = WRAP_NEAR.to_string();
    e.contract.add_asset_ema(&owner, &id, 3600).unwrap();
    assert_eq!(e.contract.add_asset_ema(&owner, &id, 3600), Err(OracleError::EmaExists));
    assert_eq!(e.contract.remove_asset_ema(&owner, &id, 60), Err(OracleError::UnknownEma));
    e.contract.remove_asset_ema(&owner, &id, 3600).unwrap();
    assert_eq!(
        e.contract.add_asset_ema(&owner, &"missing.near".to_string(), 60),
        Err(OracleError::UnknownAsset)
    );
    e.contract.set_recency_duration_sec(&owner, 120).unwrap();
    assert_eq!(e.contract.recency_duration_sec, 120);
    e.contract.update_owner_id(&owner, stranger.clone()).unwrap();
    assert_eq!(e.contract.get_owner_id(), stranger);
    e.contract.remove_asset(&stranger, &id).unwrap();
    assert_eq!(e.contract.remove_asset(&stranger, &id), Err(OracleError::UnknownAsset));
}

#[test]
fn pagination_follows_enumeration_order() {
    let mut e = Env::setup();
    for i in 0..5 {
        e.add_oracle(i);
    }
    let page = e.contract.get_oracles(Some(1), Some(2));
    assert_eq!(page.iter().map(|p| p.0.clone()).collect::<Vec<_>>(), vec![user(1), user(2)]);
    let owner = e.owner();
    e.contract.remove_oracle(&owner, &user(1)).unwrap();
    // The last entry moves into the removed one's place.
    let all = e.contract.get_oracles(None, None);
    assert_eq!(
        all.iter().map(|p| p.0.clone()).collect::<Vec<_>>(),
        vec![user(0), user(4), user(2), user(3)]
    );
    assert!(e.contract.get_oracles(Some(10), Some(3)).is_empty());
    assert_eq!(e.contract.get_oracles(Some(3), None).len(), 1);
    e.add_asset(WRAP_NEAR);
    assert_eq!(e.contract.get_assets(None, Some(5)).len(), 1);
}
