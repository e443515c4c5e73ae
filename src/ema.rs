use crate::price::Price;
use vstd::prelude::*;

verus! {

/// Seconds, as the periods of moving averages are given.
pub type DurationSec = u32;

/// Nanoseconds since the epoch, as the clock gives them.
pub type Timestamp = u64;

/// One exponential moving average of an asset's median price, with its own
/// smoothing period. It holds no value until it is first fed.
#[derive(Clone, Copy, Debug)]
pub struct AssetEma {
    pub period_sec: DurationSec,
    pub timestamp: Timestamp,
    pub price: Option<Price>,
}

/// `after` is `before` fed with `median` at `timestamp`: the first feed takes
/// the median as it is, a later one takes what `smooth` makes of the current
/// value, the median, the nanoseconds elapsed and the period.
pub open spec fn ema_fed<F: Fn(Price, Price, u64, DurationSec) -> Price>(
    before: AssetEma,
    median: Price,
    timestamp: Timestamp,
    smooth: F,
    after: AssetEma,
) -> bool {
    &&& after.period_sec == before.period_sec
    &&& after.timestamp == timestamp
    &&& before.price is None ==> after.price == Some(median)
    &&& before.price is Some ==> after.price is Some && smooth.ensures(
        (before.price->0, median, (timestamp - before.timestamp) as u64, before.period_sec),
        after.price->0,
    )
}

impl AssetEma {
    pub fn new(period_sec: DurationSec) -> (r: AssetEma)
        ensures
            r.period_sec == period_sec,
            r.timestamp == 0,
            r.price is None,
    {
        AssetEma { period_sec, timestamp: 0, price: None }
    }

    /// Feeds the median price observed at `timestamp`. The first feed takes the
    /// median as it is; each later one moves the average towards it by
    /// `smooth(current, median, elapsed nanoseconds, period in seconds)`, the
    /// time-weighted smoothing step. The time of the last update always
    /// advances to `timestamp`.
    pub fn recompute<F: Fn(Price, Price, u64, DurationSec) -> Price>(
        &mut self,
        median_price: Price,
        timestamp: Timestamp,
        smooth: &F,
    )
        requires
            old(self).price is Some ==> timestamp >= old(self).timestamp,
            forall|c: Price, m: Price, dt: u64, p: DurationSec| smooth.requires((c, m, dt, p)),
        ensures
            ema_fed(*old(self), median_price, timestamp, *smooth, *final(self)),
    {
        match self.price {
            Some(current) => {
                let time_diff = timestamp - self.timestamp;
                self.price = Some(smooth(current, median_price, time_diff, self.period_sec));
            },
            None => {
                self.price = Some(median_price);
            },
        }
        self.timestamp = timestamp;
    }
}

} // verus!
