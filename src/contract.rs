use crate::asset::{
    emas_not_after, is_median_of, lemma_report_keeps_emas_not_after, lemma_without_reporter_excludes,
    lemma_without_reporter_idempotent, report_applied, upserted, without_reporter, Asset, AssetId,
    AssetOptionalPrice, AssetOptionalValidatorPrice, AssetPrice, AssetStatus, AssetView, Report,
};
use crate::ema::{AssetEma, DurationSec, Timestamp};
use crate::select::is_rank;
use crate::oracle::Oracle;
use crate::price::{Price, PriceError};
use crate::query::{parse_asset_query, query_of, QueryError};
use crate::table::{key_index, Table};
use vstd::prelude::*;

verus! {

pub const NANOS_PER_SEC: u64 = 1000000000;

/// How long a reporter waits between two reward claims.
pub const NEAR_CLAIM_DURATION: Timestamp = 24 * 60 * 60 * NANOS_PER_SEC;

/// Seconds as nanoseconds.
pub fn to_nano(ts: u32) -> (r: Timestamp)
    ensures
        r == ts as int * NANOS_PER_SEC,
{
    ts as u64 * NANOS_PER_SEC
}

/// The fewest recent reports that give a median: a majority of the `n`
/// registered reporters, and at least one.
pub open spec fn quorum_for(n: nat) -> int {
    let half = (n as int + 1) / 2;
    if half >= 1 {
        half
    } else {
        1
    }
}

/// The oldest time still recent at `now`.
pub open spec fn timestamp_cut(now: Timestamp, recency_duration_sec: DurationSec) -> Timestamp {
    let window = recency_duration_sec as int * NANOS_PER_SEC;
    if now >= window {
        (now - window) as Timestamp
    } else {
        0
    }
}

/// The value of the first average of `emas` with the given period, if it was
/// updated at or after `cut`.
pub open spec fn ema_price(emas: Seq<AssetEma>, period_sec: DurationSec, cut: Timestamp) -> Option<
    Price,
>
    decreases emas.len(),
{
    if emas.len() == 0 {
        None
    } else if emas[0].period_sec == period_sec {
        if emas[0].timestamp >= cut {
            emas[0].price
        } else {
            None
        }
    } else {
        ema_price(emas.drop_first(), period_sec, cut)
    }
}

/// The contents of a list of strings.
pub open spec fn string_views(v: Seq<String>) -> Seq<Seq<char>> {
    v.map_values(|s: String| s@)
}

/// What the assets hold, in the order of their keys.
pub open spec fn asset_views(v: Seq<Asset>) -> Seq<AssetView> {
    v.map_values(|a: Asset| a@)
}

/// Why an operation was refused. A refused operation changes nothing.
#[derive(Clone, Copy, Debug, PartialEq, Eq, Structural)]
pub enum OracleError {
    /// A batch of reports holds no report.
    EmptyBatch,
    /// The caller is not a registered reporter.
    NotAnOracle,
    /// An asset named is not stored.
    UnknownAsset,
    /// A moving average of an asset was updated later than the report's time.
    ClockBehind,
    /// The caller is not the owner.
    NotOwner,
    /// The reporter is registered already.
    OracleExists,
    /// The reporter is not registered.
    UnknownOracle,
    /// The reporter whose data is to be cleaned is still registered.
    StillAnOracle,
    /// The asset is stored already.
    AssetExists,
    /// The asset has a moving average of this period already.
    EmaExists,
    /// The asset has no moving average of this period.
    UnknownEma,
}

/// What a batch of reports did: for each report in turn, whether its price
/// was accepted, and the reward that is due to the reporter, if any.
#[derive(Debug)]
pub struct ReportReceipt {
    pub outcomes: Vec<Result<(), PriceError>>,
    pub near_claim: Option<u128>,
}

/// `after` is `before` once the price `ap` from `oracle_id` at `timestamp` is
/// recorded: nothing changes for an invalid price; else the report goes to
/// the asset of its identifier, as `report_applied` says.
pub open spec fn batch_step<F: Fn(Price, Price, u64, DurationSec) -> Price>(
    keys: Seq<Seq<char>>,
    before: Seq<AssetView>,
    oracle_id: Seq<char>,
    ap: AssetPrice,
    timestamp: Timestamp,
    cut: Timestamp,
    quorum: int,
    smooth: F,
    after: Seq<AssetView>,
) -> bool {
    if !ap.price.is_valid() {
        after == before
    } else {
        let i = key_index(keys, ap.asset_id@);
        &&& after.len() == before.len()
        &&& forall|j: int| 0 <= j < before.len() && j != i ==> #[trigger] after[j] == before[j]
        &&& exists|rep: Report|
            rep.oracle_id@ == oracle_id && rep.timestamp == timestamp && rep.price == ap.price
                && #[trigger] report_applied(before[i], rep, cut, quorum, smooth, after[i])
    }
}

/// `trace` holds the assets before each price of `batch` is recorded, and
/// after the last one.
pub open spec fn is_batch_trace<F: Fn(Price, Price, u64, DurationSec) -> Price>(
    keys: Seq<Seq<char>>,
    oracle_id: Seq<char>,
    batch: Seq<AssetPrice>,
    timestamp: Timestamp,
    cut: Timestamp,
    quorum: int,
    smooth: F,
    trace: Seq<Seq<AssetView>>,
) -> bool {
    &&& trace.len() == batch.len() + 1
    &&& forall|j: int|
        0 <= j < batch.len() ==> #[trigger] batch_step(
            keys,
            trace[j],
            oracle_id,
            batch[j],
            timestamp,
            cut,
            quorum,
            smooth,
            trace[j + 1],
        )
}

/// `after` is `before` once the prices of `batch` are recorded in turn.
pub open spec fn batch_applied<F: Fn(Price, Price, u64, DurationSec) -> Price>(
    keys: Seq<Seq<char>>,
    before: Seq<AssetView>,
    oracle_id: Seq<char>,
    batch: Seq<AssetPrice>,
    timestamp: Timestamp,
    cut: Timestamp,
    quorum: int,
    smooth: F,
    after: Seq<AssetView>,
) -> bool {
    exists|trace: Seq<Seq<AssetView>>|
        #[trigger] is_batch_trace(keys, oracle_id, batch, timestamp, cut, quorum, smooth, trace)
            && trace[0] == before && trace[batch.len() as int] == after
}

/// One recorded price leaves the asset's reports as they were, but with the
/// reporter's earlier report replaced by the new one, last in line.
proof fn lemma_single_batch<F: Fn(Price, Price, u64, DurationSec) -> Price>(
    keys: Seq<Seq<char>>,
    before: Seq<AssetView>,
    oracle_id: Seq<char>,
    ap: AssetPrice,
    timestamp: Timestamp,
    cut: Timestamp,
    quorum: int,
    smooth: F,
    after: Seq<AssetView>,
) -> (rep: Report)
    requires
        ap.price.is_valid(),
        batch_applied(keys, before, oracle_id, seq![ap], timestamp, cut, quorum, smooth, after),
    ensures
        ({
            let i = key_index(keys, ap.asset_id@);
            &&& after.len() == before.len()
            &&& forall|j: int| 0 <= j < before.len() && j != i ==> #[trigger] after[j] == before[j]
            &&& rep.oracle_id@ == oracle_id && rep.timestamp == timestamp && rep.price == ap.price
            &&& after[i].reports == upserted(before[i].reports, rep)
        }),
{
    let trace = choose|trace: Seq<Seq<AssetView>>|
        #[trigger] is_batch_trace(keys, oracle_id, seq![ap], timestamp, cut, quorum, smooth, trace)
            && trace[0] == before && trace[1] == after;
    assert(seq![ap][0] == ap);
    assert(batch_step(keys, trace[0], oracle_id, seq![ap][0], timestamp, cut, quorum, smooth, trace[0int + 1]));
    let i = key_index(keys, ap.asset_id@);
    choose|rep: Report|
        rep.oracle_id@ == oracle_id && rep.timestamp == timestamp && rep.price == ap.price
            && #[trigger] report_applied(before[i], rep, cut, quorum, smooth, after[i])
}

/// Two reports in turn from one reporter for one asset leave exactly one
/// report of that reporter in the asset's ledger, the later one, last in
/// line; the reports of the other reporters stay as they were.
pub proof fn lemma_report_prices_keeps_latest<F: Fn(Price, Price, u64, DurationSec) -> Price>(
    keys: Seq<Seq<char>>,
    s0: Seq<AssetView>,
    s1: Seq<AssetView>,
    s2: Seq<AssetView>,
    oracle_id: Seq<char>,
    first: AssetPrice,
    second: AssetPrice,
    t1: Timestamp,
    t2: Timestamp,
    cut1: Timestamp,
    cut2: Timestamp,
    quorum1: int,
    quorum2: int,
    smooth: F,
)
    requires
        first.asset_id@ == second.asset_id@,
        first.price.is_valid(),
        second.price.is_valid(),
        batch_applied(keys, s0, oracle_id, seq![first], t1, cut1, quorum1, smooth, s1),
        batch_applied(keys, s1, oracle_id, seq![second], t2, cut2, quorum2, smooth, s2),
    ensures
        ({
            let i = key_index(keys, first.asset_id@);
            let rs = s2[i].reports;
            &&& rs.len() > 0
            &&& rs.last().oracle_id@ == oracle_id
            &&& rs.last().timestamp == t2
            &&& rs.last().price == second.price
            &&& forall|j: int| 0 <= j < rs.len() - 1 ==> (#[trigger] rs[j]).oracle_id@ != oracle_id
            &&& rs.drop_last() == without_reporter(s0[i].reports, oracle_id)
        }),
{
    let i = key_index(keys, first.asset_id@);
    let r1 = lemma_single_batch(keys, s0, oracle_id, first, t1, cut1, quorum1, smooth, s1);
    let r2 = lemma_single_batch(keys, s1, oracle_id, second, t2, cut2, quorum2, smooth, s2);
    let w = without_reporter(s0[i].reports, oracle_id);
    lemma_without_reporter_idempotent(s0[i].reports, oracle_id);
    assert(without_reporter(w.push(r1), oracle_id) == without_reporter(w, oracle_id)) by {
        assert(w.push(r1).drop_last() =~= w);
    }
    assert(s2[i].reports.drop_last() =~= w);
    lemma_without_reporter_excludes(s0[i].reports, oracle_id);
}

/// A reporter's reward is due once a full claim period has passed since its
/// last claim.
pub open spec fn claim_due(o: Oracle, timestamp: Timestamp) -> bool {
    o.last_near_claim + NEAR_CLAIM_DURATION <= timestamp
}

/// A reporter's record after a batch of `count` prices at `timestamp`.
pub open spec fn oracle_after_batch(o: Oracle, timestamp: Timestamp, count: nat) -> Oracle {
    Oracle {
        last_report: timestamp,
        price_reports: if o.price_reports + count <= u64::MAX {
            (o.price_reports + count) as u64
        } else {
            u64::MAX
        },
        last_near_claim: if claim_due(o, timestamp) {
            timestamp
        } else {
            o.last_near_claim
        },
    }
}

/// The first report of reporter `id` in `reports`.
pub open spec fn first_report_of(reports: Seq<Report>, id: Seq<char>) -> Option<Report>
    decreases reports.len(),
{
    if reports.len() == 0 {
        None
    } else if reports[0].oracle_id@ == id {
        Some(reports[0])
    } else {
        first_report_of(reports.drop_first(), id)
    }
}

/// The bounds of the page of a list of `len` entries that starts at
/// `from_index` (default the first) and holds at most `limit` entries
/// (default all).
pub open spec fn page_bounds(len: nat, from_index: Option<u64>, limit: Option<u64>) -> (int, int) {
    let from = match from_index {
        Some(f) => f as int,
        None => 0,
    };
    let lim = match limit {
        Some(l) => l as int,
        None => len as int,
    };
    let end = if from + lim < len {
        from + lim
    } else {
        len as int
    };
    if from < end {
        (from, end)
    } else {
        (end, end)
    }
}

/// The prices asked for at one time.
#[derive(Debug)]
pub struct PriceData {
    pub timestamp: Timestamp,
    pub recency_duration_sec: DurationSec,
    pub prices: Vec<AssetOptionalPrice>,
}

/// The state of the aggregator: the registered reporters, the assets, and the
/// settings. `recency_duration_sec` is the window in which a report or an
/// average counts as recent.
pub struct Contract {
    pub oracles: Table<Oracle>,
    pub assets: Table<Asset>,
    pub recency_duration_sec: DurationSec,
    pub owner_id: String,
    pub near_claim_amount: u128,
}

impl Contract {
    pub open spec fn wf(&self) -> bool {
        self.oracles.wf() && self.assets.wf()
    }

    /// The stored asset of identifier `k`.
    pub open spec fn stored_asset(&self, k: Seq<char>) -> Option<AssetView> {
        if self.assets.has_key(k) {
            Some(self.assets.value_seq()[self.assets.index_of(k)]@)
        } else {
            None
        }
    }

    /// The asset of identifier `k`, unless it is hidden.
    pub open spec fn visible_asset(&self, k: Seq<char>) -> Option<AssetView> {
        match self.stored_asset(k) {
            Some(a) => if a.status == AssetStatus::Active {
                Some(a)
            } else {
                None
            },
            None => None,
        }
    }

    /// `r` answers asset identifier `id` at a time whose recent window starts
    /// at `cut`: a base identifier gets the median of its asset, one with a
    /// period the value of that moving average, if recent. A hidden or unknown
    /// asset gets none.
    pub open spec fn answers(&self, id: Seq<char>, cut: Timestamp, quorum: int, r: Option<Price>) -> bool {
        match query_of(id) {
            None => false,
            Some((base, None)) => match self.visible_asset(base) {
                None => r is None,
                Some(a) => is_median_of(a.reports, cut, quorum, r),
            },
            Some((base, Some(period))) => r == match self.visible_asset(base) {
                None => None,
                Some(a) => ema_price(a.emas, period, cut),
            },
        }
    }

    /// Why a batch of prices from `oracle_id` at `timestamp` is refused, if it
    /// is: it is empty, the reporter is not registered, an asset is not stored,
    /// or an asset's moving average was updated after `timestamp`, in that
    /// order.
    pub open spec fn report_error(
        &self,
        oracle_id: Seq<char>,
        timestamp: Timestamp,
        batch: Seq<AssetPrice>,
    ) -> Option<OracleError> {
        if batch.len() == 0 {
            Some(OracleError::EmptyBatch)
        } else if !self.oracles.has_key(oracle_id) {
            Some(OracleError::NotAnOracle)
        } else if exists|i: int| 0 <= i < batch.len() && !self.assets.has_key((#[trigger] batch[i]).asset_id@) {
            Some(OracleError::UnknownAsset)
        } else if exists|i: int|
            0 <= i < batch.len() && !emas_not_after(
                self.stored_asset((#[trigger] batch[i]).asset_id@)->0.emas,
                timestamp,
            ) {
            Some(OracleError::ClockBehind)
        } else {
            None
        }
    }

    /// The identifiers that a query names, or all assets when it names none.
    pub open spec fn query_ids(&self, asset_ids: Option<Vec<AssetId>>) -> Seq<Seq<char>> {
        match asset_ids {
            Some(v) => string_views(v@),
            None => self.assets.key_seq(),
        }
    }

    pub fn new(recency_duration_sec: DurationSec, owner_id: String, near_claim_amount: u128) -> (r:
        Contract)
        ensures
            r.wf(),
            r.oracles.spec_len() == 0,
            r.assets.spec_len() == 0,
            r.recency_duration_sec == recency_duration_sec,
            r.owner_id == owner_id,
            r.near_claim_amount == near_claim_amount,
    {
        Contract {
            oracles: Table::new(),
            assets: Table::new(),
            recency_duration_sec,
            owner_id,
            near_claim_amount,
        }
    }

    /// The quorum for the reporters registered now.
    pub fn min_num_recent_reports(&self) -> (r: usize)
        requires
            self.wf(),
        ensures
            r == quorum_for(self.oracles.spec_len()),
    {
        let n = self.oracles.len();
        let half = n / 2 + n % 2;
        if half >= 1 {
            half
        } else {
            1
        }
    }

    /// The start of the recent window at `timestamp`.
    pub fn timestamp_cut(&self, timestamp: Timestamp) -> (r: Timestamp)
        ensures
            r == timestamp_cut(timestamp, self.recency_duration_sec),
    {
        timestamp.saturating_sub(to_nano(self.recency_duration_sec))
    }

    /// The asset of identifier `asset_id`; with `use_status`, none for a hidden
    /// one.
    pub fn internal_get_asset(&self, asset_id: &AssetId, use_status: bool) -> (r: Option<&Asset>)
        requires
            self.wf(),
        ensures
            match r {
                Some(a) => Some(a@) == if use_status {
                    self.visible_asset(asset_id@)
                } else {
                    self.stored_asset(asset_id@)
                },
                None => if use_status {
                    self.visible_asset(asset_id@) is None
                } else {
                    self.stored_asset(asset_id@) is None
                },
            },
    {
        match self.assets.find(asset_id) {
            Some(i) => {
                let asset = self.assets.value_at(i);
                if use_status {
                    match asset.status {
                        AssetStatus::Active => Some(asset),
                        AssetStatus::Hidden => None,
                    }
                } else {
                    Some(asset)
                }
            },
            None => None,
        }
    }

    /// The answer for one asset identifier.
    fn price_for(&self, asset_id: &AssetId, cut: Timestamp, quorum: usize) -> (r: Result<
        Option<Price>,
        QueryError,
    >)
        requires
            self.wf(),
        ensures
            match r {
                Ok(p) => self.answers(asset_id@, cut, quorum as int, p),
                Err(e) => e == QueryError::BadEmaPeriod && query_of(asset_id@) is None,
            },
    {
        let query = parse_asset_query(asset_id)?;
        let asset = self.internal_get_asset(&query.base_asset_id, true);
        match query.period_sec {
            Some(period_sec) => match asset {
                Some(a) => Ok(ema_price_of(&a.emas, period_sec, cut)),
                None => Ok(None),
            },
            None => match asset {
                Some(a) => Ok(a.median_price(cut, quorum)),
                None => Ok(None),
            },
        }
    }

    /// The identifiers of all assets, in enumeration order.
    pub fn asset_ids(&self) -> (r: Vec<AssetId>)
        requires
            self.wf(),
        ensures
            string_views(r@) == self.assets.key_seq(),
    {
        let mut r: Vec<AssetId> = Vec::new();
        let n = self.assets.len();
        let mut i: usize = 0;
        while i < n
            invariant
                self.wf(),
                n == self.assets.spec_len(),
                i <= n,
                string_views(r@) == self.assets.key_seq().subrange(0, i as int),
            decreases n - i,
        {
            let ghost prev = r@;
            let key = self.assets.key_at(i).clone();
            r.push(key);
            proof {
                assert(r@ == prev.push(key));
                assert(string_views(r@) =~= string_views(prev).push(key@));
                assert(self.assets.key_seq().subrange(0, i + 1) =~= self.assets.key_seq().subrange(
                    0,
                    i as int,
                ).push(key@));
            }
            i = i + 1;
        }
        proof {
            assert(self.assets.key_seq().subrange(0, n as int) =~= self.assets.key_seq());
        }
        r
    }

    /// The prices of the assets that `asset_ids` names (all assets when it
    /// names none) at `timestamp`: medians of recent reports under the current
    /// quorum, or recent moving averages for identifiers with a period. Fails
    /// when an identifier has a separator that no period follows.
    pub fn get_price_data(&self, asset_ids: Option<Vec<AssetId>>, timestamp: Timestamp) -> (r:
        Result<PriceData, QueryError>)
        requires
            self.wf(),
        ensures
            ({
                let ids = self.query_ids(asset_ids);
                let cut = timestamp_cut(timestamp, self.recency_duration_sec);
                let quorum = quorum_for(self.oracles.spec_len());
                match r {
                    Ok(d) => {
                        &&& d.timestamp == timestamp
                        &&& d.recency_duration_sec == self.recency_duration_sec
                        &&& d.prices@.len() == ids.len()
                        &&& forall|i: int|
                            0 <= i < ids.len() ==> (#[trigger] d.prices@[i]).asset_id@ == ids[i]
                                && self.answers(ids[i], cut, quorum, d.prices@[i].price)
                    },
                    Err(e) => e == QueryError::BadEmaPeriod && exists|i: int|
                        0 <= i < ids.len() && query_of(#[trigger] ids[i]) is None,
                }
            }),
    {
        let ghost ids_spec = self.query_ids(asset_ids);
        let ids = match asset_ids {
            Some(v) => v,
            None => self.asset_ids(),
        };
        let cut = self.timestamp_cut(timestamp);
        let quorum = self.min_num_recent_reports();
        let mut prices: Vec<AssetOptionalPrice> = Vec::new();
        let mut i: usize = 0;
        while i < ids.len()
            invariant
                self.wf(),
                string_views(ids@) == ids_spec,
                ids_spec == self.query_ids(asset_ids),
                cut == timestamp_cut(timestamp, self.recency_duration_sec),
                quorum == quorum_for(self.oracles.spec_len()),
                i <= ids@.len(),
                prices@.len() == i,
                forall|j: int|
                    0 <= j < i ==> (#[trigger] prices@[j]).asset_id@ == ids_spec[j] && self.answers(
                        ids_spec[j],
                        cut,
                        quorum as int,
                        prices@[j].price,
                    ),
            decreases ids@.len() - i,
        {
            let ghost k = ids@[i as int]@;
            assert(ids_spec[i as int] == k);
            match self.price_for(&ids[i], cut, quorum) {
                Ok(price) => {
                    prices.push(AssetOptionalPrice { asset_id: ids[i].clone(), price });
                },
                Err(e) => {
                    proof {
                        assert(query_of(ids_spec[i as int]) is None);
                        assert(e == QueryError::BadEmaPeriod);
                    }
                    return Err(e);
                },
            }
            i = i + 1;
        }
        Ok(PriceData { timestamp, recency_duration_sec: self.recency_duration_sec, prices })
    }
}

impl Contract {
    /// Records a batch of prices from reporter `oracle_id` at `timestamp`.
    /// The batch is refused whole, as `report_error` says. Else the reporter's
    /// record counts the batch and, when its reward is due, marks it claimed
    /// and the receipt carries the amount to send; each valid price replaces
    /// the reporter's report for its asset and, for an asset with moving
    /// averages, feeds them the new median (see `batch_applied`); an invalid
    /// price is refused alone.
    pub fn report_prices<F: Fn(Price, Price, u64, DurationSec) -> Price>(
        &mut self,
        oracle_id: &String,
        timestamp: Timestamp,
        prices: Vec<AssetPrice>,
        smooth: &F,
    ) -> (r: Result<ReportReceipt, OracleError>)
        requires
            old(self).wf(),
            forall|c: Price, m: Price, dt: u64, p: DurationSec| smooth.requires((c, m, dt, p)),
        ensures
            final(self).wf(),
            match old(self).report_error(oracle_id@, timestamp, prices@) {
                Some(e) => r == Err::<ReportReceipt, OracleError>(e) && *final(self) == *old(self),
                None => r is Ok,
            },
            r matches Ok(receipt) ==> {
                let oi = old(self).oracles.index_of(oracle_id@);
                let o = old(self).oracles.value_seq()[oi];
                &&& final(self).oracles.key_seq() == old(self).oracles.key_seq()
                &&& final(self).oracles.value_seq() == old(self).oracles.value_seq().update(
                    oi,
                    oracle_after_batch(o, timestamp, prices@.len()),
                )
                &&& receipt.near_claim == if claim_due(o, timestamp) {
                    Some(old(self).near_claim_amount)
                } else {
                    None
                }
                &&& receipt.outcomes@.len() == prices@.len()
                &&& forall|i: int|
                    0 <= i < prices@.len() ==> #[trigger] receipt.outcomes@[i] == if prices@[i].price.is_valid() {
                        Ok::<(), PriceError>(())
                    } else {
                        Err(PriceError::OutOfRange)
                    }
                &&& final(self).assets.key_seq() == old(self).assets.key_seq()
                &&& batch_applied(
                    old(self).assets.key_seq(),
                    asset_views(old(self).assets.value_seq()),
                    oracle_id@,
                    prices@,
                    timestamp,
                    timestamp_cut(timestamp, old(self).recency_duration_sec),
                    quorum_for(old(self).oracles.spec_len()),
                    *smooth,
                    asset_views(final(self).assets.value_seq()),
                )
                &&& final(self).recency_duration_sec == old(self).recency_duration_sec
                &&& final(self).owner_id == old(self).owner_id
                &&& final(self).near_claim_amount == old(self).near_claim_amount
            },
    {
        if prices.len() == 0 {
            return Err(OracleError::EmptyBatch);
        }
        let oi = match self.oracles.find(oracle_id) {
            Some(i) => i,
            None => return Err(OracleError::NotAnOracle),
        };
        let n = prices.len();
        let mut i: usize = 0;
        while i < n
            invariant
                self.wf(),
                n == prices@.len(),
                i <= n,
                forall|j: int| 0 <= j < i ==> self.assets.has_key((#[trigger] prices@[j]).asset_id@),
                *self == *old(self),
                old(self).oracles.has_key(oracle_id@),
                n > 0,
            decreases n - i,
        {
            if self.assets.find(&prices[i].asset_id).is_none() {
                proof {
                    assert(!self.assets.has_key((prices@[i as int]).asset_id@));
                }
                return Err(OracleError::UnknownAsset);
            }
            i = i + 1;
        }
        i = 0;
        while i < n
            invariant
                self.wf(),
                n == prices@.len(),
                i <= n,
                forall|j: int| 0 <= j < n ==> self.assets.has_key((#[trigger] prices@[j]).asset_id@),
                forall|j: int|
                    0 <= j < i ==> emas_not_after(
                        self.stored_asset((#[trigger] prices@[j]).asset_id@)->0.emas,
                        timestamp,
                    ),
                *self == *old(self),
                old(self).oracles.has_key(oracle_id@),
                n > 0,
            decreases n - i,
        {
            let ai = self.assets.find(&prices[i].asset_id).unwrap();
            if !emas_not_after_exec(&self.assets.value_at(ai).emas, timestamp) {
                proof {
                    assert(!emas_not_after(
                        self.stored_asset((prices@[i as int]).asset_id@)->0.emas,
                        timestamp,
                    ));
                }
                return Err(OracleError::ClockBehind);
            }
            i = i + 1;
        }
        let mut oracle = *self.oracles.value_at(oi);
        let ghost o = oracle;
        oracle.last_report = timestamp;
        oracle.price_reports = oracle.price_reports.saturating_add(n as u64);
        let due = oracle.last_near_claim <= timestamp && timestamp - oracle.last_near_claim
            >= NEAR_CLAIM_DURATION;
        let near_claim = if due {
            oracle.last_near_claim = timestamp;
            Some(self.near_claim_amount)
        } else {
            None
        };
        self.oracles.replace_at(oi, oracle);
        let cut = self.timestamp_cut(timestamp);
        let quorum = self.min_num_recent_reports();
        let ghost keys = self.assets.key_seq();
        let ghost oracles_now = self.oracles;
        let ghost start = asset_views(self.assets.value_seq());
        let mut outcomes: Vec<Result<(), PriceError>> = Vec::new();
        let ghost mut trace: Seq<Seq<AssetView>> = seq![start];
        i = 0;
        while i < n
            invariant
                self.wf(),
                n == prices@.len(),
                i <= n,
                keys == self.assets.key_seq(),
                keys == old(self).assets.key_seq(),
                self.oracles == oracles_now,
                self.recency_duration_sec == old(self).recency_duration_sec,
                self.owner_id == old(self).owner_id,
                self.near_claim_amount == old(self).near_claim_amount,
                start == asset_views(old(self).assets.value_seq()),
                cut == timestamp_cut(timestamp, old(self).recency_duration_sec),
                quorum == quorum_for(old(self).oracles.spec_len()),
                forall|c: Price, m: Price, dt: u64, p: DurationSec| smooth.requires((c, m, dt, p)),
                forall|j: int| 0 <= j < n ==> self.assets.has_key((#[trigger] prices@[j]).asset_id@),
                forall|j: int|
                    0 <= j < n ==> emas_not_after(
                        self.stored_asset((#[trigger] prices@[j]).asset_id@)->0.emas,
                        timestamp,
                    ),
                is_batch_trace(
                    keys,
                    oracle_id@,
                    prices@.subrange(0, i as int),
                    timestamp,
                    cut,
                    quorum as int,
                    *smooth,
                    trace,
                ),
                trace[0] == start,
                trace[i as int] == asset_views(self.assets.value_seq()),
                outcomes@.len() == i,
                forall|j: int|
                    0 <= j < i ==> #[trigger] outcomes@[j] == if prices@[j].price.is_valid() {
                        Ok::<(), PriceError>(())
                    } else {
                        Err(PriceError::OutOfRange)
                    },
            decreases n - i,
        {
            let ghost cur = asset_views(self.assets.value_seq());
            let ghost old_values = self.assets.value_seq();
            let ap = &prices[i];
            let outcome = ap.price.assert_valid();
            if outcome.is_ok() {
                let ai = self.assets.find(&ap.asset_id).unwrap();
                let mut asset = self.assets.replace_at(ai, Asset::new());
                let report = Report { oracle_id: oracle_id.clone(), timestamp, price: ap.price };
                let ghost before = asset@;
                let ghost rep = report;
                proof {
                    self.assets.lemma_index_of(ai as int);
                }
                asset.apply_report(report, cut, quorum, smooth);
                self.assets.replace_at(ai, asset);
                proof {
                    lemma_report_keeps_emas_not_after(before, report, cut, quorum as int, *smooth, asset@);
                    let after = asset_views(self.assets.value_seq());
                    assert(after =~= cur.update(ai as int, asset@));
                    assert(key_index(keys, ap.asset_id@) == ai);
                    assert(cur[ai as int] == before);
                    assert(report_applied(cur[ai as int], rep, cut, quorum as int, *smooth, after[ai as int]));
                    assert(batch_step(keys, cur, oracle_id@, *ap, timestamp, cut, quorum as int, *smooth, after));
                    assert forall|j: int| 0 <= j < n implies emas_not_after(
                        self.stored_asset((#[trigger] prices@[j]).asset_id@)->0.emas,
                        timestamp,
                    ) by {
                        let k = prices@[j].asset_id@;
                        if self.assets.index_of(k) == ai {
                        } else {
                            assert(self.assets.value_seq()[self.assets.index_of(k)] == old_values[self.assets.index_of(k)]);
                        }
                    }
                }
            } else {
                proof {
                    assert(asset_views(self.assets.value_seq()) == cur);
                    assert(batch_step(keys, cur, oracle_id@, *ap, timestamp, cut, quorum as int, *smooth, cur));
                }
            }
            proof {
                assert(batch_step(keys, cur, oracle_id@, prices@[i as int], timestamp, cut, quorum as int, *smooth, asset_views(self.assets.value_seq())));
                assert(outcome == if prices@[i as int].price.is_valid() {
                    Ok::<(), PriceError>(())
                } else {
                    Err(PriceError::OutOfRange)
                });
            }
            outcomes.push(outcome);
            proof {
                let done = prices@.subrange(0, i + 1);
                let prev = trace;
                trace = trace.push(asset_views(self.assets.value_seq()));
                assert forall|j: int| 0 <= j < done.len() implies #[trigger] batch_step(
                    keys,
                    trace[j],
                    oracle_id@,
                    done[j],
                    timestamp,
                    cut,
                    quorum as int,
                    *smooth,
                    trace[j + 1],
                ) by {
                    if j < i {
                        assert(done[j] == prices@.subrange(0, i as int)[j]);
                        assert(trace[j] == prev[j] && trace[j + 1] == prev[j + 1]);
                    }
                }
            }
            i = i + 1;
        }
        proof {
            assert(prices@.subrange(0, n as int) =~= prices@);
            assert(is_batch_trace(keys, oracle_id@, prices@, timestamp, cut, quorum as int, *smooth, trace));
            assert(batch_applied(keys, start, oracle_id@, prices@, timestamp, cut, quorum as int, *smooth, asset_views(self.assets.value_seq())));
        }
        Ok(ReportReceipt { outcomes, near_claim })
    }
}

impl Contract {
    /// The report of `account_id` for each asset that `asset_ids` names (all
    /// assets when it names none), if made in the recent window at
    /// `timestamp`; the window is `recency_duration_sec` when given, else the
    /// configured one. Hidden assets count too.
    pub fn get_oracle_price_data(
        &self,
        account_id: &String,
        asset_ids: Option<Vec<AssetId>>,
        recency_duration_sec: Option<DurationSec>,
        timestamp: Timestamp,
    ) -> (r: Vec<AssetOptionalValidatorPrice>)
        requires
            self.wf(),
        ensures
            ({
                let ids = self.query_ids(asset_ids);
                let window = match recency_duration_sec {
                    Some(d) => d,
                    None => self.recency_duration_sec,
                };
                let cut = timestamp_cut(timestamp, window);
                &&& r@.len() == ids.len()
                &&& forall|i: int|
                    0 <= i < ids.len() ==> {
                        let a = self.stored_asset(ids[i]);
                        let rep = match a {
                            Some(v) => first_report_of(v.reports, account_id@),
                            None => None,
                        };
                        let recent = rep matches Some(x) && x.timestamp >= cut;
                        &&& (#[trigger] r@[i]).asset_id@ == ids[i]
                        &&& r@[i].status == match a {
                            Some(v) => Some(v.status),
                            None => None,
                        }
                        &&& r@[i].price == if recent {
                            Some(rep->0.price)
                        } else {
                            None
                        }
                        &&& r@[i].timestamp == if recent {
                            Some(rep->0.timestamp)
                        } else {
                            None
                        }
                    }
            }),
    {
        let ghost ids_spec = self.query_ids(asset_ids);
        let ids = match asset_ids {
            Some(v) => v,
            None => self.asset_ids(),
        };
        let window = match recency_duration_sec {
            Some(d) => d,
            None => self.recency_duration_sec,
        };
        let cut = timestamp.saturating_sub(to_nano(window));
        let mut r: Vec<AssetOptionalValidatorPrice> = Vec::new();
        let mut i: usize = 0;
        while i < ids.len()
            invariant
                self.wf(),
                string_views(ids@) == ids_spec,
                ids_spec == self.query_ids(asset_ids),
                cut == timestamp_cut(timestamp, window),
                window == match recency_duration_sec {
                    Some(d) => d,
                    None => self.recency_duration_sec,
                },
                i <= ids@.len(),
                r@.len() == i,
                forall|j: int|
                    0 <= j < i ==> {
                        let a = self.stored_asset(ids_spec[j]);
                        let rep = match a {
                            Some(v) => first_report_of(v.reports, account_id@),
                            None => None,
                        };
                        let recent = rep matches Some(x) && x.timestamp >= cut;
                        &&& (#[trigger] r@[j]).asset_id@ == ids_spec[j]
                        &&& r@[j].status == match a {
                            Some(v) => Some(v.status),
                            None => None,
                        }
                        &&& r@[j].price == if recent {
                            Some(rep->0.price)
                        } else {
                            None
                        }
                        &&& r@[j].timestamp == if recent {
                            Some(rep->0.timestamp)
                        } else {
                            None
                        }
                    },
            decreases ids@.len() - i,
        {
            let ghost k = ids@[i as int]@;
            assert(ids_spec[i as int] == k);
            let entry = match self.internal_get_asset(&ids[i], false) {
                Some(asset) => {
                    let found = first_report_index(&asset.reports, account_id);
                    let recent = match found {
                        Some(ri) => if asset.reports[ri].timestamp >= cut {
                            Some(ri)
                        } else {
                            None
                        },
                        None => None,
                    };
                    match recent {
                        Some(ri) => AssetOptionalValidatorPrice {
                            asset_id: ids[i].clone(),
                            price: Some(asset.reports[ri].price),
                            timestamp: Some(asset.reports[ri].timestamp),
                            status: Some(asset.status),
                        },
                        None => AssetOptionalValidatorPrice {
                            asset_id: ids[i].clone(),
                            price: None,
                            timestamp: None,
                            status: Some(asset.status),
                        },
                    }
                },
                None => AssetOptionalValidatorPrice {
                    asset_id: ids[i].clone(),
                    price: None,
                    timestamp: None,
                    status: None,
                },
            };
            r.push(entry);
            i = i + 1;
        }
        r
    }

    /// Removes the reports of `account_id`, which is no longer a registered
    /// reporter, from each asset of `asset_ids`. Refused whole when the
    /// reporter is still registered or an asset is not stored.
    pub fn clean_oracle_data(&mut self, account_id: &String, asset_ids: Vec<AssetId>) -> (r: Result<
        (),
        OracleError,
    >)
        requires
            old(self).wf(),
        ensures
            final(self).wf(),
            old(self).oracles.has_key(account_id@) ==> r == Err::<(), OracleError>(
                OracleError::StillAnOracle,
            ) && *final(self) == *old(self),
            !old(self).oracles.has_key(account_id@) && (exists|i: int|
                0 <= i < asset_ids@.len() && !old(self).assets.has_key(
                    (#[trigger] asset_ids@[i])@,
                )) ==> r == Err::<(), OracleError>(OracleError::UnknownAsset) && *final(self)
                == *old(self),
            r is Ok ==> {
                &&& final(self).oracles == old(self).oracles
                &&& final(self).assets.key_seq() == old(self).assets.key_seq()
                &&& forall|j: int|
                    0 <= j < old(self).assets.spec_len() ==> {
                        let before = old(self).assets.value_seq()[j]@;
                        let after = (#[trigger] final(self).assets.value_seq()[j])@;
                        &&& after.status == before.status
                        &&& after.emas == before.emas
                        &&& after.reports == if string_views(asset_ids@).contains(
                            old(self).assets.key_seq()[j],
                        ) {
                            without_reporter(before.reports, account_id@)
                        } else {
                            before.reports
                        }
                    }
                &&& final(self).recency_duration_sec == old(self).recency_duration_sec
                &&& final(self).owner_id == old(self).owner_id
                &&& final(self).near_claim_amount == old(self).near_claim_amount
            },
            r is Ok <==> !old(self).oracles.has_key(account_id@) && forall|i: int|
                0 <= i < asset_ids@.len() ==> old(self).assets.has_key((#[trigger] asset_ids@[i])@),
    {
        if self.oracles.find(account_id).is_some() {
            return Err(OracleError::StillAnOracle);
        }
        let n = asset_ids.len();
        let mut i: usize = 0;
        while i < n
            invariant
                self.wf(),
                *self == *old(self),
                n == asset_ids@.len(),
                i <= n,
                forall|j: int| 0 <= j < i ==> self.assets.has_key((#[trigger] asset_ids@[j])@),
                !old(self).oracles.has_key(account_id@),
            decreases n - i,
        {
            if self.assets.find(&asset_ids[i]).is_none() {
                return Err(OracleError::UnknownAsset);
            }
            i = i + 1;
        }
        let ghost keys = self.assets.key_seq();
        let ghost start = self.assets.value_seq();
        i = 0;
        while i < n
            invariant
                self.wf(),
                n == asset_ids@.len(),
                i <= n,
                keys == self.assets.key_seq(),
                keys == old(self).assets.key_seq(),
                start == old(self).assets.value_seq(),
                start.len() == keys.len(),
                self.oracles == old(self).oracles,
                self.recency_duration_sec == old(self).recency_duration_sec,
                self.owner_id == old(self).owner_id,
                self.near_claim_amount == old(self).near_claim_amount,
                forall|j: int| 0 <= j < n ==> self.assets.has_key((#[trigger] asset_ids@[j])@),
                forall|j: int|
                    0 <= j < keys.len() ==> {
                        let before = start[j]@;
                        let after = (#[trigger] self.assets.value_seq()[j])@;
                        &&& after.status == before.status
                        &&& after.emas == before.emas
                        &&& after.reports == if string_views(asset_ids@.subrange(0, i as int)).contains(
                            keys[j],
                        ) {
                            without_reporter(before.reports, account_id@)
                        } else {
                            before.reports
                        }
                    },
            decreases n - i,
        {
            let ai = self.assets.find(&asset_ids[i]).unwrap();
            let mut asset = self.assets.replace_at(ai, Asset::new());
            let ghost prev = asset@;
            asset.remove_report(account_id);
            self.assets.replace_at(ai, asset);
            proof {
                let done = string_views(asset_ids@.subrange(0, i + 1));
                let was = string_views(asset_ids@.subrange(0, i as int));
                assert(done =~= was.push(asset_ids@[i as int]@));
                lemma_without_reporter_idempotent(start[ai as int]@.reports, account_id@);
                assert forall|j: int| 0 <= j < keys.len() implies done.contains(keys[j]) == (
                was.contains(keys[j]) || j == ai) by {
                    if j != ai && keys[j] == asset_ids@[i as int]@ {
                        assert(keys[ai as int] == keys[j]);
                    }
                    if done.contains(keys[j]) && !was.contains(keys[j]) {
                        let t = choose|t: int| 0 <= t < done.len() && done[t] == keys[j];
                        assert(t == i);
                    }
                    if was.contains(keys[j]) {
                        let t = choose|t: int| 0 <= t < was.len() && was[t] == keys[j];
                        assert(done[t] == keys[j]);
                    }
                    if j == ai {
                        assert(done[i as int] == keys[j]);
                    }
                }
            }
            i = i + 1;
        }
        proof {
            assert(asset_ids@.subrange(0, n as int) =~= asset_ids@);
        }
        Ok(())
    }

    /// The record of reporter `account_id`.
    pub fn internal_get_oracle(&self, account_id: &String) -> (r: Option<Oracle>)
        requires
            self.wf(),
        ensures
            r == if self.oracles.has_key(account_id@) {
                Some(self.oracles.value_seq()[self.oracles.index_of(account_id@)])
            } else {
                None
            },
    {
        match self.oracles.find(account_id) {
            Some(i) => Some(*self.oracles.value_at(i)),
            None => None,
        }
    }

    /// The record of reporter `account_id`.
    pub fn get_oracle(&self, account_id: &String) -> (r: Option<Oracle>)
        requires
            self.wf(),
        ensures
            r == if self.oracles.has_key(account_id@) {
                Some(self.oracles.value_seq()[self.oracles.index_of(account_id@)])
            } else {
                None
            },
    {
        self.internal_get_oracle(account_id)
    }

    /// Stores the record of reporter `account_id`, in place of its old one.
    pub fn internal_set_oracle(&mut self, account_id: &String, oracle: Oracle)
        requires
            old(self).wf(),
        ensures
            final(self).wf(),
            final(self).assets == old(self).assets,
            old(self).oracles.has_key(account_id@) ==> {
                let i = old(self).oracles.index_of(account_id@);
                &&& final(self).oracles.key_seq() == old(self).oracles.key_seq()
                &&& final(self).oracles.value_seq() == old(self).oracles.value_seq().update(i, oracle)
            },
            !old(self).oracles.has_key(account_id@) ==> {
                &&& final(self).oracles.key_seq() == old(self).oracles.key_seq().push(account_id@)
                &&& final(self).oracles.value_seq() == old(self).oracles.value_seq().push(oracle)
            },
    {
        self.oracles.insert(account_id.clone(), oracle);
    }

    /// Stores asset `asset_id`, in place of its old record.
    pub fn internal_set_asset(&mut self, asset_id: &AssetId, asset: Asset)
        requires
            old(self).wf(),
        ensures
            final(self).wf(),
            final(self).oracles == old(self).oracles,
            old(self).assets.has_key(asset_id@) ==> {
                let i = old(self).assets.index_of(asset_id@);
                &&& final(self).assets.key_seq() == old(self).assets.key_seq()
                &&& final(self).assets.value_seq() == old(self).assets.value_seq().update(i, asset)
            },
            !old(self).assets.has_key(asset_id@) ==> {
                &&& final(self).assets.key_seq() == old(self).assets.key_seq().push(asset_id@)
                &&& final(self).assets.value_seq() == old(self).assets.value_seq().push(asset)
            },
    {
        self.assets.insert(asset_id.clone(), asset);
    }

    /// A copy of asset `asset_id`, unless it is hidden.
    pub fn get_asset(&self, asset_id: &AssetId) -> (r: Option<Asset>)
        requires
            self.wf(),
        ensures
            match r {
                Some(a) => self.visible_asset(asset_id@) == Some(a@),
                None => self.visible_asset(asset_id@) is None,
            },
    {
        match self.internal_get_asset(asset_id, true) {
            Some(a) => Some(a.snapshot()),
            None => None,
        }
    }

    /// The status of asset `asset_id`, hidden or not.
    pub fn internal_get_asset_status(&self, asset_id: &AssetId) -> (r: Option<AssetStatus>)
        requires
            self.wf(),
        ensures
            r == match self.stored_asset(asset_id@) {
                Some(a) => Some(a.status),
                None => None,
            },
    {
        match self.internal_get_asset(asset_id, false) {
            Some(a) => Some(a.status),
            None => None,
        }
    }

    /// One page of the registered reporters, in enumeration order.
    pub fn get_oracles(&self, from_index: Option<u64>, limit: Option<u64>) -> (r: Vec<(String, Oracle)>)
        requires
            self.wf(),
        ensures
            ({
                let (start, end) = page_bounds(self.oracles.spec_len(), from_index, limit);
                &&& r@.len() == end - start
                &&& forall|j: int|
                    0 <= j < r@.len() ==> (#[trigger] r@[j]).0@ == self.oracles.key_seq()[start + j]
                        && r@[j].1 == self.oracles.value_seq()[start + j]
            }),
    {
        let (start, end) = page_range(self.oracles.len(), from_index, limit);
        let mut r: Vec<(String, Oracle)> = Vec::new();
        let mut i = start;
        while i < end
            invariant
                self.wf(),
                (start as int, end as int) == page_bounds(self.oracles.spec_len(), from_index, limit),
                start <= i <= end <= self.oracles.spec_len(),
                r@.len() == i - start,
                forall|j: int|
                    0 <= j < r@.len() ==> (#[trigger] r@[j]).0@ == self.oracles.key_seq()[start + j]
                        && r@[j].1 == self.oracles.value_seq()[start + j],
            decreases end - i,
        {
            r.push((self.oracles.key_at(i).clone(), *self.oracles.value_at(i)));
            i = i + 1;
        }
        r
    }

    /// One page of the assets, hidden ones included, in enumeration order.
    pub fn get_assets(&self, from_index: Option<u64>, limit: Option<u64>) -> (r: Vec<(AssetId, Asset)>)
        requires
            self.wf(),
        ensures
            ({
                let (start, end) = page_bounds(self.assets.spec_len(), from_index, limit);
                &&& r@.len() == end - start
                &&& forall|j: int|
                    0 <= j < r@.len() ==> (#[trigger] r@[j]).0@ == self.assets.key_seq()[start + j]
                        && r@[j].1@ == self.assets.value_seq()[start + j]@
            }),
    {
        let (start, end) = page_range(self.assets.len(), from_index, limit);
        let mut r: Vec<(AssetId, Asset)> = Vec::new();
        let mut i = start;
        while i < end
            invariant
                self.wf(),
                (start as int, end as int) == page_bounds(self.assets.spec_len(), from_index, limit),
                start <= i <= end <= self.assets.spec_len(),
                r@.len() == i - start,
                forall|j: int|
                    0 <= j < r@.len() ==> (#[trigger] r@[j]).0@ == self.assets.key_seq()[start + j]
                        && r@[j].1@ == self.assets.value_seq()[start + j]@,
            decreases end - i,
        {
            r.push((self.assets.key_at(i).clone(), self.assets.value_at(i).snapshot()));
            i = i + 1;
        }
        r
    }
}

/// The bounds of a page of a list of `len` entries.
pub fn page_range(len: usize, from_index: Option<u64>, limit: Option<u64>) -> (r: (usize, usize))
    ensures
        (r.0 as int, r.1 as int) == page_bounds(len as nat, from_index, limit),
        r.0 <= r.1 <= len,
{
    let from: u64 = match from_index {
        Some(f) => f,
        None => 0,
    };
    let n = len as u64;
    let lim: u64 = match limit {
        Some(l) => l,
        None => n,
    };
    let end: u64 = if (from as u128) + (lim as u128) < (n as u128) {
        from + lim
    } else {
        n
    };
    if from < end {
        (from as usize, end as usize)
    } else {
        (end as usize, end as usize)
    }
}

/// The position of the first report of `oracle_id`.
fn first_report_index(reports: &Vec<Report>, oracle_id: &String) -> (r: Option<usize>)
    ensures
        match r {
            Some(i) => i < reports@.len() && first_report_of(reports@, oracle_id@) == Some(reports@[i as int]),
            None => first_report_of(reports@, oracle_id@) is None,
        },
{
    let n = reports.len();
    let mut i: usize = 0;
    proof {
        assert(reports@.subrange(0, n as int) =~= reports@);
    }
    while i < n
        invariant
            n == reports@.len(),
            i <= n,
            first_report_of(reports@, oracle_id@) == first_report_of(reports@.subrange(i as int, n as int), oracle_id@),
        decreases n - i,
    {
        proof {
            assert(reports@.subrange(i as int, n as int).drop_first() =~= reports@.subrange(i + 1, n as int));
        }
        if reports[i].oracle_id == *oracle_id {
            return Some(i);
        }
        i = i + 1;
    }
    None
}

/// No average that holds a value was updated after `timestamp`.
fn emas_not_after_exec(emas: &Vec<AssetEma>, timestamp: Timestamp) -> (r: bool)
    ensures
        r == emas_not_after(emas@, timestamp),
{
    let mut i: usize = 0;
    while i < emas.len()
        invariant
            i <= emas@.len(),
            forall|j: int| 0 <= j < i ==> (#[trigger] emas@[j]).price is Some ==> emas@[j].timestamp <= timestamp,
        decreases emas@.len() - i,
    {
        if emas[i].price.is_some() && emas[i].timestamp > timestamp {
            return false;
        }
        i = i + 1;
    }
    true
}

/// The value of the first average with the given period, if updated at or
/// after `cut`.
fn ema_price_of(emas: &Vec<AssetEma>, period_sec: DurationSec, cut: Timestamp) -> (r: Option<Price>)
    ensures
        r == ema_price(emas@, period_sec, cut),
{
    let n = emas.len();
    let mut i: usize = 0;
    proof {
        assert(emas@.subrange(0, n as int) =~= emas@);
    }
    while i < n
        invariant
            n == emas@.len(),
            i <= n,
            ema_price(emas@, period_sec, cut) == ema_price(emas@.subrange(i as int, n as int), period_sec, cut),
        decreases n - i,
    {
        proof {
            assert(emas@.subrange(i as int, n as int).drop_first() =~= emas@.subrange(i + 1, n as int));
        }
        if emas[i].period_sec == period_sec {
            if emas[i].timestamp >= cut {
                return emas[i].price;
            } else {
                return None;
            }
        }
        i = i + 1;
    }
    None
}

} // verus!
