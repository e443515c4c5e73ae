use crate::ema::{ema_fed, AssetEma, DurationSec, Timestamp};
use crate::price::Price;
use crate::select::{is_rank, lemma_partition_gives_rank, lemma_rank_unique, select_nth};
use vstd::prelude::*;

verus! {

/// The identifier of an asset, such as `wrap.near`.
pub type AssetId = String;

/// One reporter's latest price for an asset.
#[derive(Clone, Debug)]
pub struct Report {
    pub oracle_id: String,
    pub timestamp: Timestamp,
    pub price: Price,
}

#[derive(Clone, Copy, Debug, PartialEq, Eq, Structural)]
pub enum AssetStatus {
    Active,
    Hidden,
}

/// An asset's ledger of reports, one per reporter, and its moving averages,
/// one per smoothing period.
#[derive(Debug)]
pub struct Asset {
    pub status: AssetStatus,
    pub reports: Vec<Report>,
    pub emas: Vec<AssetEma>,
}

/// What an asset holds: its status and the contents of its two lists.
pub struct AssetView {
    pub status: AssetStatus,
    pub reports: Seq<Report>,
    pub emas: Seq<AssetEma>,
}

impl View for Asset {
    type V = AssetView;

    open spec fn view(&self) -> AssetView {
        AssetView { status: self.status, reports: self.reports@, emas: self.emas@ }
    }
}

/// A price reported for an asset.
#[derive(Clone, Debug)]
pub struct AssetPrice {
    pub asset_id: AssetId,
    pub price: Price,
}

/// The answer for one asset: its price, or none when there is not enough
/// recent data.
#[derive(Clone, Debug)]
pub struct AssetOptionalPrice {
    pub asset_id: AssetId,
    pub price: Option<Price>,
}

/// One reporter's recent report for an asset, with the asset's status.
#[derive(Clone, Debug)]
pub struct AssetOptionalValidatorPrice {
    pub asset_id: AssetId,
    pub price: Option<Price>,
    pub timestamp: Option<Timestamp>,
    pub status: Option<AssetStatus>,
}

/// The prices of the reports made at or after `cut`, in ledger order.
pub open spec fn fresh_prices(reports: Seq<Report>, cut: Timestamp) -> Seq<Price>
    decreases reports.len(),
{
    if reports.len() == 0 {
        Seq::empty()
    } else {
        let rest = fresh_prices(reports.drop_last(), cut);
        if reports.last().timestamp >= cut {
            rest.push(reports.last().price)
        } else {
            rest
        }
    }
}

/// The reports of all reporters but `id`, in ledger order.
pub open spec fn without_reporter(reports: Seq<Report>, id: Seq<char>) -> Seq<Report>
    decreases reports.len(),
{
    if reports.len() == 0 {
        Seq::empty()
    } else {
        let rest = without_reporter(reports.drop_last(), id);
        if reports.last().oracle_id@ != id {
            rest.push(reports.last())
        } else {
            rest
        }
    }
}

/// The ledger after `report` replaces its reporter's earlier report, if any.
pub open spec fn upserted(reports: Seq<Report>, report: Report) -> Seq<Report> {
    without_reporter(reports, report.oracle_id@).push(report)
}

/// No reporter has two reports.
pub open spec fn unique_reporters(reports: Seq<Report>) -> bool {
    forall|i: int, j: int|
        0 <= i < j < reports.len() ==> (#[trigger] reports[i]).oracle_id@ != (
        #[trigger] reports[j]).oracle_id@
}

/// The median of the recent prices: `None` when fewer than `quorum` of them
/// (or none at all) are recent, else the one of rank `count / 2` by value.
pub open spec fn is_median_of(
    reports: Seq<Report>,
    cut: Timestamp,
    quorum: int,
    r: Option<Price>,
) -> bool {
    let fresh = fresh_prices(reports, cut);
    &&& (r is Some <==> (fresh.len() >= quorum && fresh.len() > 0))
    &&& (r matches Some(p) ==> is_rank(fresh.to_multiset(), fresh.len() as int / 2, p))
}

/// Every average of `before` fed with `median` at `timestamp`, in order.
pub open spec fn all_fed<F: Fn(Price, Price, u64, DurationSec) -> Price>(
    before: Seq<AssetEma>,
    median: Price,
    timestamp: Timestamp,
    smooth: F,
    after: Seq<AssetEma>,
) -> bool {
    &&& after.len() == before.len()
    &&& forall|j: int|
        0 <= j < before.len() ==> ema_fed(before[j], median, timestamp, smooth, #[trigger] after[j])
}

/// `after` is `before` once `report` is recorded: it replaces its reporter's
/// earlier report, and when the asset has moving averages and the new ledger
/// has a median under `quorum`, each average is fed that median.
pub open spec fn report_applied<F: Fn(Price, Price, u64, DurationSec) -> Price>(
    before: AssetView,
    report: Report,
    cut: Timestamp,
    quorum: int,
    smooth: F,
    after: AssetView,
) -> bool {
    let reports = upserted(before.reports, report);
    &&& after.status == before.status
    &&& after.reports == reports
    &&& if before.emas.len() == 0 {
        after.emas == before.emas
    } else {
        exists|m: Option<Price>|
            #[trigger] is_median_of(reports, cut, quorum, m) && match m {
                None => after.emas == before.emas,
                Some(p) => all_fed(before.emas, p, report.timestamp, smooth, after.emas),
            }
    }
}

/// No average that holds a value was updated after `timestamp`.
pub open spec fn emas_not_after(emas: Seq<AssetEma>, timestamp: Timestamp) -> bool {
    forall|j: int| 0 <= j < emas.len() ==> (#[trigger] emas[j]).price is Some ==> emas[j].timestamp <= timestamp
}

impl Report {
    /// A copy of the report.
    pub fn snapshot(&self) -> (r: Report)
        ensures
            r == *self,
    {
        Report { oracle_id: self.oracle_id.clone(), timestamp: self.timestamp, price: self.price }
    }
}

impl Asset {
    /// A copy of the asset.
    pub fn snapshot(&self) -> (r: Asset)
        ensures
            r@ == self@,
    {
        let mut reports: Vec<Report> = Vec::new();
        let mut i: usize = 0;
        while i < self.reports.len()
            invariant
                i <= self.reports@.len(),
                reports@ == self.reports@.subrange(0, i as int),
            decreases self.reports@.len() - i,
        {
            reports.push(self.reports[i].snapshot());
            i = i + 1;
            proof {
                assert(reports@ =~= self.reports@.subrange(0, i as int));
            }
        }
        let mut emas: Vec<AssetEma> = Vec::new();
        let mut j: usize = 0;
        while j < self.emas.len()
            invariant
                j <= self.emas@.len(),
                emas@ == self.emas@.subrange(0, j as int),
            decreases self.emas@.len() - j,
        {
            emas.push(self.emas[j]);
            j = j + 1;
            proof {
                assert(emas@ =~= self.emas@.subrange(0, j as int));
            }
        }
        proof {
            assert(reports@ =~= self.reports@);
            assert(emas@ =~= self.emas@);
        }
        Asset { status: self.status, reports, emas }
    }

    pub fn new() -> (r: Asset)
        ensures
            r.status == AssetStatus::Active,
            r.reports@.len() == 0,
            r.emas@.len() == 0,
    {
        Asset { status: AssetStatus::Active, reports: Vec::new(), emas: Vec::new() }
    }

    pub fn add_report(&mut self, report: Report)
        ensures
            final(self).reports@ == old(self).reports@.push(report),
            final(self).status == old(self).status,
            final(self).emas@ == old(self).emas@,
    {
        self.reports.push(report);
    }

    /// Removes the report of `oracle_id`, and says whether there was one.
    pub fn remove_report(&mut self, oracle_id: &String) -> (r: bool)
        ensures
            final(self).reports@ == without_reporter(old(self).reports@, oracle_id@),
            r <==> exists|i: int|
                0 <= i < old(self).reports@.len() && (#[trigger] old(self).reports@[i]).oracle_id@
                    == oracle_id@,
            final(self).status == old(self).status,
            final(self).emas@ == old(self).emas@,
    {
        let ghost orig = self.reports@;
        let ghost mut j: int = 0;
        let mut i: usize = 0;
        let mut removed = false;
        while i < self.reports.len()
            invariant
                0 <= j <= orig.len(),
                self.reports@ == without_reporter(orig.subrange(0, j), oracle_id@) + orig.subrange(
                    j,
                    orig.len() as int,
                ),
                i == without_reporter(orig.subrange(0, j), oracle_id@).len(),
                removed <==> exists|t: int| 0 <= t < j && (#[trigger] orig[t]).oracle_id@ == oracle_id@,
                self.status == old(self).status,
                self.emas@ == old(self).emas@,
            decreases orig.len() - j,
        {
            proof {
                assert(orig.subrange(0, j + 1).drop_last() =~= orig.subrange(0, j));
                assert(orig.subrange(j, orig.len() as int)[0] == orig[j]);
            }
            if self.reports[i].oracle_id == *oracle_id {
                self.reports.remove(i);
                removed = true;
                proof {
                    assert(self.reports@ =~= without_reporter(orig.subrange(0, j + 1), oracle_id@)
                        + orig.subrange(j + 1, orig.len() as int));
                }
            } else {
                i = i + 1;
                proof {
                    assert(self.reports@ =~= without_reporter(orig.subrange(0, j + 1), oracle_id@)
                        + orig.subrange(j + 1, orig.len() as int));
                }
            }
            proof {
                j = j + 1;
            }
        }
        proof {
            assert(orig.subrange(0, j) =~= orig);
            assert(self.reports@ =~= without_reporter(orig, oracle_id@));
        }
        removed
    }

    /// Records `report`, replacing its reporter's earlier report if any.
    pub fn upsert_report(&mut self, report: Report)
        ensures
            final(self).reports@ == upserted(old(self).reports@, report),
            final(self).status == old(self).status,
            final(self).emas@ == old(self).emas@,
    {
        self.remove_report(&report.oracle_id);
        self.add_report(report);
    }

    /// Records `report` and, when the asset has moving averages, feeds each of
    /// them the new median, if the reports made at or after `timestamp_cut`
    /// reach `min_num_recent_reports`.
    pub fn apply_report<F: Fn(Price, Price, u64, DurationSec) -> Price>(
        &mut self,
        report: Report,
        timestamp_cut: Timestamp,
        min_num_recent_reports: usize,
        smooth: &F,
    )
        requires
            emas_not_after(old(self).emas@, report.timestamp),
            forall|c: Price, m: Price, dt: u64, p: DurationSec| smooth.requires((c, m, dt, p)),
        ensures
            report_applied(
                old(self)@,
                report,
                timestamp_cut,
                min_num_recent_reports as int,
                *smooth,
                final(self)@,
            ),
    {
        let timestamp = report.timestamp;
        let ghost r = report;
        self.upsert_report(report);
        if !self.emas.is_empty() {
            let median = self.median_price(timestamp_cut, min_num_recent_reports);
            match median {
                Some(p) => {
                    let ghost before = self.emas@;
                    let mut j: usize = 0;
                    while j < self.emas.len()
                        invariant
                            self.emas@.len() == before.len(),
                            j <= before.len(),
                            self.status == old(self).status,
                            self.reports@ == upserted(old(self).reports@, r),
                            before == old(self).emas@,
                            emas_not_after(before, timestamp),
                            forall|c: Price, m: Price, dt: u64, q: DurationSec|
                                smooth.requires((c, m, dt, q)),
                            forall|k: int|
                                0 <= k < j ==> ema_fed(before[k], p, timestamp, *smooth, #[trigger] self.emas@[k]),
                            forall|k: int| j <= k < before.len() ==> #[trigger] self.emas@[k] == before[k],
                        decreases before.len() - j,
                    {
                        self.emas[j].recompute(p, timestamp, smooth);
                        j = j + 1;
                    }
                    proof {
                        assert(all_fed(before, p, r.timestamp, *smooth, self.emas@));
                    }
                },
                None => {},
            }
            proof {
                assert(is_median_of(self.reports@, timestamp_cut, min_num_recent_reports as int, median)
                    && match median {
                    None => self.emas@ == old(self).emas@,
                    Some(p) => all_fed(old(self).emas@, p, r.timestamp, *smooth, self.emas@),
                });
                assert(upserted(old(self)@.reports, r) == self.reports@);
                assert(report_applied(old(self)@, r, timestamp_cut, min_num_recent_reports as int, *smooth, self@));
            }
        }
    }

    /// The median of the prices reported at or after `timestamp_cut`: `None`
    /// when there are fewer than `min_num_recent_reports` of them (or none),
    /// else the one of rank `count / 2` by value, the upper middle for an even
    /// count.
    pub fn median_price(&self, timestamp_cut: Timestamp, min_num_recent_reports: usize) -> (r:
        Option<Price>)
        ensures
            is_median_of(self.reports@, timestamp_cut, min_num_recent_reports as int, r),
    {
        let mut recent: Vec<Price> = Vec::new();
        let mut i: usize = 0;
        while i < self.reports.len()
            invariant
                i <= self.reports@.len(),
                recent@ == fresh_prices(self.reports@.subrange(0, i as int), timestamp_cut),
            decreases self.reports@.len() - i,
        {
            proof {
                assert(self.reports@.subrange(0, i + 1).drop_last() =~= self.reports@.subrange(
                    0,
                    i as int,
                ));
            }
            if self.reports[i].timestamp >= timestamp_cut {
                recent.push(self.reports[i].price);
            }
            i = i + 1;
        }
        proof {
            assert(self.reports@.subrange(0, i as int) =~= self.reports@);
        }
        let count = recent.len();
        if count < min_num_recent_reports || count == 0 {
            return None;
        }
        let index = count / 2;
        let ghost before = recent@;
        select_nth(&mut recent, index);
        proof {
            lemma_partition_gives_rank(recent@, index as int);
        }
        Some(recent[index])
    }
}

/// Recording a report at `timestamp` leaves no average updated after it.
pub proof fn lemma_report_keeps_emas_not_after<F: Fn(Price, Price, u64, DurationSec) -> Price>(
    before: AssetView,
    report: Report,
    cut: Timestamp,
    quorum: int,
    smooth: F,
    after: AssetView,
)
    requires
        report_applied(before, report, cut, quorum, smooth, after),
        emas_not_after(before.emas, report.timestamp),
    ensures
        emas_not_after(after.emas, report.timestamp),
{
    if before.emas.len() != 0 {
        let reports = upserted(before.reports, report);
        let m = choose|m: Option<Price>|
            #[trigger] is_median_of(reports, cut, quorum, m) && match m {
                None => after.emas == before.emas,
                Some(p) => all_fed(before.emas, p, report.timestamp, smooth, after.emas),
            };
        if m is Some {
            assert forall|j: int| 0 <= j < after.emas.len() && (#[trigger] after.emas[j]).price is Some
                implies after.emas[j].timestamp <= report.timestamp by {
                assert(ema_fed(before.emas[j], m->0, report.timestamp, smooth, after.emas[j]));
            }
        }
    }
}

/// Removing a reporter twice removes no more than once.
pub proof fn lemma_without_reporter_idempotent(reports: Seq<Report>, id: Seq<char>)
    ensures
        without_reporter(without_reporter(reports, id), id) == without_reporter(reports, id),
    decreases reports.len(),
{
    if reports.len() > 0 {
        let t = reports.drop_last();
        lemma_without_reporter_idempotent(t, id);
        let w = without_reporter(t, id);
        if reports.last().oracle_id@ != id {
            assert(w.push(reports.last()).drop_last() =~= w);
        }
    }
}

/// A second report from a reporter leaves exactly one report of theirs in the
/// ledger: the later one, last in line.
pub proof fn lemma_upsert_keeps_latest(reports: Seq<Report>, first: Report, second: Report)
    requires
        first.oracle_id@ == second.oracle_id@,
    ensures
        ({
            let after = upserted(upserted(reports, first), second);
            &&& after.last() == second
            &&& forall|i: int|
                0 <= i < after.len() - 1 ==> (#[trigger] after[i]).oracle_id@ != second.oracle_id@
        }),
{
    lemma_without_reporter_excludes(upserted(reports, first), second.oracle_id@);
}

/// Removing a reporter leaves none of its reports.
pub proof fn lemma_without_reporter_excludes(reports: Seq<Report>, id: Seq<char>)
    ensures
        forall|i: int|
            0 <= i < without_reporter(reports, id).len() ==> (#[trigger] without_reporter(
                reports,
                id,
            )[i]).oracle_id@ != id,
    decreases reports.len(),
{
    if reports.len() > 0 {
        let t = reports.drop_last();
        lemma_without_reporter_excludes(t, id);
        let w = without_reporter(t, id);
        assert forall|i: int| 0 <= i < without_reporter(reports, id).len() implies (
        #[trigger] without_reporter(reports, id)[i]).oracle_id@ != id by {
            if i < w.len() {
                assert(without_reporter(reports, id)[i] == w[i]);
            }
        }
    }
}

/// Removing a reporter keeps only reports that were there.
proof fn lemma_without_reporter_subset(reports: Seq<Report>, id: Seq<char>)
    ensures
        forall|i: int|
            0 <= i < without_reporter(reports, id).len() ==> reports.contains(
                #[trigger] without_reporter(reports, id)[i],
            ),
    decreases reports.len(),
{
    if reports.len() > 0 {
        let t = reports.drop_last();
        lemma_without_reporter_subset(t, id);
        assert forall|i: int| 0 <= i < without_reporter(reports, id).len() implies reports.contains(
            #[trigger] without_reporter(reports, id)[i],
        ) by {
            if i < without_reporter(t, id).len() {
                let k = choose|k: int| 0 <= k < t.len() && t[k] == without_reporter(t, id)[i];
                assert(reports[k] == t[k]);
            } else {
                assert(reports[reports.len() - 1] == reports.last());
            }
        }
    }
}

/// Recording a report keeps every reporter down to one report.
pub proof fn lemma_upsert_keeps_unique(reports: Seq<Report>, report: Report)
    requires
        unique_reporters(reports),
    ensures
        unique_reporters(upserted(reports, report)),
    decreases reports.len(),
{
    lemma_without_reporter_unique(reports, report.oracle_id@);
    lemma_without_reporter_excludes(reports, report.oracle_id@);
}

proof fn lemma_without_reporter_unique(reports: Seq<Report>, id: Seq<char>)
    requires
        unique_reporters(reports),
    ensures
        unique_reporters(without_reporter(reports, id)),
    decreases reports.len(),
{
    if reports.len() > 0 {
        let t = reports.drop_last();
        assert(unique_reporters(t)) by {
            assert forall|i: int, j: int| 0 <= i < j < t.len() implies (#[trigger] t[i]).oracle_id@
                != (#[trigger] t[j]).oracle_id@ by {
                assert(t[i] == reports[i] && t[j] == reports[j]);
            }
        }
        lemma_without_reporter_unique(t, id);
        lemma_without_reporter_subset(t, id);
        let w = without_reporter(t, id);
        let x = reports.last();
        assert forall|i: int| 0 <= i < w.len() implies (#[trigger] w[i]).oracle_id@ != x.oracle_id@ by {
            assert(t.contains(w[i]));
            let k = choose|k: int| 0 <= k < t.len() && t[k] == w[i];
            assert(reports[k] == t[k]);
            assert(reports[reports.len() - 1] == x);
        }
    }
}

/// The median depends on nothing but the multiset of recent prices: not on
/// the order of the reports nor on who made them. Two ledgers with the same
/// recent prices give medians of the same value, or both none.
pub proof fn lemma_median_depends_on_prices(
    a: Seq<Report>,
    b: Seq<Report>,
    cut: Timestamp,
    quorum: int,
    ra: Option<Price>,
    rb: Option<Price>,
)
    requires
        fresh_prices(a, cut).to_multiset() == fresh_prices(b, cut).to_multiset(),
        is_median_of(a, cut, quorum, ra),
        is_median_of(b, cut, quorum, rb),
    ensures
        ra is Some <==> rb is Some,
        ra is Some ==> ra->0.scaled() == rb->0.scaled(),
{
    fresh_prices(a, cut).to_multiset_ensures();
    fresh_prices(b, cut).to_multiset_ensures();
    if ra is Some {
        lemma_rank_unique(
            fresh_prices(a, cut).to_multiset(),
            fresh_prices(a, cut).len() as int / 2,
            ra->0,
            rb->0,
        );
    }
}

/// With one recent report fewer than the quorum there is no median; with
/// exactly the quorum (of at least one) there is.
pub proof fn lemma_quorum_boundary(reports: Seq<Report>, cut: Timestamp, quorum: int, r: Option<
    Price,
>)
    requires
        quorum >= 1,
        is_median_of(reports, cut, quorum, r),
    ensures
        fresh_prices(reports, cut).len() == quorum - 1 ==> r is None,
        fresh_prices(reports, cut).len() == quorum ==> r is Some,
{
}

} // verus!
