use crate::ema::Timestamp;
use vstd::prelude::*;

verus! {

/// What is kept of each reporter: when it last reported, how many prices it
/// has reported, and when it last claimed its reward.
#[derive(Clone, Copy, Debug, PartialEq, Eq, Structural)]
pub struct Oracle {
    pub last_report: Timestamp,
    pub price_reports: u64,
    pub last_near_claim: Timestamp,
}

/// The first stored shape of a reporter's record, without the claim time.
#[derive(Clone, Copy, Debug, PartialEq, Eq, Structural)]
pub struct OracleV0 {
    pub last_report: Timestamp,
    pub price_reports: u64,
}

/// Every shape in which a reporter's record has been stored.
#[derive(Clone, Copy, Debug, PartialEq, Eq, Structural)]
pub enum VOracle {
    V0(OracleV0),
    Current(Oracle),
}

/// The current shape of a stored record: an older one has never claimed.
pub open spec fn upgrade_oracle(v: VOracle) -> Oracle {
    match v {
        VOracle::V0(o) => Oracle {
            last_report: o.last_report,
            price_reports: o.price_reports,
            last_near_claim: 0,
        },
        VOracle::Current(c) => c,
    }
}

impl Oracle {
    pub fn new() -> (r: Oracle)
        ensures
            r == (Oracle { last_report: 0, price_reports: 0, last_near_claim: 0 }),
    {
        Oracle { last_report: 0, price_reports: 0, last_near_claim: 0 }
    }

    /// Reads a stored record of any shape into the current one.
    pub fn from_versioned(v: VOracle) -> (r: Oracle)
        ensures
            r == upgrade_oracle(v),
    {
        match v {
            VOracle::V0(o) => Oracle {
                last_report: o.last_report,
                price_reports: o.price_reports,
                last_near_claim: 0,
            },
            VOracle::Current(c) => c,
        }
    }
}

impl VOracle {
    /// The shape in which a record is written.
    pub fn from_current(o: Oracle) -> (r: VOracle)
        ensures
            r == VOracle::Current(o),
    {
        VOracle::Current(o)
    }
}

} // verus!
