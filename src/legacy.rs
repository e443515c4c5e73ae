use crate::asset::{Asset, AssetStatus, AssetView, Report};
use crate::ema::AssetEma;
use vstd::prelude::*;

verus! {

/// The first stored shape of an asset: reports only.
#[derive(Debug)]
pub struct AssetV0 {
    pub reports: Vec<Report>,
}

/// The second stored shape of an asset: reports and moving averages.
#[derive(Debug)]
pub struct AssetV1 {
    pub reports: Vec<Report>,
    pub emas: Vec<AssetEma>,
}

/// Every shape in which an asset has been stored. Reading takes any of them
/// to the current shape; writing always stores `Current`.
#[derive(Debug)]
pub enum VAsset {
    V0(AssetV0),
    V1(AssetV1),
    Current(Asset),
}

/// The current shape of a stored asset: an older shape is active, and the
/// moving averages that it lacks are none.
pub open spec fn upgrade_asset(v: VAsset) -> AssetView {
    match v {
        VAsset::V0(a) => AssetView { status: AssetStatus::Active, reports: a.reports@, emas: seq![] },
        VAsset::V1(a) => AssetView {
            status: AssetStatus::Active,
            reports: a.reports@,
            emas: a.emas@,
        },
        VAsset::Current(a) => a@,
    }
}

impl Asset {
    /// Reads a stored asset of any shape into the current one.
    pub fn from_versioned(v: VAsset) -> (r: Asset)
        ensures
            r@ == upgrade_asset(v),
    {
        match v {
            VAsset::V0(a) => Asset { status: AssetStatus::Active, reports: a.reports, emas: Vec::new() },
            VAsset::V1(a) => Asset { status: AssetStatus::Active, reports: a.reports, emas: a.emas },
            VAsset::Current(a) => a,
        }
    }
}

impl VAsset {
    /// The shape in which an asset is written.
    pub fn from_current(a: Asset) -> (r: VAsset)
        ensures
            r == VAsset::Current(a),
    {
        VAsset::Current(a)
    }
}

} // verus!
