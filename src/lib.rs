//! Price aggregation for a set of trusted reporters: exact prices with a total
//! order across decimal scales, per-asset report ledgers with a quorum-checked
//! median, time-weighted moving averages, and versioned storage records.

pub mod asset;
pub mod codec;
pub mod contract;
pub mod ema;
pub mod fraction;
pub mod legacy;
pub mod oracle;
pub mod owner;
pub mod price;
pub mod query;
pub mod select;
pub mod table;

pub use crate::asset::{
    Asset, AssetId, AssetOptionalPrice, AssetOptionalValidatorPrice, AssetPrice, AssetStatus,
    Report,
};
pub use crate::codec::{decode_asset, decode_oracle, encode_asset, encode_oracle, DecodeError};
pub use crate::contract::{
    to_nano, Contract, OracleError, PriceData, ReportReceipt, NANOS_PER_SEC, NEAR_CLAIM_DURATION,
};
pub use crate::ema::{AssetEma, DurationSec, Timestamp};
pub use crate::fraction::{wide_mul, Fraction, Wide};
pub use crate::legacy::{AssetV0, AssetV1, VAsset};
pub use crate::oracle::{Oracle, OracleV0, VOracle};
pub use crate::price::{Price, PriceError, MAX_U128_DECIMALS, MAX_VALID_DECIMALS};
pub use crate::query::{parse_asset_query, parse_period, AssetQuery, QueryError, PERIOD_SEPARATOR};
pub use crate::select::select_nth;
pub use crate::table::Table;
