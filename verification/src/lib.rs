//! Candle (OHLCV bar) aggregation over a fixed hierarchy of time intervals.
//!
//! Prices, amounts, rates and volumes are fixed-point integers with eight
//! decimal places; instants are milliseconds since the Unix epoch, UTC.

use vstd::prelude::*;

pub mod aggregation;
pub mod candle;
pub mod chain;
pub mod custom;
pub mod engine;
pub mod formats;
pub mod generator;
pub mod model;
pub mod order;
pub mod rollup;
pub mod stats;
pub mod text;
pub mod timeframe;
pub mod types;
pub mod volume;

pub use aggregation::{
    aggregate_trades_chain, aggregate_trades_to_candles, simple_candles, SimpleCandle,
};
pub use candle::{Bar, Candle};
pub use chain::CandleChain;
pub use custom::CustomMetrics;
pub use engine::CandleEngine;
pub use formats::{base_interval, parse_intervals, parse_side, CsvTrade};
pub use generator::{new_candle, CandleAggregator, CandleConfig, CandleGenerator, CandleMetric};
pub use model::MAX_TRADES;
pub use rollup::aggregate_from_lower;
pub use stats::ProcessingStats;
pub use timeframe::{
    bucket_start, truncate_to_tf, valid_timestamp, MAX_TIMESTAMP, MIN_TIMESTAMP,
};
pub use types::{Instrument, MarketType, Pair, Side, Timeframe, Trade};
pub use volume::{
    calc_volume_usdt, resolve_rate, usdt_at_rate, RateSource, UsdtVolumeSource, SCALE,
};

verus! {

/// Sum of two counters whose total is representable.
pub fn add(left: u64, right: u64) -> (sum: u64)
    requires
        left + right <= u64::MAX,
    ensures
        sum == left + right,
{
    left + right
}

} // verus!
