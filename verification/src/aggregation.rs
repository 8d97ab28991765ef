//! Batch entry points with the default configuration, and the flat row that
//! candles are exported as.

use crate::candle::{bars, blank, Bar, Candle};
use crate::chain::{
    chain_customs, chain_from, chain_map, lemma_blank, lemma_bounded_chain, lemma_fold_bounded,
    CandleChain,
};
use crate::generator::{all_wf, fold, no_custom, plain_rates, CandleGenerator};
use crate::types::{Timeframe, Trade};
use crate::volume::UsdtVolumeSource;
use vstd::prelude::*;

verus! {

/// Folds `trades` into candles of `interval` with the default configuration:
/// no metrics, and a USDT volume only for trades quoted in USDT.
pub fn aggregate_trades_to_candles(trades: &[Trade], interval: Timeframe) -> (candles: Vec<Candle>)
    requires
        all_wf(trades@),
    ensures
        bars(candles@) == fold(
            trades@,
            plain_rates(UsdtVolumeSource::Disabled, trades@),
            interval,
        ),
        no_custom(candles@),
        forall|k: int| 0 <= k < candles.len() ==> (#[trigger] candles[k])@.wf(),
{
    let generator = CandleGenerator::default();
    generator.aggregate(trades, interval)
}

/// Folds `trades` into candles of the first interval of `timeframes` and
/// rolls them up through the rest of the list, each interval from the level
/// before it. No interval gives an empty chain.
pub fn aggregate_trades_chain(trades: &[Trade], timeframes: &[Timeframe]) -> (chain: CandleChain)
    requires
        all_wf(trades@),
    ensures
        timeframes@.len() == 0 ==> chain@ == Map::<Timeframe, Seq<Bar>>::empty()
            && chain.extras() == Map::<Timeframe, Seq<Map<Seq<char>, int>>>::empty(),
        timeframes@.len() > 0 ==> ({
            let base = fold(
                trades@,
                plain_rates(UsdtVolumeSource::Disabled, trades@),
                timeframes@[0],
            );
            &&& chain@ == chain_map(base, timeframes@, timeframes@.len() as int)
            &&& chain.extras() == chain_customs(
                base,
                blank(base.len()),
                timeframes@,
                timeframes@.len() as int,
            )
        }),
{
    if timeframes.len() == 0 {
        return CandleChain::new();
    }
    let generator = CandleGenerator::default();
    let base = generator.aggregate(trades, timeframes[0]);
    let held: usize = trades.len();
    proof {
        assert(trades@.len() == held);
        lemma_fold_bounded(
            trades@,
            plain_rates(UsdtVolumeSource::Disabled, trades@),
            timeframes@[0],
        );
        lemma_bounded_chain(bars(base@), timeframes@);
        assert(bars(base@).len() == base@.len());
        lemma_blank(base@);
    }
    chain_from(base, timeframes, &generator.config)
}

/// A candle as one flat row: the start of its bucket and its prices and
/// volume.
#[derive(Debug, Clone, Copy, PartialEq, Eq)]
pub struct SimpleCandle {
    pub timestamp: i64,
    pub open: u64,
    pub high: u64,
    pub low: u64,
    pub close: u64,
    pub volume: u128,
}

impl SimpleCandle {
    /// The row of a bar.
    pub open spec fn of(bar: Bar) -> (int, nat, nat, nat, nat, nat) {
        (bar.timestamp, bar.open, bar.high, bar.low, bar.close, bar.volume)
    }

    /// The row as numbers.
    pub open spec fn fields(self) -> (int, nat, nat, nat, nat, nat) {
        (
            self.timestamp as int,
            self.open as nat,
            self.high as nat,
            self.low as nat,
            self.close as nat,
            self.volume as nat,
        )
    }

    pub fn from_candle(candle: &Candle) -> (row: Self)
        ensures
            row.fields() == Self::of(candle@),
    {
        SimpleCandle {
            timestamp: candle.timestamp,
            open: candle.open,
            high: candle.high,
            low: candle.low,
            close: candle.close,
            volume: candle.volume,
        }
    }
}

impl<'a> From<&'a Candle> for SimpleCandle {
    fn from(candle: &'a Candle) -> (row: Self) {
        SimpleCandle::from_candle(candle)
    }
}

impl<'a> vstd::std_specs::convert::FromSpecImpl<&'a Candle> for SimpleCandle {
    open spec fn obeys_from_spec() -> bool {
        true
    }

    open spec fn from_spec(candle: &'a Candle) -> Self {
        SimpleCandle {
            timestamp: candle.timestamp,
            open: candle.open,
            high: candle.high,
            low: candle.low,
            close: candle.close,
            volume: candle.volume,
        }
    }
}

/// The rows of `candles`, in order.
pub fn simple_candles(candles: &[Candle]) -> (rows: Vec<SimpleCandle>)
    ensures
        rows@.len() == candles@.len(),
        forall|k: int|
            0 <= k < rows@.len() ==> (#[trigger] rows@[k]).fields() == SimpleCandle::of(
                candles@[k]@,
            ),
{
    let mut rows: Vec<SimpleCandle> = Vec::new();
    let mut i: usize = 0;
    while i < candles.len()
        invariant
            i <= candles.len(),
            rows@.len() == i,
            forall|k: int|
                0 <= k < i ==> (#[trigger] rows@[k]).fields() == SimpleCandle::of(candles@[k]@),
        decreases candles.len() - i,
    {
        rows.push(SimpleCandle::from_candle(&candles[i]));
        i += 1;
    }
    rows
}

} // verus!
