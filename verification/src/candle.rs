//! The candle, its mathematical model, and the rules that open, extend and
//! synthesize one.

use crate::custom::CustomMetrics;
use crate::timeframe::{bucket_start, valid_timestamp};
use crate::types::{Instrument, Timeframe, Trade};
use crate::volume::{usdt_model, usdt_plus};
use vstd::prelude::*;

verus! {

/// The OHLCV summary of one bucket. Prices and volumes are fixed-point with
/// eight decimals; `timestamp` is the start of the bucket.
#[derive(Debug, PartialEq, Eq)]
pub struct Candle {
    pub instrument: Instrument,
    pub interval: Timeframe,
    pub timestamp: i64,
    pub open: u64,
    pub high: u64,
    pub low: u64,
    pub close: u64,
    pub volume: u128,
    pub trade_count: u64,
    pub volume_usdt: Option<u128>,
    pub custom: CustomMetrics,
}

/// A candle as contracts see it: every field but the extension values.
pub struct Bar {
    pub instrument: Instrument,
    pub interval: Timeframe,
    pub timestamp: int,
    pub open: nat,
    pub high: nat,
    pub low: nat,
    pub close: nat,
    pub volume: nat,
    pub trade_count: nat,
    pub volume_usdt: Option<nat>,
}

impl Bar {
    /// `low <= open, close <= high`.
    pub open spec fn ordered(self) -> bool {
        &&& self.low <= self.open <= self.high
        &&& self.low <= self.close <= self.high
    }

    /// A bar without trades is flat and has no volume.
    pub open spec fn flat_if_empty(self) -> bool {
        self.trade_count == 0 ==> {
            &&& self.open == self.high
            &&& self.high == self.low
            &&& self.low == self.close
            &&& self.volume == 0
        }
    }

    /// The bar starts a bucket of its interval at a supported instant.
    pub open spec fn aligned(self) -> bool {
        &&& valid_timestamp(self.timestamp)
        &&& self.timestamp % self.interval.millis() == 0
    }

    pub open spec fn wf(self) -> bool {
        &&& self.ordered()
        &&& self.flat_if_empty()
        &&& self.aligned()
    }
}

impl View for Candle {
    type V = Bar;

    open spec fn view(&self) -> Bar {
        Bar {
            instrument: self.instrument,
            interval: self.interval,
            timestamp: self.timestamp as int,
            open: self.open as nat,
            high: self.high as nat,
            low: self.low as nat,
            close: self.close as nat,
            volume: self.volume as nat,
            trade_count: self.trade_count as nat,
            volume_usdt: usdt_model(self.volume_usdt),
        }
    }
}

/// The models of a sequence of candles.
pub open spec fn bars(candles: Seq<Candle>) -> Seq<Bar> {
    Seq::new(candles.len(), |i: int| candles[i]@)
}

/// The extension values of a sequence of candles.
pub open spec fn customs(candles: Seq<Candle>) -> Seq<Map<Seq<char>, int>> {
    Seq::new(candles.len(), |i: int| candles[i].custom@)
}

/// No extension value, `n` times.
pub open spec fn blank(n: nat) -> Seq<Map<Seq<char>, int>> {
    Seq::new(n, |i: int| Map::empty())
}

/// The bar that one trade opens in its bucket of `tf`; `usdt` is the trade's
/// value in USDT, where known.
pub open spec fn open_bar(trade: Trade, usdt: Option<nat>, tf: Timeframe) -> Bar {
    Bar {
        instrument: trade.instrument,
        interval: tf,
        timestamp: bucket_start(trade.timestamp as int, tf),
        open: trade.price as nat,
        high: trade.price as nat,
        low: trade.price as nat,
        close: trade.price as nat,
        volume: trade.amount as nat,
        trade_count: 1,
        volume_usdt: usdt,
    }
}

/// A bar after one more trade of its bucket. The USDT volume stays known only
/// while every trade so far could be converted.
pub open spec fn merge_bar(bar: Bar, trade: Trade, usdt: Option<nat>) -> Bar {
    Bar {
        high: if trade.price > bar.high {
            trade.price as nat
        } else {
            bar.high
        },
        low: if trade.price < bar.low {
            trade.price as nat
        } else {
            bar.low
        },
        close: trade.price as nat,
        volume: bar.volume + trade.amount as nat,
        trade_count: bar.trade_count + 1,
        volume_usdt: usdt_plus(bar.volume_usdt, usdt),
        ..bar
    }
}

/// The synthetic bar for a bucket without trades: flat at the close of the
/// bar before it.
pub open spec fn gap_bar(before: Bar, timestamp: int) -> Bar {
    Bar {
        timestamp,
        open: before.close,
        high: before.close,
        low: before.close,
        volume: 0,
        trade_count: 0,
        volume_usdt: None,
        ..before
    }
}

impl Clone for Candle {
    fn clone(&self) -> (copy: Self)
        ensures
            copy@ == self@,
            copy.custom@ == self.custom@,
    {
        Candle {
            instrument: self.instrument.clone(),
            interval: self.interval,
            timestamp: self.timestamp,
            open: self.open,
            high: self.high,
            low: self.low,
            close: self.close,
            volume: self.volume,
            trade_count: self.trade_count,
            volume_usdt: self.volume_usdt,
            custom: self.custom.clone(),
        }
    }
}

impl Candle {
    /// A candle opened by `trade`, whose converted notional is `usdt`.
    pub fn open_with(trade: &Trade, tf: Timeframe, ts: i64, usdt: Option<u128>) -> (candle: Self)
        requires
            ts == bucket_start(trade.timestamp as int, tf),
        ensures
            candle@ == open_bar(*trade, usdt_model(usdt), tf),
            candle.custom@ == Map::<Seq<char>, int>::empty(),
    {
        Candle {
            instrument: trade.instrument.clone(),
            interval: tf,
            timestamp: ts,
            open: trade.price,
            high: trade.price,
            low: trade.price,
            close: trade.price,
            volume: trade.amount as u128,
            trade_count: 1,
            volume_usdt: usdt,
            custom: CustomMetrics::new(),
        }
    }

    /// Folds one more trade of the same bucket into the candle.
    pub fn absorb(&mut self, trade: &Trade, usdt: Option<u128>)
        requires
            old(self).volume + trade.amount <= u128::MAX,
            old(self).trade_count < u64::MAX,
        ensures
            final(self)@ == merge_bar(old(self)@, *trade, usdt_model(usdt)),
            final(self).custom == old(self).custom,
    {
        if trade.price > self.high {
            self.high = trade.price;
        }
        if trade.price < self.low {
            self.low = trade.price;
        }
        self.close = trade.price;
        self.volume = self.volume + trade.amount as u128;
        self.trade_count = self.trade_count + 1;
        self.volume_usdt = match (self.volume_usdt, usdt) {
            (Some(a), Some(b)) => a.checked_add(b),
            _ => None,
        };
    }

    /// The synthetic candle that follows this one when the next bucket, at
    /// `ts`, saw no trade.
    pub fn gap_after(&self, ts: i64) -> (candle: Self)
        ensures
            candle@ == gap_bar(self@, ts as int),
            candle.custom@ == Map::<Seq<char>, int>::empty(),
    {
        Candle {
            instrument: self.instrument.clone(),
            interval: self.interval,
            timestamp: ts,
            open: self.close,
            high: self.close,
            low: self.close,
            close: self.close,
            volume: 0,
            trade_count: 0,
            volume_usdt: None,
            custom: CustomMetrics::new(),
        }
    }
}

/// Opening a bar and extending it keep `low <= open, close <= high`; a bar
/// with a trade in it is never taken for an empty one.
pub proof fn lemma_bar_rules(bar: Bar, trade: Trade, usdt: Option<nat>, tf: Timeframe)
    ensures
        open_bar(trade, usdt, tf).ordered(),
        open_bar(trade, usdt, tf).flat_if_empty(),
        bar.ordered() ==> merge_bar(bar, trade, usdt).ordered(),
        merge_bar(bar, trade, usdt).flat_if_empty(),
        gap_bar(bar, 0).ordered(),
        gap_bar(bar, 0).flat_if_empty(),
{
}

} // verus!
