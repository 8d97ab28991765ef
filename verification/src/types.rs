//! Value types shared by every component: instruments, trades, intervals.

use vstd::prelude::*;

verus! {

/// Candle intervals, shortest first. The codes are lower-case so that the
/// minute intervals cannot be mistaken for monthly ones.
#[allow(non_camel_case_types)]
#[derive(Debug, Clone, Copy, PartialEq, Eq, Hash, Structural)]
pub enum Timeframe {
    m1,
    m5,
    m15,
    m30,
    h1,
    h4,
    d1,
}

/// A traded pair of assets.
#[derive(Debug, PartialEq, Eq, Hash)]
pub struct Pair {
    pub base_id: String,
    pub quote_id: String,
}

impl Clone for Pair {
    fn clone(&self) -> (copy: Self)
        ensures
            copy == *self,
    {
        Pair { base_id: self.base_id.clone(), quote_id: self.quote_id.clone() }
    }
}

#[derive(Debug, Clone, Copy, PartialEq, Eq, Hash, Structural)]
pub enum MarketType {
    Spot,
    Futures,
    Margin,
    Unknown,
}

/// A pair as traded on one venue and market.
#[derive(Debug, PartialEq, Eq, Hash)]
pub struct Instrument {
    pub pair: Pair,
    pub exchange: String,
    pub market_type: MarketType,
}

impl Clone for Instrument {
    fn clone(&self) -> (copy: Self)
        ensures
            copy == *self,
    {
        Instrument {
            pair: self.pair.clone(),
            exchange: self.exchange.clone(),
            market_type: self.market_type,
        }
    }
}

#[derive(Debug, Clone, Copy, PartialEq, Eq, Hash, Structural)]
pub enum Side {
    Buy,
    Sell,
    Unknown,
}

/// One execution. `price` and `amount` are fixed-point (eight decimals);
/// `timestamp` is in milliseconds since the Unix epoch.
#[derive(Debug, PartialEq, Eq)]
pub struct Trade {
    pub instrument: Instrument,
    pub id: String,
    pub price: u64,
    pub amount: u64,
    pub side: Side,
    pub timestamp: i64,
}

impl Clone for Trade {
    fn clone(&self) -> (copy: Self)
        ensures
            copy == *self,
    {
        Trade {
            instrument: self.instrument.clone(),
            id: self.id.clone(),
            price: self.price,
            amount: self.amount,
            side: self.side,
            timestamp: self.timestamp,
        }
    }
}

impl Trade {
    /// A trade is well-formed when price and amount are positive and the
    /// timestamp is a supported instant.
    pub open spec fn wf(&self) -> bool {
        &&& self.price > 0
        &&& self.amount > 0
        &&& crate::timeframe::valid_timestamp(self.timestamp as int)
    }

    /// Whether the trade is well-formed.
    pub fn is_valid(&self) -> (ok: bool)
        ensures
            ok == self.wf(),
    {
        self.price > 0 && self.amount > 0 && crate::timeframe::MIN_TIMESTAMP <= self.timestamp
            && self.timestamp <= crate::timeframe::MAX_TIMESTAMP
    }
}

} // verus!
