//! Notional volume in USDT: where the rate comes from and how a trade is
//! converted.

use crate::text::str_eq;
use crate::types::{Pair, Trade};
use vstd::arithmetic::div_mod::lemma_fundamental_div_mod_converse;
use vstd::prelude::*;

verus! {

/// One unit in fixed-point: prices, amounts, rates and volumes carry eight
/// decimal places.
pub const SCALE: u64 = 100_000_000;

/// A provider of conversion rates, for quote assets whose rate moves. It can
/// be shared between threads.
pub trait RateSource: Send + Sync {
    /// The rate from the pair's quote asset to USDT at `timestamp`
    /// (fixed-point), or `None` when it is not known.
    fn rate(&self, pair: &Pair, timestamp: i64) -> Option<u64>;
}

/// Where the rate to USDT comes from.
pub enum UsdtVolumeSource {
    /// One rate for every trade.
    Fixed(u64),
    /// A rate looked up per trade.
    Callback(Box<dyn RateSource>),
    /// No rate is given: only a trade quoted in USDT has a USDT volume.
    Disabled,
}

/// The quote asset that needs no conversion.
pub open spec fn stable_quote() -> Seq<char> {
    "USDT"@
}

/// `price * amount * rate` in fixed-point, rounded down.
pub open spec fn notional(price: nat, amount: nat, rate: nat) -> nat {
    (price * amount * rate) / (10_000_000_000_000_000nat)
}

/// The USDT value of a trade at a rate: known when the rate is, and when the
/// value is representable.
pub open spec fn converted(trade: Trade, rate: Option<u64>) -> Option<nat> {
    match rate {
        Some(r) => {
            let value = notional(trade.price as nat, trade.amount as nat, r as nat);
            if value <= u128::MAX {
                Some(value)
            } else {
                None
            }
        },
        None => None,
    }
}

/// A USDT volume as a mathematical number.
pub open spec fn usdt_model(value: Option<u128>) -> Option<nat> {
    match value {
        Some(v) => Some(v as nat),
        None => None,
    }
}

/// Sum of two USDT volumes: known only if both are, and if it is
/// representable.
pub open spec fn usdt_plus(a: Option<nat>, b: Option<nat>) -> Option<nat> {
    if a is Some && b is Some && a->0 + b->0 <= u128::MAX {
        Some(a->0 + b->0)
    } else {
        None
    }
}

/// The rates that a source may give for a trade. A trade quoted in USDT has
/// rate one whatever the source; a callback decides for itself.
pub open spec fn rate_allowed(source: UsdtVolumeSource, trade: Trade, rate: Option<u64>) -> bool {
    if trade.instrument.pair.quote_id@ == stable_quote() {
        rate == Some(SCALE)
    } else {
        match source {
            UsdtVolumeSource::Fixed(r) => rate == Some(r),
            UsdtVolumeSource::Callback(_) => true,
            UsdtVolumeSource::Disabled => rate is None,
        }
    }
}

/// The rate for a trade under a source that is no callback.
pub open spec fn plain_rate(source: UsdtVolumeSource, trade: Trade) -> Option<u64> {
    if trade.instrument.pair.quote_id@ == stable_quote() {
        Some(SCALE)
    } else {
        match source {
            UsdtVolumeSource::Fixed(r) => Some(r),
            _ => None,
        }
    }
}

/// The rate that applies to `trade`. Only a callback is asked; what it
/// answers is taken as it comes.
pub fn resolve_rate(trade: &Trade, source: &UsdtVolumeSource) -> (rate: Option<u64>)
    ensures
        rate_allowed(*source, *trade, rate),
{
    if str_eq(trade.instrument.pair.quote_id.as_str(), "USDT") {
        Some(SCALE)
    } else {
        match source {
            UsdtVolumeSource::Fixed(r) => Some(*r),
            UsdtVolumeSource::Callback(lookup) => lookup.rate(
                &trade.instrument.pair,
                trade.timestamp,
            ),
            UsdtVolumeSource::Disabled => None,
        }
    }
}

/// The USDT value of `trade` at `rate`.
pub fn usdt_at_rate(trade: &Trade, rate: Option<u64>) -> (value: Option<u128>)
    ensures
        usdt_model(value) == converted(*trade, rate),
{
    match rate {
        None => None,
        Some(r) => {
            let unit: u128 = 10_000_000_000_000_000;
            assert(trade.price * trade.amount <= u128::MAX) by (nonlinear_arith)
                requires
                    trade.price <= u64::MAX,
                    trade.amount <= u64::MAX,
            ;
            let product: u128 = (trade.price as u128) * (trade.amount as u128);
            let whole: u128 = product / unit;
            let part: u128 = product % unit;
            assert(part * r <= u128::MAX) by (nonlinear_arith)
                requires
                    part < 10_000_000_000_000_000,
                    r <= u64::MAX,
            ;
            let low: u128 = part * (r as u128) / unit;
            proof {
                lemma_split_notional(
                    trade.price as nat,
                    trade.amount as nat,
                    r as nat,
                    whole as nat,
                    part as nat,
                );
            }
            match whole.checked_mul(r as u128) {
                Some(high) => high.checked_add(low),
                None => None,
            }
        },
    }
}

/// The USDT value of `trade` under `source`.
pub fn calc_volume_usdt(trade: &Trade, source: &UsdtVolumeSource) -> (value: Option<u128>)
    ensures
        exists|rate: Option<u64>|
            rate_allowed(*source, *trade, rate) && usdt_model(value) == #[trigger] converted(
                *trade,
                rate,
            ),
{
    let rate = resolve_rate(trade, source);
    usdt_at_rate(trade, rate)
}

/// With `price * amount == whole * unit + part`, the notional at `rate` is
/// `whole * rate` plus the scaled remainder.
proof fn lemma_split_notional(price: nat, amount: nat, rate: nat, whole: nat, part: nat)
    requires
        price * amount == whole * 10_000_000_000_000_000 + part,
        part < 10_000_000_000_000_000,
    ensures
        notional(price, amount, rate) == whole * rate + (part * rate) / 10_000_000_000_000_000nat,
{
    let unit = 10_000_000_000_000_000int;
    let low = (part * rate) as int / unit;
    let rest = (part * rate) as int % unit;
    assert(price * amount * rate == (whole * rate + low) * unit + rest) by (nonlinear_arith)
        requires
            price * amount == whole * unit + part,
            part * rate == low * unit + rest,
    ;
    lemma_fundamental_div_mod_converse(
        (price * amount * rate) as int,
        unit,
        (whole * rate + low) as int,
        rest,
    );
}

} // verus!
