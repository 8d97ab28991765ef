use candle_generator::{
    calc_volume_usdt, resolve_rate, usdt_at_rate, Instrument, MarketType, Pair, RateSource, Side,
    Trade, UsdtVolumeSource, SCALE,
};

fn trade(quote: &str, price: u64, amount: u64) -> Trade {
    Trade {
        instrument: Instrument {
            pair: Pair { base_id: "ETH".to_string(), quote_id: quote.to_string() },
            exchange: "kraken".to_string(),
            market_type: MarketType::Spot,
        },
        id: "1".to_string(),
        price,
        amount,
        side: Side::Buy,
        timestamp: 1_700_000_000_000,
    }
}

struct ByQuote;

impl RateSource for ByQuote {
    fn rate(&self, pair: &Pair, timestamp: i64) -> Option<u64> {
        if pair.quote_id == "BTC" && timestamp == 1_700_000_000_000 {
            Some(50_000 * SCALE)
        } else {
            None
        }
    }
}

#[test]
fn scale_is_eight_decimals() {
    assert_eq!(SCALE, 100_000_000);
}

#[test]
fn notional_is_price_times_amount_times_rate() {
    let t = trade("BTC", 100 * SCALE, SCALE);
    assert_eq!(usdt_at_rate(&t, Some(2 * SCALE)), Some(200 * SCALE as u128));
}

#[test]
fn notional_rounds_down() {
    let t = trade("BTC", 12_345_678_901, 98_765_432_101);
    assert_eq!(usdt_at_rate(&t, Some(150_000_000)), Some(18_289_894_668_561));
    let tiny = trade("BTC", 1, 1);
    assert_eq!(usdt_at_rate(&tiny, Some(SCALE)), Some(0));
}

#[test]
fn notional_without_a_rate_is_unknown() {
    let t = trade("BTC", 100 * SCALE, SCALE);
    assert_eq!(usdt_at_rate(&t, None), None);
}

#[test]
fn notional_beyond_the_range_is_unknown() {
    let t = trade("BTC", u64::MAX, u64::MAX);
    assert_eq!(usdt_at_rate(&t, Some(u64::MAX)), None);
}

#[test]
fn largest_notional_in_usdt_quote_is_known() {
    let t = trade("USDT", u64::MAX, u64::MAX);
    let exact = (u64::MAX as u128) * (u64::MAX as u128) / (SCALE as u128);
    assert_eq!(calc_volume_usdt(&t, &UsdtVolumeSource::Disabled), Some(exact));
}

#[test]
fn usdt_quote_needs_no_rate() {
    let t = trade("USDT", 5 * SCALE, 2 * SCALE);
    assert_eq!(resolve_rate(&t, &UsdtVolumeSource::Disabled), Some(SCALE));
    assert_eq!(resolve_rate(&t, &UsdtVolumeSource::Fixed(7 * SCALE)), Some(SCALE));
    assert_eq!(resolve_rate(&t, &UsdtVolumeSource::Callback(Box::new(ByQuote))), Some(SCALE));
    assert_eq!(calc_volume_usdt(&t, &UsdtVolumeSource::Fixed(7 * SCALE)), Some(10 * SCALE as u128));
}

#[test]
fn other_quotes_go_by_the_source() {
    let t = trade("BTC", 6_000_000, 2 * SCALE);
    assert_eq!(resolve_rate(&t, &UsdtVolumeSource::Disabled), None);
    assert_eq!(resolve_rate(&t, &UsdtVolumeSource::Fixed(3 * SCALE)), Some(3 * SCALE));
    assert_eq!(
        resolve_rate(&t, &UsdtVolumeSource::Callback(Box::new(ByQuote))),
        Some(50_000 * SCALE)
    );
    assert_eq!(
        calc_volume_usdt(&t, &UsdtVolumeSource::Callback(Box::new(ByQuote))),
        Some(6_000 * SCALE as u128)
    );
    let other = trade("EUR", 6_000_000, 2 * SCALE);
    assert_eq!(calc_volume_usdt(&other, &UsdtVolumeSource::Callback(Box::new(ByQuote))), None);
    assert_eq!(calc_volume_usdt(&t, &UsdtVolumeSource::Disabled), None);
}

#[test]
fn a_lowercase_quote_is_not_the_stable_one() {
    let t = trade("usdt", 5 * SCALE, 2 * SCALE);
    assert_eq!(resolve_rate(&t, &UsdtVolumeSource::Disabled), None);
}
