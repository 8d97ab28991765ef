use candle_generator::{
    Candle, CandleConfig, CandleEngine, CandleMetric, Instrument, MarketType, Pair, Side,
    Timeframe, Trade, UsdtVolumeSource, MAX_TRADES, SCALE,
};

const DAY: i64 = 1_699_920_000_000;
const MINUTE: i64 = 60_000;

fn instrument(quote: &str) -> Instrument {
    Instrument {
        pair: Pair { base_id: "BTC".to_string(), quote_id: quote.to_string() },
        exchange: "binance".to_string(),
        market_type: MarketType::Spot,
    }
}

fn trade(ts: i64, price: u64, amount: u64) -> Trade {
    Trade {
        instrument: instrument("USDT"),
        id: ts.to_string(),
        price: price * SCALE,
        amount: amount * SCALE,
        side: Side::Buy,
        timestamp: ts,
    }
}

fn feed(engine: &mut CandleEngine, trades: Vec<Trade>) {
    for t in trades {
        assert!(engine.accepts(&t));
        engine.add_trade(t);
    }
}

/// The `m1` history, oldest first.
fn history(engine: &CandleEngine, tf: Timeframe) -> Vec<Candle> {
    let mut candles = engine.get_candles(tf, usize::MAX);
    candles.reverse();
    candles
}

#[test]
fn gap_fill_shape() {
    let t0 = DAY + 17 * MINUTE + 20_000;
    let mut engine = CandleEngine::new(vec![Timeframe::m1], instrument("USDT"));
    feed(&mut engine, vec![trade(t0, 100, 1), trade(t0 + 5 * MINUTE, 110, 2)]);
    let m1 = history(&engine, Timeframe::m1);
    assert_eq!(m1.len(), 6);
    for (i, c) in m1.iter().enumerate() {
        assert_eq!(c.timestamp, DAY + (17 + i as i64) * MINUTE);
        assert_eq!(c.interval, Timeframe::m1);
        assert_eq!(c.instrument, instrument("USDT"));
    }
    assert_eq!(m1[0].close, 100 * SCALE);
    assert_eq!(m1[0].trade_count, 1);
    for c in &m1[1..5] {
        assert_eq!(c.volume, 0);
        assert_eq!(c.trade_count, 0);
        assert_eq!(c.open, m1[0].close);
        assert_eq!(c.high, m1[0].close);
        assert_eq!(c.low, m1[0].close);
        assert_eq!(c.close, m1[0].close);
        assert_eq!(c.volume_usdt, None);
        assert!(c.custom.is_empty());
    }
    assert_eq!(m1[5].open, 110 * SCALE);
    assert_eq!(m1[5].volume, 2 * SCALE as u128);
    assert_eq!(m1[5].trade_count, 1);
    assert_eq!(m1[5].volume_usdt, Some(220 * SCALE as u128));
}

#[test]
fn next_minute_leaves_no_gap() {
    let mut engine = CandleEngine::new(vec![], instrument("USDT"));
    feed(&mut engine, vec![trade(DAY + 59_999, 100, 1), trade(DAY + MINUTE, 101, 1)]);
    let m1 = history(&engine, Timeframe::m1);
    assert_eq!(m1.len(), 2);
    assert_eq!(m1[0].timestamp, DAY);
    assert_eq!(m1[1].timestamp, DAY + MINUTE);
    assert_eq!(m1[1].trade_count, 1);
}

#[test]
fn late_trade_correction() {
    let t0 = 1_700_000_000_000;
    let mut engine = CandleEngine::new(vec![Timeframe::m1], instrument("USDT"));
    feed(
        &mut engine,
        vec![trade(t0, 100, 1), trade(t0 + 60_000, 110, 2), trade(t0 + 10_000, 120, 3)],
    );
    let m1 = history(&engine, Timeframe::m1);
    assert_eq!(m1.len(), 2);
    assert_eq!(m1[0].timestamp, 1_699_999_980_000);
    assert_eq!(m1[0].open, 100 * SCALE);
    assert_eq!(m1[0].high, 120 * SCALE);
    assert_eq!(m1[0].low, 100 * SCALE);
    assert_eq!(m1[0].close, 120 * SCALE);
    assert_eq!(m1[0].volume, 4 * SCALE as u128);
    assert_eq!(m1[0].trade_count, 2);
    assert_eq!(m1[0].volume_usdt, Some((100 + 360) * SCALE as u128));
    assert_eq!(m1[1].timestamp, 1_700_000_040_000);
    assert_eq!(m1[1].high, 110 * SCALE);
    assert_eq!(m1[1].volume, 2 * SCALE as u128);
    assert_eq!(m1[1].trade_count, 1);
}

#[test]
fn late_trade_into_a_synthetic_candle() {
    let mut engine = CandleEngine::new(vec![Timeframe::m1], instrument("USDT"));
    feed(
        &mut engine,
        vec![trade(DAY, 150, 1), trade(DAY + 3 * MINUTE, 160, 1), trade(DAY + MINUTE + 5, 100, 2)],
    );
    let m1 = history(&engine, Timeframe::m1);
    assert_eq!(m1.len(), 4);
    assert_eq!(m1[1].timestamp, DAY + MINUTE);
    assert_eq!(m1[1].open, 150 * SCALE);
    assert_eq!(m1[1].high, 150 * SCALE);
    assert_eq!(m1[1].low, 100 * SCALE);
    assert_eq!(m1[1].close, 100 * SCALE);
    assert_eq!(m1[1].volume, 2 * SCALE as u128);
    assert_eq!(m1[1].trade_count, 1);
    assert_eq!(m1[1].volume_usdt, None);
    assert_eq!(m1[2].trade_count, 0);
    assert_eq!(m1[2].close, 150 * SCALE);
}

#[test]
fn a_trade_older_than_the_history_is_not_accepted() {
    let mut engine = CandleEngine::new(vec![Timeframe::m1], instrument("USDT"));
    feed(&mut engine, vec![trade(DAY + MINUTE, 100, 1)]);
    assert!(!engine.accepts(&trade(DAY + MINUTE - 1, 100, 1)));
    assert!(engine.accepts(&trade(DAY + MINUTE, 100, 1)));
    let mut free = trade(DAY + MINUTE, 100, 1);
    free.price = 0;
    assert!(!engine.accepts(&free));
    let mut far = trade(DAY + MINUTE, 100, 1);
    far.timestamp = i64::MAX;
    assert!(!engine.accepts(&far));
    assert_eq!(MAX_TRADES, 1 << 53);
}

#[test]
fn arrival_order_leaves_buckets_counts_and_volumes_alone() {
    let a = trade(DAY + 1_000, 100, 1);
    let b = trade(DAY + 3 * MINUTE, 105, 2);
    let c = trade(DAY + MINUTE + 7, 90, 4);
    let d = trade(DAY + 3 * MINUTE + 9, 130, 8);
    let mut first = CandleEngine::new(vec![], instrument("USDT"));
    feed(&mut first, vec![a.clone(), b.clone(), c.clone(), d.clone()]);
    let mut second = CandleEngine::new(vec![], instrument("USDT"));
    feed(&mut second, vec![a, d, c, b]);
    let x = history(&first, Timeframe::m1);
    let y = history(&second, Timeframe::m1);
    assert_eq!(x.len(), 4);
    assert_eq!(y.len(), 4);
    for i in 0..4 {
        assert_eq!(x[i].timestamp, y[i].timestamp);
        assert_eq!(x[i].trade_count, y[i].trade_count);
        assert_eq!(x[i].volume, y[i].volume);
    }
    assert_eq!(x[3].volume, 10 * SCALE as u128);
    assert_eq!(x[3].close, 130 * SCALE);
    assert_eq!(y[3].close, 105 * SCALE);
}

#[test]
fn every_candle_keeps_its_prices_in_order() {
    let mut engine = CandleEngine::new(vec![Timeframe::d1], instrument("USDT"));
    let mut trades = Vec::new();
    for i in 0..40 {
        trades.push(trade(DAY + i * 37_000, 100 + (i as u64 * 7) % 13, 1 + i as u64 % 3));
    }
    trades.push(trade(DAY + 2 * MINUTE, 50, 1));
    trades.push(trade(DAY + 9 * MINUTE, 500, 1));
    feed(&mut engine, trades);
    for tf in [Timeframe::m1, Timeframe::m5, Timeframe::m15, Timeframe::m30] {
        let candles = history(&engine, tf);
        assert!(!candles.is_empty());
        for c in candles {
            assert!(c.low <= c.open && c.open <= c.high);
            assert!(c.low <= c.close && c.close <= c.high);
        }
    }
}

#[test]
fn cascade_appends_the_newest_window() {
    let mut engine = CandleEngine::new(vec![Timeframe::m5], instrument("USDT"));
    for i in 0..4 {
        feed(&mut engine, vec![trade(DAY + i * MINUTE, 100 + i as u64, 1)]);
        assert_eq!(engine.get_candles(Timeframe::m5, 10).len(), 0);
    }
    feed(&mut engine, vec![trade(DAY + 4 * MINUTE, 104, 1)]);
    let m5 = history(&engine, Timeframe::m5);
    assert_eq!(m5.len(), 1);
    assert_eq!(m5[0].interval, Timeframe::m5);
    assert_eq!(m5[0].timestamp, DAY);
    assert_eq!(m5[0].open, 100 * SCALE);
    assert_eq!(m5[0].high, 104 * SCALE);
    assert_eq!(m5[0].low, 100 * SCALE);
    assert_eq!(m5[0].close, 104 * SCALE);
    assert_eq!(m5[0].volume, 5 * SCALE as u128);
    assert_eq!(m5[0].trade_count, 5);
    assert_eq!(m5[0].volume_usdt, Some((100 + 101 + 102 + 103 + 104) * SCALE as u128));
    feed(&mut engine, vec![trade(DAY + 4 * MINUTE + 1, 90, 1)]);
    assert_eq!(engine.get_candles(Timeframe::m5, 10).len(), 1);
}

#[test]
fn cascade_goes_on_while_the_newest_child_is_in_another_parent_bucket() {
    let mut engine = CandleEngine::new(vec![Timeframe::m5], instrument("USDT"));
    for i in 0..10 {
        feed(&mut engine, vec![trade(DAY + i * MINUTE, 100 + i as u64, 1)]);
    }
    let m5 = history(&engine, Timeframe::m5);
    assert_eq!(m5.len(), 6);
    for (k, c) in m5.iter().enumerate() {
        assert_eq!(c.open, (100 + k as u64) * SCALE);
        assert_eq!(c.close, (104 + k as u64) * SCALE);
        assert_eq!(c.trade_count, 5);
        assert_eq!(c.timestamp, if k < 5 { DAY } else { DAY + 5 * MINUTE });
    }
    feed(&mut engine, vec![trade(DAY + 9 * MINUTE + 30_000, 300, 1)]);
    assert_eq!(engine.get_candles(Timeframe::m5, 10).len(), 6);
}

#[test]
fn cascade_stops_at_the_highest_interval_kept() {
    let mut engine = CandleEngine::new(vec![Timeframe::m5], instrument("USDT"));
    for i in 0..20 {
        feed(&mut engine, vec![trade(DAY + i * MINUTE, 100, 1)]);
    }
    assert!(engine.get_candles(Timeframe::m5, 100).len() >= 3);
    assert_eq!(engine.get_candles(Timeframe::m15, 100).len(), 0);
    assert!(engine.tracks(&Timeframe::m1));
    assert!(engine.tracks(&Timeframe::m5));
    assert!(!engine.tracks(&Timeframe::m15));
    let mut higher = CandleEngine::new(vec![Timeframe::m1, Timeframe::m15], instrument("USDT"));
    assert!(higher.tracks(&Timeframe::m5));
    for i in 0..20 {
        feed(&mut higher, vec![trade(DAY + i * MINUTE, 100, 1)]);
    }
    let m15 = history(&higher, Timeframe::m15);
    assert!(!m15.is_empty());
    assert_eq!(m15[0].interval, Timeframe::m15);
    assert_eq!(m15[0].trade_count, 15);
    assert_eq!(higher.get_candles(Timeframe::m30, 100).len(), 0);
}

#[test]
fn recent_candles_come_newest_first_and_no_more_than_asked() {
    let mut engine = CandleEngine::new(vec![], instrument("USDT"));
    for i in 0..5 {
        feed(&mut engine, vec![trade(DAY + i * MINUTE, 100 + i as u64, 1)]);
    }
    let two = engine.get_candles(Timeframe::m1, 2);
    assert_eq!(two.len(), 2);
    assert_eq!(two[0].timestamp, DAY + 4 * MINUTE);
    assert_eq!(two[1].timestamp, DAY + 3 * MINUTE);
    assert_eq!(engine.get_candles(Timeframe::m1, 0).len(), 0);
    assert_eq!(engine.get_candles(Timeframe::m1, 5).len(), 5);
    assert_eq!(engine.get_candles(Timeframe::m1, 6).len(), 5);
    assert_eq!(engine.trades_seen(), 5);
}

#[test]
fn reset_clears_every_history() {
    let mut engine = CandleEngine::new(vec![Timeframe::m5], instrument("USDT"));
    for i in 0..6 {
        feed(&mut engine, vec![trade(DAY + i * MINUTE, 100, 1)]);
    }
    assert!(!engine.get_candles(Timeframe::m5, 10).is_empty());
    engine.reset();
    assert_eq!(engine.trades_seen(), 0);
    assert_eq!(engine.get_candles(Timeframe::m1, 10).len(), 0);
    assert_eq!(engine.get_candles(Timeframe::m5, 10).len(), 0);
    assert!(engine.tracks(&Timeframe::m5));
    assert!(engine.accepts(&trade(DAY - MINUTE, 100, 1)));
}

struct Count;

impl CandleMetric for Count {
    fn update(&self, _trade: &Trade, candle: &mut Candle) {
        let seen = candle.custom.get("updates").unwrap_or(0);
        candle.custom.insert("updates".to_string(), seen + 1);
    }

    fn aggregate(&self, src: &[Candle], dst: &mut Candle) {
        let mut sum = 0;
        for c in src {
            sum += c.custom.get("updates").unwrap_or(0);
        }
        dst.custom.insert("updates".to_string(), sum);
    }
}

#[test]
fn metrics_run_once_per_trade_and_once_per_window() {
    let config = CandleConfig {
        basic_ohlcv: true,
        volume_in_usdt: UsdtVolumeSource::Fixed(2 * SCALE),
        custom_metrics: vec![Box::new(Count)],
    };
    let mut engine = CandleEngine::with_config(vec![Timeframe::m5], instrument("USDT"), config);
    let mut quoted = trade(DAY, 100, 1);
    quoted.instrument = instrument("EUR");
    feed(&mut engine, vec![quoted, trade(DAY + 1, 100, 1)]);
    for i in 1..5 {
        feed(&mut engine, vec![trade(DAY + i * MINUTE, 100, 1)]);
    }
    let m1 = history(&engine, Timeframe::m1);
    assert_eq!(m1[0].custom.get("updates"), Some(2));
    assert_eq!(m1[0].volume_usdt, Some(300 * SCALE as u128));
    assert_eq!(m1[4].custom.get("updates"), Some(1));
    let m5 = history(&engine, Timeframe::m5);
    assert_eq!(m5.len(), 1);
    assert_eq!(m5[0].custom.get("updates"), Some(6));
    assert_eq!(m5[0].trade_count, 6);
}

#[test]
fn without_a_metric_no_candle_carries_an_extension_value() {
    let mut engine = CandleEngine::new(vec![Timeframe::m15], instrument("USDT"));
    for i in 0..20 {
        feed(&mut engine, vec![trade(DAY + i * 3 * MINUTE / 2, 100, 1)]);
    }
    feed(&mut engine, vec![trade(DAY + MINUTE, 90, 1)]);
    for tf in [Timeframe::m1, Timeframe::m5, Timeframe::m15] {
        let candles = history(&engine, tf);
        assert!(!candles.is_empty());
        assert!(candles.iter().all(|c| c.custom.is_empty()));
    }
}
