use candle_generator::{
    add, Candle, CandleConfig, CandleEngine, CandleGenerator, CandleMetric, Instrument,
    MarketType, Pair, RateSource, Side, Timeframe, Trade, UsdtVolumeSource,
};
use rand::seq::SliceRandom;

/// A decimal number in the library's fixed-point form.
fn fx(value: f64) -> u64 {
    (value * 100_000_000.0).round() as u64
}

fn sample_instrument() -> Instrument {
    Instrument {
        pair: Pair { base_id: "BTC".to_string(), quote_id: "USDT".to_string() },
        exchange: "binance".to_string(),
        market_type: MarketType::Spot,
    }
}

fn unstable_instrument() -> Instrument {
    Instrument {
        pair: Pair { base_id: "ETH".to_string(), quote_id: "BTC".to_string() },
        exchange: "binance".to_string(),
        market_type: MarketType::Spot,
    }
}

fn sample_trade(ts: i64, price: f64, amount: f64, side: Side) -> Trade {
    Trade {
        instrument: sample_instrument(),
        id: format!("{}", ts),
        price: fx(price),
        amount: fx(amount),
        side,
        timestamp: ts,
    }
}

fn unstable_trade(ts: i64, price: f64, amount: f64, side: Side) -> Trade {
    Trade { instrument: unstable_instrument(), ..sample_trade(ts, price, amount, side) }
}

#[test]
fn it_works() {
    let result = add(2, 2);
    assert_eq!(result, 4);
}

#[test]
fn test_create_generator() {
    let instrument = sample_instrument();
    let gen = CandleEngine::new(vec![Timeframe::m1, Timeframe::m5], instrument.clone());
    assert_eq!(*gen.instrument(), instrument);
    assert!(gen.tracks(&Timeframe::m1));
    assert!(gen.tracks(&Timeframe::m5));
}

#[test]
fn test_add_and_reset() {
    let instrument = sample_instrument();
    let mut gen = CandleEngine::new(vec![Timeframe::m1], instrument);
    let trade = sample_trade(1_700_000_000_000, 42000.0, 0.1, Side::Buy);
    assert!(gen.accepts(&trade));
    gen.add_trade(trade);
    assert_eq!(gen.get_candles(Timeframe::m1, 10).len(), 1);
    gen.reset();
    assert_eq!(gen.get_candles(Timeframe::m1, 10).len(), 0);
}

#[test]
fn test_basic_ohlcv_aggregation() {
    let trades = vec![
        sample_trade(1_700_000_000_000, 42000.0, 0.1, Side::Buy),
        sample_trade(1_700_000_000_000 + 10_000, 42100.0, 0.2, Side::Sell),
    ];
    let gen = CandleGenerator::default();
    let candles = gen.aggregate(&trades, Timeframe::m1);
    assert_eq!(candles.len(), 1);
    let c = &candles[0];
    assert_eq!(c.open, fx(42000.0));
    assert_eq!(c.high, fx(42100.0));
    assert_eq!(c.low, fx(42000.0));
    assert_eq!(c.close, fx(42100.0));
    assert_eq!(c.volume, fx(0.3) as u128);
    assert_eq!(c.trade_count, 2);
}

#[test]
fn test_aggregation_chain() {
    let t0 = 1_700_000_000_000;
    let trades: Vec<_> = (0..10)
        .map(|i| sample_trade(t0 + i * 60_000, 100.0 + i as f64, 1.0, Side::Buy))
        .collect();
    let gen = CandleGenerator::default();
    let chain = gen.aggregate_chain(&trades);
    assert_eq!(chain.get(&Timeframe::m1).unwrap().len(), 10);
    assert_eq!(chain.get(&Timeframe::m5).unwrap().len(), 2);
    assert_eq!(chain.get(&Timeframe::m15).unwrap().len(), 0);
}

#[test]
fn test_usdt_volume_fixed() {
    let mut config = CandleConfig::default();
    config.volume_in_usdt = UsdtVolumeSource::Fixed(fx(2.0));
    let gen = CandleGenerator { config };
    let trades = vec![unstable_trade(1_700_000_000_000, 100.0, 1.0, Side::Buy)];
    let candles = gen.aggregate(&trades, Timeframe::m1);
    assert_eq!(candles[0].volume_usdt, Some(fx(200.0) as u128));
}

struct TenTimes;

impl RateSource for TenTimes {
    fn rate(&self, _pair: &Pair, _timestamp: i64) -> Option<u64> {
        Some(fx(10.0))
    }
}

#[test]
fn test_usdt_volume_callback() {
    let mut config = CandleConfig::default();
    config.volume_in_usdt = UsdtVolumeSource::Callback(Box::new(TenTimes));
    let gen = CandleGenerator { config };
    let trades = vec![unstable_trade(1_700_000_000_000, 5.0, 2.0, Side::Buy)];
    let candles = gen.aggregate(&trades, Timeframe::m1);
    assert_eq!(candles[0].volume_usdt, Some(fx(100.0) as u128));
}

#[test]
fn test_usdt_volume_none() {
    let mut config = CandleConfig::default();
    config.volume_in_usdt = UsdtVolumeSource::Disabled;
    let gen = CandleGenerator { config };
    let trades = vec![unstable_trade(1_700_000_000_000, 5.0, 2.0, Side::Buy)];
    let candles = gen.aggregate(&trades, Timeframe::m1);
    assert_eq!(candles[0].volume_usdt, None);
}

struct BuySellVolume;

impl CandleMetric for BuySellVolume {
    fn update(&self, trade: &Trade, candle: &mut Candle) {
        let mut buy = candle.custom.get("buy_volume").unwrap_or(0);
        let mut sell = candle.custom.get("sell_volume").unwrap_or(0);
        match trade.side {
            Side::Buy => buy += trade.amount as i128,
            Side::Sell => sell += trade.amount as i128,
            _ => {}
        }
        candle.custom.insert("buy_volume".to_string(), buy);
        candle.custom.insert("sell_volume".to_string(), sell);
    }

    fn aggregate(&self, _src: &[Candle], _dst: &mut Candle) {}
}

#[test]
fn test_buy_sell_volume_metric() {
    let mut config = CandleConfig::default();
    config.custom_metrics.push(Box::new(BuySellVolume));
    let gen = CandleGenerator { config };
    let trades = vec![
        sample_trade(1_700_000_000_000, 100.0, 1.0, Side::Buy),
        sample_trade(1_700_000_000_000 + 10_000, 101.0, 2.0, Side::Sell),
    ];
    let candles = gen.aggregate(&trades, Timeframe::m1);
    let c = &candles[0];
    assert_eq!(c.custom.get("buy_volume").unwrap(), fx(1.0) as i128);
    assert_eq!(c.custom.get("sell_volume").unwrap(), fx(2.0) as i128);
}

#[test]
fn test_gaps_and_empty_candles() {
    let t0 = 1_700_000_000_000;
    let t5 = t0 + 5 * 60_000;
    let trades = vec![
        sample_trade(t0, 100.0, 1.0, Side::Buy),
        sample_trade(t5, 110.0, 2.0, Side::Sell),
    ];
    let gen = CandleGenerator::default();
    let m1 = gen.aggregate(&trades, Timeframe::m1);
    assert_eq!(m1.len(), 2);
    assert_eq!(m1[0].open, fx(100.0));
    assert_eq!(m1[1].open, fx(110.0));
}

#[test]
fn test_bulk_ingestion_sorted() {
    let t0 = 1_700_000_000_000;
    let trades: Vec<_> = (0..1000)
        .map(|i| sample_trade(t0 + i * 60_000, 100.0 + (i % 10) as f64, 1.0, Side::Buy))
        .collect();
    let gen = CandleGenerator::default();
    let m1 = gen.aggregate(&trades, Timeframe::m1);
    assert_eq!(m1.len(), 1000);
}

struct VWAPMetric;

impl CandleMetric for VWAPMetric {
    fn update(&self, trade: &Trade, candle: &mut Candle) {
        let vwap = candle.custom.get("vwap").unwrap_or(0);
        let total_volume = candle.volume as i128;
        let amount = trade.amount as i128;
        let price = trade.price as i128;
        let new_vwap = if total_volume > 0 {
            (vwap * (total_volume - amount) + price * amount) / total_volume
        } else {
            price
        };
        candle.custom.insert("vwap".to_string(), new_vwap);
    }

    fn aggregate(&self, _src: &[Candle], _dst: &mut Candle) {}
}

#[test]
fn test_custom_vwap_metric() {
    let mut config = CandleConfig::default();
    config.custom_metrics.push(Box::new(VWAPMetric));
    let gen = CandleGenerator { config };
    let trades = vec![
        sample_trade(1_700_000_000_000, 100.0, 1.0, Side::Buy),
        sample_trade(1_700_000_000_000 + 10_000, 110.0, 2.0, Side::Buy),
    ];
    let candles = gen.aggregate(&trades, Timeframe::m1);
    let c = &candles[0];
    let vwap = c.custom.get("vwap").unwrap() as f64 / 100_000_000.0;
    assert!((vwap - 106.6666).abs() < 0.01);
}

#[test]
fn test_out_of_order_trades() {
    let t0 = 1_700_000_000_000;
    let trades = vec![
        sample_trade(t0, 100.0, 1.0, Side::Buy),
        sample_trade(t0 + 60_000, 110.0, 2.0, Side::Sell),
        sample_trade(t0 + 10_000, 120.0, 0.5, Side::Buy),
    ];
    let mut engine = CandleEngine::new(vec![Timeframe::m1], sample_instrument());
    for trade in trades {
        assert!(engine.accepts(&trade));
        engine.add_trade(trade);
    }
    let mut candles = engine.get_candles(Timeframe::m1, 10);
    candles.sort_by_key(|c| c.timestamp);
    assert_eq!(candles.len(), 2);
    let c0 = &candles[0];
    assert_eq!(c0.high, fx(120.0));
    assert_eq!(c0.volume, fx(1.5) as u128);
}

#[test]
fn test_bulk_ingestion_unsorted() {
    let t0 = 1_700_000_000_000;
    let mut trades: Vec<_> = (0..1000)
        .map(|i| sample_trade(t0 + i * 60_000, 100.0 + (i % 10) as f64, 1.0, Side::Buy))
        .collect();
    let mut rng = rand::thread_rng();
    trades.shuffle(&mut rng);
    let gen = CandleGenerator::default();
    let mut m1_unsorted = gen.aggregate(&trades, Timeframe::m1);
    let trades_sorted: Vec<_> = trades.iter().cloned().collect();
    let mut m1_sorted = gen.aggregate(&trades_sorted, Timeframe::m1);
    m1_unsorted.sort_by_key(|c| c.timestamp);
    m1_sorted.sort_by_key(|c| c.timestamp);
    assert_eq!(m1_unsorted, m1_sorted);
}

#[test]
fn usdt_quote_takes_rate_one_under_a_fixed_rate() {
    let mut config = CandleConfig::default();
    config.volume_in_usdt = UsdtVolumeSource::Fixed(fx(2.0));
    let gen = CandleGenerator { config };
    let trades = vec![sample_trade(1_700_000_000_000, 100.0, 1.0, Side::Buy)];
    let candles = gen.aggregate(&trades, Timeframe::m1);
    assert_eq!(candles[0].volume_usdt, Some(fx(100.0) as u128));
}

#[test]
fn usdt_quote_takes_rate_one_under_a_callback() {
    let mut config = CandleConfig::default();
    config.volume_in_usdt = UsdtVolumeSource::Callback(Box::new(TenTimes));
    let gen = CandleGenerator { config };
    let trades = vec![sample_trade(1_700_000_000_000, 5.0, 2.0, Side::Buy)];
    let candles = gen.aggregate(&trades, Timeframe::m1);
    assert_eq!(candles[0].volume_usdt, Some(fx(10.0) as u128));
}

#[test]
fn usdt_quote_takes_rate_one_without_a_source() {
    let mut config = CandleConfig::default();
    config.volume_in_usdt = UsdtVolumeSource::Disabled;
    let gen = CandleGenerator { config };
    let trades = vec![sample_trade(1_700_000_000_000, 5.0, 2.0, Side::Buy)];
    let candles = gen.aggregate(&trades, Timeframe::m1);
    assert_eq!(candles[0].volume_usdt, Some(fx(10.0) as u128));
}

#[test]
fn out_of_order_trades_in_the_batch_folder_open_a_third_candle() {
    let t0 = 1_700_000_000_000;
    let trades = vec![
        sample_trade(t0, 100.0, 1.0, Side::Buy),
        sample_trade(t0 + 60_000, 110.0, 2.0, Side::Sell),
        sample_trade(t0 + 10_000, 120.0, 0.5, Side::Buy),
    ];
    let gen = CandleGenerator::default();
    let mut candles = gen.aggregate(&trades, Timeframe::m1);
    candles.sort_by_key(|c| c.timestamp);
    assert_eq!(candles.len(), 3);
    assert_eq!(candles[0].high, fx(100.0));
    assert_eq!(candles[0].volume, fx(1.0) as u128);
    assert_eq!(candles[1].high, fx(120.0));
    assert_eq!(candles[1].volume, fx(0.5) as u128);
}

#[test]
fn a_metric_of_the_second_folder_runs_on_every_trade() {
    let mut config = CandleConfig::default();
    config.volume_in_usdt = UsdtVolumeSource::Fixed(fx(2.0));
    config.custom_metrics.push(Box::new(BuySellVolume));
    let folder = candle_generator::CandleAggregator { config };
    let trades = vec![
        unstable_trade(1_700_000_000_000, 100.0, 1.0, Side::Buy),
        unstable_trade(1_700_000_000_000 + 10_000, 101.0, 2.0, Side::Sell),
    ];
    let candles = folder.aggregate(&trades, Timeframe::m1);
    assert_eq!(candles.len(), 1);
    assert_eq!(candles[0].volume_usdt, Some(fx(200.0 + 404.0) as u128));
    assert_eq!(candles[0].custom.get("buy_volume").unwrap(), fx(1.0) as i128);
    assert_eq!(candles[0].custom.get("sell_volume").unwrap(), fx(2.0) as i128);
}
