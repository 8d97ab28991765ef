use candle_generator::engine::timeframe_of;
use candle_generator::text::str_eq;
use candle_generator::{
    base_interval, parse_intervals, parse_side, CsvTrade, CustomMetrics, MarketType, ProcessingStats, Side,
    Timeframe,
};

fn every_interval() -> Vec<Timeframe> {
    vec![
        Timeframe::m1,
        Timeframe::m5,
        Timeframe::m15,
        Timeframe::m30,
        Timeframe::h1,
        Timeframe::h4,
        Timeframe::d1,
    ]
}

#[test]
fn all_names_every_interval() {
    assert_eq!(parse_intervals("ALL"), every_interval());
    assert_eq!(parse_intervals("all"), every_interval());
    assert_eq!(parse_intervals("aLl"), every_interval());
}

#[test]
fn lists_keep_their_order() {
    assert_eq!(parse_intervals("1"), vec![Timeframe::m1]);
    assert_eq!(
        parse_intervals("1,5,15,30,60,240,1440"),
        every_interval()
    );
    assert_eq!(parse_intervals("1440,1"), vec![Timeframe::d1, Timeframe::m1]);
    assert_eq!(parse_intervals("5,5"), vec![Timeframe::m5, Timeframe::m5]);
}

#[test]
fn spaces_around_a_piece_are_set_aside() {
    assert_eq!(parse_intervals(" 1 , 5\t,\n15 "), vec![
        Timeframe::m1,
        Timeframe::m5,
        Timeframe::m15
    ]);
}

#[test]
fn what_names_no_interval_is_passed_over() {
    assert_eq!(parse_intervals(""), Vec::<Timeframe>::new());
    assert_eq!(parse_intervals(","), Vec::<Timeframe>::new());
    assert_eq!(parse_intervals("2,x,1 5,01,60m, ALL"), Vec::<Timeframe>::new());
    assert_eq!(parse_intervals("7,30,,240,"), vec![Timeframe::m30, Timeframe::h4]);
    assert_eq!(parse_intervals("ALL,1"), vec![Timeframe::m1]);
}

#[test]
fn side_tokens() {
    assert_eq!(parse_side("buy"), Side::Buy);
    assert_eq!(parse_side("BUY"), Side::Buy);
    assert_eq!(parse_side("Buy"), Side::Buy);
    assert_eq!(parse_side("sell"), Side::Sell);
    assert_eq!(parse_side("SeLL"), Side::Sell);
    assert_eq!(parse_side(""), Side::Unknown);
    assert_eq!(parse_side("buy "), Side::Unknown);
    assert_eq!(parse_side("bid"), Side::Unknown);
    assert_eq!(parse_side("sells"), Side::Unknown);
}

fn row(timestamp: i64, side: &str) -> CsvTrade {
    CsvTrade {
        timestamp,
        price: 4_200_000_000_000,
        amount: 10_000_000,
        side: side.to_string(),
        base: "BTC".to_string(),
        quote: "USDT".to_string(),
        exchange: String::new(),
    }
}

#[test]
fn a_row_becomes_a_spot_trade() {
    let trade = row(1_700_000_000_000, "Sell").to_trade();
    assert_eq!(trade.id, "1700000000000");
    assert_eq!(trade.timestamp, 1_700_000_000_000);
    assert_eq!(trade.price, 4_200_000_000_000);
    assert_eq!(trade.amount, 10_000_000);
    assert_eq!(trade.side, Side::Sell);
    assert_eq!(trade.instrument.pair.base_id, "BTC");
    assert_eq!(trade.instrument.pair.quote_id, "USDT");
    assert_eq!(trade.instrument.exchange, "");
    assert_eq!(trade.instrument.market_type, MarketType::Spot);
    assert!(trade.is_valid());
}

#[test]
fn a_row_id_is_the_timestamp_in_decimal() {
    assert_eq!(row(0, "buy").to_trade().id, "0");
    assert_eq!(row(7, "buy").to_trade().id, "7");
    assert_eq!(row(-15, "buy").to_trade().id, "-15");
    assert_eq!(row(i64::MAX, "buy").to_trade().id, "9223372036854775807");
}

#[test]
fn a_row_out_of_range_gives_a_trade_that_is_not_valid() {
    assert!(!row(i64::MAX, "buy").to_trade().is_valid());
    let mut free = row(1, "buy");
    free.price = 0;
    assert!(!free.to_trade().is_valid());
    let mut empty = row(1, "buy");
    empty.amount = 0;
    assert!(!empty.to_trade().is_valid());
}

#[test]
fn strings_compare_by_their_characters() {
    assert!(str_eq("", ""));
    assert!(str_eq("USDT", "USDT"));
    assert!(!str_eq("USDT", "USDC"));
    assert!(!str_eq("USDT", "USD"));
    assert!(!str_eq("é", "e"));
    assert!(str_eq("объём", "объём"));
}

#[test]
fn custom_metrics_hold_one_value_per_name() {
    let mut custom = CustomMetrics::new();
    assert!(custom.is_empty());
    assert_eq!(custom.get("vwap"), None);
    assert_eq!(custom.insert("vwap".to_string(), 5), None);
    assert_eq!(custom.insert("delta".to_string(), -3), None);
    assert!(!custom.is_empty());
    assert!(custom.contains_key("vwap"));
    assert!(!custom.contains_key("VWAP"));
    assert_eq!(custom.get("vwap"), Some(5));
    assert_eq!(custom.insert("vwap".to_string(), 9), Some(5));
    assert_eq!(custom.get("vwap"), Some(9));
    assert_eq!(custom.get("delta"), Some(-3));
    let copy = custom.clone();
    assert_eq!(copy, custom);
}

#[test]
fn stats_count_candles_by_interval() {
    let mut stats = ProcessingStats::new();
    assert_eq!(stats.total_files, 0);
    assert_eq!(stats.total_trades, 0);
    assert!(stats.total_candles.is_empty());
    assert_eq!(stats.processing_time, 0);
    stats.add_candles(1, 10);
    stats.add_candles(5, 2);
    stats.add_candles(1, 7);
    assert_eq!(stats.total_candles.get(&1), Some(&17));
    assert_eq!(stats.total_candles.get(&5), Some(&2));
    assert_eq!(stats.total_candles.len(), 2);
    let fresh = ProcessingStats::default();
    assert!(fresh.total_candles.is_empty());
}

#[test]
fn custom_metrics_list_their_names() {
    let mut custom = CustomMetrics::new();
    assert!(custom.names().is_empty());
    custom.insert("a".to_string(), 1);
    custom.insert("b".to_string(), 2);
    custom.insert("a".to_string(), 3);
    let mut names = custom.names();
    names.sort();
    assert_eq!(names, vec!["a".to_string(), "b".to_string()]);
}

#[test]
fn intervals_by_rank() {
    assert_eq!(timeframe_of(0), Timeframe::m1);
    assert_eq!(timeframe_of(3), Timeframe::m30);
    assert_eq!(timeframe_of(6), Timeframe::d1);
    for rank in 0..7 {
        assert_eq!(timeframe_of(rank).index(), rank);
    }
}

#[test]
fn unicode_white_space_around_a_piece_is_set_aside() {
    assert_eq!(parse_intervals("1,\u{a0}5"), vec![Timeframe::m1, Timeframe::m5]);
    assert_eq!(parse_intervals("\u{2003}15\u{3000},\u{85}30\u{2028}"), vec![
        Timeframe::m15,
        Timeframe::m30
    ]);
    assert_eq!(parse_intervals("\u{1680}60\u{205f}"), vec![Timeframe::h1]);
    assert_eq!(parse_intervals("\u{200b}5"), Vec::<Timeframe>::new());
    assert_eq!(parse_intervals("1\u{a0}5"), Vec::<Timeframe>::new());
    assert_eq!(parse_intervals("\u{a0}ALL"), Vec::<Timeframe>::new());
    assert_eq!(parse_intervals("５"), Vec::<Timeframe>::new());
}

#[test]
fn side_tokens_are_not_trimmed_or_transliterated() {
    assert_eq!(parse_side("\u{a0}buy"), Side::Unknown);
    assert_eq!(parse_side("bu\u{fd}"), Side::Unknown);
    assert_eq!(parse_side("ѕell"), Side::Unknown);
}

#[test]
fn the_base_interval_is_the_shortest_asked_for() {
    assert_eq!(base_interval(&[]), Timeframe::m1);
    assert_eq!(base_interval(&[Timeframe::h1]), Timeframe::h1);
    assert_eq!(base_interval(&[Timeframe::h1, Timeframe::m5, Timeframe::d1]), Timeframe::m5);
    assert_eq!(base_interval(&[Timeframe::d1, Timeframe::d1]), Timeframe::d1);
    assert_eq!(base_interval(&parse_intervals("ALL")), Timeframe::m1);
}

#[test]
fn custom_metrics_are_equal_whatever_the_order_of_writing() {
    let mut one = CustomMetrics::new();
    one.insert("a".to_string(), 1);
    one.insert("b".to_string(), 2);
    let mut other = CustomMetrics::new();
    other.insert("b".to_string(), 7);
    other.insert("a".to_string(), 1);
    assert_ne!(one, other);
    other.insert("b".to_string(), 2);
    assert_eq!(one, other);
    other.insert("c".to_string(), 0);
    assert_ne!(one, other);
    assert_ne!(other, one);
    assert_eq!(CustomMetrics::new(), CustomMetrics::new());
    assert_ne!(one, CustomMetrics::new());
}
