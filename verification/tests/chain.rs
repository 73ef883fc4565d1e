use candle_generator::aggregate_chain;
use candle_generator::aggregate_from_lower;
use candle_generator::Candle;
use candle_generator::Instrument;
use candle_generator::MarketType;
use candle_generator::Pair;
use candle_generator::Timeframe;

fn sample_candle(ts: u64, open: u64) -> Candle {
    Candle {
        instrument: Instrument {
            pair: Pair { base_id: "BTC".to_string(), quote_id: "USDT".to_string() },
            exchange: "binance".to_string(),
            market_type: MarketType::Spot,
        },
        interval: Timeframe::M1,
        timestamp: ts,
        open,
        high: open,
        low: open,
        close: open,
        volume: 1,
        trade_count: 1,
        volume_usdt: Some(open as u128),
        custom: Vec::new(),
    }
}

#[test]
fn test_aggregate_chain_empty() {
    let candles: Vec<Candle> = vec![];
    let tfs = vec![Timeframe::M1];
    let result = aggregate_chain(&candles, &tfs);
    assert!(result.get(Timeframe::M1).unwrap().is_empty());
}

#[test]
fn test_aggregate_chain_one_candle() {
    let candles = vec![sample_candle(1714000000000, 50000)];
    let tfs = vec![Timeframe::M1];
    let result = aggregate_chain(&candles, &tfs);
    assert_eq!(result.get(Timeframe::M1).unwrap().len(), 1);
}

#[test]
fn test_aggregate_chain_multiple_candles() {
    let candles = vec![
        sample_candle(1714000000000, 50000),
        sample_candle(1714000060000, 50100),
        sample_candle(1714000120000, 50200),
    ];
    let tfs = vec![Timeframe::M1];
    let result = aggregate_chain(&candles, &tfs);
    assert_eq!(result.get(Timeframe::M1).unwrap().len(), 3);
}

#[test]
fn test_aggregate_chain_multiple_timeframes() {
    let candles = vec![
        sample_candle(1714000000000, 50000),
        sample_candle(1714000060000, 50100),
        sample_candle(1714000120000, 50200),
        sample_candle(1714000180000, 50300),
        sample_candle(1714000240000, 50400),
    ];
    let tfs = vec![Timeframe::M1, Timeframe::M5];
    let result = aggregate_chain(&candles, &tfs);
    assert!(result.get(Timeframe::M1).unwrap().len() > 0);
    assert!(result.get(Timeframe::M5).unwrap().len() > 0);
}

#[test]
fn test_five_m1_make_one_m5() {
    let candles: Vec<Candle> = (0..5u64).map(|i| sample_candle(i * 60000, 50000 + i)).collect();
    let derived = aggregate_from_lower(&candles, Timeframe::M5);
    assert_eq!(derived.len(), 1);
    let c = &derived[0];
    assert_eq!(c.open, candles[0].open);
    assert_eq!(c.close, candles[4].close);
    assert_eq!(c.volume, 5);
    assert_eq!(c.trade_count, 5);
    assert_eq!(c.timestamp, candles[0].timestamp);
    assert_eq!(c.interval, Timeframe::M5);
    assert_eq!(c.high, 50004);
    assert_eq!(c.low, 50000);
}

#[test]
fn test_seven_m1_make_one_m5_trailing_dropped() {
    let candles: Vec<Candle> = (0..7u64).map(|i| sample_candle(i * 60000, 50000 + i)).collect();
    let derived = aggregate_from_lower(&candles, Timeframe::M5);
    assert_eq!(derived.len(), 1);
    // Only the first five candles are consumed; the trailing two are
    // discarded, never emitted as a partial candle.
    assert_eq!(derived[0].close, 50004);
    assert_eq!(derived[0].volume, 5);
}

#[test]
fn test_chain_length_is_floor_division() {
    for n in 0..13usize {
        let candles: Vec<Candle> =
            (0..n as u64).map(|i| sample_candle(i * 60000, 50000)).collect();
        let derived = aggregate_from_lower(&candles, Timeframe::M5);
        assert_eq!(derived.len(), n / 5);
    }
}

#[test]
fn test_derived_usdt_absent_when_any_member_lacks_it() {
    let mut candles: Vec<Candle> =
        (0..5u64).map(|i| sample_candle(i * 60000, 50000 + i)).collect();
    candles[2].volume_usdt = None;
    let derived = aggregate_from_lower(&candles, Timeframe::M5);
    assert_eq!(derived.len(), 1);
    assert_eq!(derived[0].volume_usdt, None);
}

#[test]
fn test_derived_usdt_sums_when_all_members_have_it() {
    let candles: Vec<Candle> =
        (0..5u64).map(|i| sample_candle(i * 60000, 50000 + i)).collect();
    let derived = aggregate_from_lower(&candles, Timeframe::M5);
    let expected: u128 = (0..5u64).map(|i| (50000 + i) as u128).sum();
    assert_eq!(derived[0].volume_usdt, Some(expected));
}

#[test]
fn test_chain_extremes_span_group() {
    let mut candles: Vec<Candle> =
        (0..5u64).map(|i| sample_candle(i * 60000, 50000)).collect();
    candles[1].high = 51000;
    candles[3].low = 49000;
    let derived = aggregate_from_lower(&candles, Timeframe::M5);
    assert_eq!(derived[0].high, 51000);
    assert_eq!(derived[0].low, 49000);
}

#[test]
fn test_chain_to_m1_regroups_singly() {
    // The finest timeframe has a source count of one: chaining to it copies
    // each candle into its own group.
    let candles: Vec<Candle> = (0..3u64).map(|i| sample_candle(i * 60000, 50000 + i)).collect();
    let derived = aggregate_from_lower(&candles, Timeframe::M1);
    assert_eq!(derived.len(), 3);
    assert_eq!(derived[1].open, 50001);
}

#[test]
fn test_chain_timestamp_not_realigned() {
    // Known characteristic: a derived candle keeps the first group member's
    // timestamp and is not re-truncated to the coarser timeframe's own
    // boundary. A lower series starting off-boundary therefore yields an
    // off-boundary higher-timeframe timestamp.
    let candles: Vec<Candle> =
        (1..6u64).map(|i| sample_candle(i * 60000, 50000)).collect();
    let derived = aggregate_from_lower(&candles, Timeframe::M5);
    assert_eq!(derived.len(), 1);
    assert_eq!(derived[0].timestamp, 60000);
}
