use candle_generator::aggregate_trades_chain;
use candle_generator::input_fits;
use candle_generator::aggregate_trades_to_candles;
use candle_generator::CandleGenerator;
use candle_generator::Instrument;
use candle_generator::MarketType;
use candle_generator::Pair;
use candle_generator::Side;
use candle_generator::Timeframe;
use candle_generator::Trade;

fn sample_trade(ts: u64, price: u64, amount: u64) -> Trade {
    Trade {
        instrument: Instrument {
            pair: Pair { base_id: "BTC".to_string(), quote_id: "USDT".to_string() },
            exchange: "binance".to_string(),
            market_type: MarketType::Spot,
        },
        id: format!("{}", ts),
        price,
        amount,
        side: Side::Buy,
        timestamp: ts,
    }
}

#[test]
fn test_aggregate_trades_chain_empty() {
    let trades: Vec<Trade> = vec![];
    let tfs = vec![Timeframe::M1];
    let result = aggregate_trades_chain(&trades, &tfs);
    assert!(result.get(Timeframe::M1).unwrap().is_empty());
}

#[test]
fn test_aggregate_trades_chain_one_trade() {
    let trades = vec![sample_trade(1714000000000, 50000, 1)];
    let tfs = vec![Timeframe::M1];
    let result = aggregate_trades_chain(&trades, &tfs);
    assert_eq!(result.get(Timeframe::M1).unwrap().len(), 1);
}

#[test]
fn test_aggregate_trades_chain_multiple_trades() {
    let trades = vec![
        sample_trade(1714000000000, 50000, 1),
        sample_trade(1714000005000, 50100, 2),
        sample_trade(1714000010000, 50200, 3),
    ];
    let tfs = vec![Timeframe::M1];
    let result = aggregate_trades_chain(&trades, &tfs);
    assert_eq!(result.get(Timeframe::M1).unwrap().len(), 1);
}

#[test]
fn test_aggregate_trades_chain_multiple_timeframes() {
    let trades = vec![
        sample_trade(1714000000000, 50000, 1),
        sample_trade(1714000060000, 50100, 2),
        sample_trade(1714000120000, 50200, 3),
        sample_trade(1714000180000, 50300, 4),
        sample_trade(1714000240000, 50400, 5),
    ];
    let tfs = vec![Timeframe::M1, Timeframe::M5];
    let result = aggregate_trades_chain(&trades, &tfs);
    assert!(result.get(Timeframe::M1).unwrap().len() > 0);
    assert!(result.get(Timeframe::M5).unwrap().len() > 0);
}

#[test]
fn test_single_trade_candles_equal_prices() {
    // Three trades one minute apart each fill their own bucket, so every
    // candle is a one-trade candle whose four prices coincide.
    let trades = vec![
        sample_trade(0, 50000, 1),
        sample_trade(60000, 50100, 2),
        sample_trade(120000, 50200, 3),
    ];
    let generator = CandleGenerator::default();
    let candles = generator.aggregate(&trades, Timeframe::M1);
    assert_eq!(candles.len(), 3);
    for (i, c) in candles.iter().enumerate() {
        let t = &trades[i];
        assert_eq!(c.open, t.price);
        assert_eq!(c.close, t.price);
        assert_eq!(c.high, t.price);
        assert_eq!(c.low, t.price);
        assert_eq!(c.timestamp, t.timestamp);
        assert_eq!(c.volume, t.amount);
        assert_eq!(c.trade_count, 1);
        assert_eq!(c.volume_usdt, Some((t.price as u128) * (t.amount as u128)));
        assert_eq!(c.interval, Timeframe::M1);
    }
}

#[test]
fn test_empty_trades_two_timeframes() {
    // An empty trade sequence yields an empty candle list for every
    // requested timeframe.
    let trades: Vec<Trade> = vec![];
    let tfs = vec![Timeframe::M1, Timeframe::M5];
    let result = aggregate_trades_chain(&trades, &tfs);
    assert_eq!(result.len(), 2);
    assert_eq!(result.get(Timeframe::M1).unwrap().len(), 0);
    assert_eq!(result.get(Timeframe::M5).unwrap().len(), 0);
    assert!(result.get(Timeframe::M15).is_none());
}

#[test]
fn test_base_aggregation_idempotent() {
    let trades = vec![
        sample_trade(0, 50000, 1),
        sample_trade(1000, 50050, 2),
        sample_trade(60000, 50100, 3),
        sample_trade(61000, 49900, 4),
    ];
    let generator = CandleGenerator::default();
    let first = generator.aggregate(&trades, Timeframe::M1);
    let second = generator.aggregate(&trades, Timeframe::M1);
    assert_eq!(first, second);
}

#[test]
fn test_bucket_truncation() {
    // 90 seconds after the epoch falls in the bucket that starts at 60
    // seconds.
    let trades = vec![sample_trade(90000, 50000, 1)];
    let candles = aggregate_trades_to_candles(&trades, Timeframe::M1);
    assert_eq!(candles.len(), 1);
    assert_eq!(candles[0].timestamp, 60000);
    let candles5 = aggregate_trades_to_candles(&trades, Timeframe::M5);
    assert_eq!(candles5[0].timestamp, 0);
}

#[test]
fn test_volume_conservation() {
    let trades = vec![
        sample_trade(0, 50000, 7),
        sample_trade(1000, 50050, 11),
        sample_trade(60000, 50100, 13),
        sample_trade(200000, 49900, 17),
    ];
    let candles = aggregate_trades_to_candles(&trades, Timeframe::M1);
    let total: u64 = candles.iter().map(|c| c.volume).sum();
    let expected: u64 = trades.iter().map(|t| t.amount).sum();
    assert_eq!(total, expected);
    let count: u64 = candles.iter().map(|c| c.trade_count).sum();
    assert_eq!(count, trades.len() as u64);
}

#[test]
fn test_candle_extremes_bound_open_close() {
    // One bucket with falling then rising prices: the extremes must bound
    // both the open and the close.
    let trades = vec![
        sample_trade(0, 50000, 1),
        sample_trade(1000, 49000, 1),
        sample_trade(2000, 51000, 1),
        sample_trade(3000, 50500, 1),
    ];
    let candles = aggregate_trades_to_candles(&trades, Timeframe::M1);
    assert_eq!(candles.len(), 1);
    let c = &candles[0];
    assert_eq!(c.open, 50000);
    assert_eq!(c.close, 50500);
    assert_eq!(c.high, 51000);
    assert_eq!(c.low, 49000);
    assert!(c.low <= c.open.min(c.close));
    assert!(c.high >= c.open.max(c.close));
}

#[test]
fn test_ascending_unique_timestamps() {
    let trades = vec![
        sample_trade(0, 50000, 1),
        sample_trade(59999, 50010, 1),
        sample_trade(60000, 50020, 1),
        sample_trade(180000, 50030, 1),
        sample_trade(180001, 50040, 1),
    ];
    let candles = aggregate_trades_to_candles(&trades, Timeframe::M1);
    assert_eq!(candles.len(), 3);
    for w in candles.windows(2) {
        assert!(w[0].timestamp < w[1].timestamp);
    }
}

#[test]
fn test_non_usdt_quote_has_no_volume_usdt() {
    let mut trade = sample_trade(0, 3000, 5);
    trade.instrument.pair.quote_id = "EUR".to_string();
    let candles = aggregate_trades_to_candles(&vec![trade], Timeframe::M1);
    assert_eq!(candles[0].volume_usdt, None);
}

#[test]
fn test_pipeline_chains_from_previous_level() {
    // Fifteen one-minute candles worth of trades: five m1 make one m5,
    // three m5 make one m15; the m15 level feeds on the m5 level.
    let mut trades = Vec::new();
    for i in 0..15u64 {
        trades.push(sample_trade(i * 60000, 50000 + i, 1));
    }
    let tfs = vec![Timeframe::M1, Timeframe::M5, Timeframe::M15];
    let result = aggregate_trades_chain(&trades, &tfs);
    assert_eq!(result.get(Timeframe::M1).unwrap().len(), 15);
    assert_eq!(result.get(Timeframe::M5).unwrap().len(), 3);
    assert_eq!(result.get(Timeframe::M15).unwrap().len(), 1);
    let m15 = &result.get(Timeframe::M15).unwrap()[0];
    assert_eq!(m15.open, 50000);
    assert_eq!(m15.close, 50014);
    assert_eq!(m15.volume, 15);
    assert_eq!(m15.trade_count, 15);
    // Insertion order follows the request order.
    assert_eq!(result.timeframe_at(0), Timeframe::M1);
    assert_eq!(result.timeframe_at(1), Timeframe::M5);
    assert_eq!(result.timeframe_at(2), Timeframe::M15);
}

#[test]
fn test_input_fits() {
    let small = vec![sample_trade(0, 50000, 1), sample_trade(1000, 50000, 2)];
    assert!(input_fits(&small));
    // Two maximal amounts overflow the volume accumulator.
    let too_big = vec![sample_trade(0, 1, u64::MAX), sample_trade(1000, 1, u64::MAX)];
    assert!(!input_fits(&too_big));
    // Maximal quote volumes overflow the USDT accumulator.
    let too_rich = vec![
        sample_trade(0, u64::MAX, u64::MAX),
        sample_trade(1000, u64::MAX, u64::MAX),
        sample_trade(2000, u64::MAX, u64::MAX),
    ];
    assert!(!input_fits(&too_rich));
    // The same trades in a non-USDT quote overflow the volume sum anyway.
    let empty: Vec<Trade> = vec![];
    assert!(input_fits(&empty));
}
