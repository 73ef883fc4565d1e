use candle_generator::formats::clickhouse::read_trades_from_clickhouse;
use candle_generator::formats::csv::parse_scaled;
use candle_generator::formats::csv::parse_u64;
use candle_generator::formats::csv::CsvTrade;
use candle_generator::formats::csv::TradeParseError;
use candle_generator::formats::duckdb::read_trades_from_duckdb;
use candle_generator::formats::parquet::read_trades_from_parquet;
use candle_generator::model::side_from_text;
use candle_generator::parse_intervals;
use candle_generator::MarketType;
use candle_generator::Side;
use candle_generator::Timeframe;
use candle_generator::Trade;

fn row_to_csv_trade(record: &csv::StringRecord) -> Result<CsvTrade, TradeParseError> {
    CsvTrade::from_fields(
        record.get(0).unwrap_or(""),
        record.get(1).unwrap_or(""),
        record.get(2).unwrap_or(""),
        record.get(3).unwrap_or(""),
        record.get(4).unwrap_or(""),
        record.get(5).unwrap_or(""),
        record.get(6).unwrap_or(""),
        0,
        1,
    )
}

#[test]
fn test_csv_trade_parsing() {
    let data = "timestamp,price,amount,side,base,quote,exchange\n\
                1714000000000,50000.0,0.1,buy,BTC,USDT,binance\n";
    let mut rdr = csv::ReaderBuilder::new().has_headers(true).from_reader(data.as_bytes());
    let mut trades: Vec<Trade> = Vec::new();
    for result in rdr.records() {
        let record = result.unwrap();
        let csv_trade = row_to_csv_trade(&record).unwrap();
        trades.push(csv_trade.to_trade());
    }
    assert_eq!(trades.len(), 1);
    assert_eq!(trades[0].price, 50000);
    assert_eq!(trades[0].amount, 1);
    assert_eq!(trades[0].instrument.pair.base_id, "BTC");
    assert_eq!(trades[0].side, Side::Buy);
    assert_eq!(trades[0].id, "1714000000000");
    assert_eq!(trades[0].timestamp, 1714000000000);
    assert_eq!(trades[0].instrument.market_type, MarketType::Spot);
}

#[test]
fn test_csv_empty() {
    let data = "timestamp,price,amount,side,base,quote,exchange\n";
    let mut rdr = csv::ReaderBuilder::new().has_headers(true).from_reader(data.as_bytes());
    let mut trades: Vec<Trade> = Vec::new();
    for result in rdr.records() {
        assert!(result.is_ok());
        let record = result.unwrap();
        if let Ok(csv_trade) = row_to_csv_trade(&record) {
            trades.push(csv_trade.to_trade());
        }
    }
    assert_eq!(trades.len(), 0);
}

#[test]
fn test_csv_incorrect_data() {
    let data = "timestamp,price,amount,side,base,quote,exchange\n\
                not_a_timestamp,not_a_price,not_an_amount,side,BTC,USDT,binance\n";
    let mut rdr = csv::ReaderBuilder::new().has_headers(true).from_reader(data.as_bytes());
    let mut errors = 0;
    for result in rdr.records() {
        let record = result.unwrap();
        if row_to_csv_trade(&record).is_err() {
            errors += 1;
        }
    }
    assert_eq!(errors, 1);
}

#[test]
fn test_csv_multiple_symbols() {
    let data = "timestamp,price,amount,side,base,quote,exchange\n\
                1714000000000,50000.0,0.1,buy,BTC,USDT,binance\n\
                1714000001000,3000.0,0.5,sell,ETH,USDT,binance\n";
    let mut rdr = csv::ReaderBuilder::new().has_headers(true).from_reader(data.as_bytes());
    let mut trades: Vec<Trade> = Vec::new();
    for result in rdr.records() {
        let record = result.unwrap();
        let csv_trade = row_to_csv_trade(&record).unwrap();
        trades.push(csv_trade.to_trade());
    }
    assert_eq!(trades.len(), 2);
    assert_eq!(trades[0].instrument.pair.base_id, "BTC");
    assert_eq!(trades[1].instrument.pair.base_id, "ETH");
    assert_eq!(trades[1].side, Side::Sell);
}

#[test]
fn test_parse_intervals() {
    let tfs = parse_intervals("1,5,15");
    assert_eq!(tfs.len(), 3);
    let tfs_all = parse_intervals("ALL");
    assert!(tfs_all.len() > 3);
}

#[test]
fn test_parse_intervals_details() {
    assert_eq!(parse_intervals("1,5,15"), vec![Timeframe::M1, Timeframe::M5, Timeframe::M15]);
    assert_eq!(
        parse_intervals("all"),
        vec![
            Timeframe::M1,
            Timeframe::M5,
            Timeframe::M15,
            Timeframe::M30,
            Timeframe::H1,
            Timeframe::H4,
            Timeframe::D1,
        ],
    );
    assert_eq!(parse_intervals(" 60 , 240 "), vec![Timeframe::H1, Timeframe::H4]);
    assert_eq!(parse_intervals("2,abc"), Vec::<Timeframe>::new());
    assert_eq!(parse_intervals(""), Vec::<Timeframe>::new());
    assert_eq!(parse_intervals("1440"), vec![Timeframe::D1]);
}

#[test]
fn test_parse_u64_values() {
    assert_eq!(parse_u64("1714000000000"), Some(1714000000000));
    assert_eq!(parse_u64("+123"), Some(123));
    assert_eq!(parse_u64("0"), Some(0));
    assert_eq!(parse_u64(""), None);
    assert_eq!(parse_u64("-5"), None);
    assert_eq!(parse_u64("12.5"), None);
    assert_eq!(parse_u64("abc"), None);
    assert_eq!(parse_u64("18446744073709551615"), Some(u64::MAX));
    assert_eq!(parse_u64("18446744073709551616"), None);
}

#[test]
fn test_parse_scaled_values() {
    assert_eq!(parse_scaled("50000.0", 8), Some(5_000_000_000_000));
    assert_eq!(parse_scaled("0.1", 8), Some(10_000_000));
    assert_eq!(parse_scaled("0.123456789", 8), Some(12_345_678));
    assert_eq!(parse_scaled("42", 2), Some(4200));
    assert_eq!(parse_scaled(".5", 1), Some(5));
    assert_eq!(parse_scaled("5.", 1), Some(50));
    assert_eq!(parse_scaled(".", 1), None);
    assert_eq!(parse_scaled("", 1), None);
    assert_eq!(parse_scaled("1.2.3", 1), None);
    assert_eq!(parse_scaled("1e5", 0), None);
}

#[test]
fn test_from_fields_error_variants() {
    let ok = CsvTrade::from_fields("1000", "2.5", "0.5", "buy", "BTC", "USDT", "x", 1, 1);
    assert!(ok.is_ok());
    let t = ok.unwrap();
    assert_eq!(t.price, 25);
    assert_eq!(t.amount, 5);
    let bad_ts = CsvTrade::from_fields("oops", "2.5", "0.5", "buy", "BTC", "USDT", "x", 1, 1);
    assert_eq!(bad_ts.unwrap_err(), TradeParseError::BadTimestamp);
    let bad_price = CsvTrade::from_fields("1000", "oops", "0.5", "buy", "BTC", "USDT", "x", 1, 1);
    assert_eq!(bad_price.unwrap_err(), TradeParseError::BadPrice);
    let bad_amount = CsvTrade::from_fields("1000", "2.5", "oops", "buy", "BTC", "USDT", "x", 1, 1);
    assert_eq!(bad_amount.unwrap_err(), TradeParseError::BadAmount);
}

#[test]
fn test_side_parsing() {
    assert_eq!(side_from_text("buy"), Side::Buy);
    assert_eq!(side_from_text("BUY"), Side::Buy);
    assert_eq!(side_from_text("Sell"), Side::Sell);
    assert_eq!(side_from_text("hold"), Side::Unknown);
    assert_eq!(Side::from_name("Buy"), Side::Buy);
    assert_eq!(Side::from_name("buy"), Side::Unknown);
    assert_eq!(Side::from_name("Sell"), Side::Sell);
    assert_eq!(MarketType::from_name("Spot"), MarketType::Spot);
    assert_eq!(MarketType::from_name("Futures"), MarketType::Futures);
    assert_eq!(MarketType::from_name("Margin"), MarketType::Margin);
    assert_eq!(MarketType::from_name("spot"), MarketType::Unknown);
}

#[test]
fn test_connector_stubs_yield_nothing() {
    assert_eq!(read_trades_from_clickhouse("http://localhost:8123").len(), 0);
    assert_eq!(read_trades_from_duckdb("trades.db").len(), 0);
    assert_eq!(read_trades_from_parquet("trades.parquet").len(), 0);
}
