//! OHLCV candle aggregation: folds ordered trade sequences into
//! base-timeframe candles and derives coarser-timeframe candles by grouping
//! consecutive finer ones along a fixed ladder.

pub mod aggregation;
pub mod candle;
pub mod chain;
pub mod formats;
pub mod generator;
pub mod model;
pub mod text;
pub mod timeframe;

pub use aggregation::aggregate_chain;
pub use aggregation::aggregate_trades_chain;
pub use aggregation::aggregate_trades_to_candles;
pub use aggregation::AggregationResult;
pub use candle::Candle;
pub use chain::aggregate_from_lower;
pub use generator::input_fits;
pub use generator::CandleGenerator;
pub use model::Instrument;
pub use model::MarketType;
pub use model::Pair;
pub use model::Side;
pub use model::Trade;
pub use timeframe::parse_intervals;
pub use timeframe::Timeframe;
