//! The Parquet connector surface. Columnar file I/O is owned by the
//! surrounding application; the library-side reader is a stub that yields
//! no rows.

use vstd::prelude::*;

use crate::candle::Candle;

verus! {

/// A trade row as a Parquet record batch carries it.
#[derive(Debug)]
pub struct ParquetTrade {}

/// Reads trades from a Parquet file. This build embeds no columnar reader:
/// the call yields no rows, and ingestion goes through the application's
/// file path instead.
pub fn read_trades_from_parquet(_path: &str) -> (r: Vec<ParquetTrade>)
    ensures
        r@.len() == 0,
{
    Vec::new()
}

/// Writes candles to a Parquet file. This build embeds no columnar writer:
/// the call writes nothing, and persistence goes through the application's
/// sink path instead.
pub fn write_candles_to_parquet(_path: &str, _candles: &[Candle]) {
}

} // verus!
