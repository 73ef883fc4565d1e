//! The DuckDB connector surface. Row ingestion from database files is owned
//! by the surrounding application; the library-side reader is a stub that
//! yields no rows.

use vstd::prelude::*;

use crate::candle::Candle;

verus! {

/// A trade row as a DuckDB query result carries it.
#[derive(Debug)]
pub struct DuckdbTrade {}

/// Reads trades from a DuckDB database file. This build embeds no client:
/// the call yields no rows, and ingestion goes through the application's
/// query path instead.
pub fn read_trades_from_duckdb(_path: &str) -> (r: Vec<DuckdbTrade>)
    ensures
        r@.len() == 0,
{
    Vec::new()
}

/// Writes candles to a DuckDB database file. This build embeds no client:
/// the call writes nothing, and persistence goes through the application's
/// sink path instead.
pub fn write_candles_to_duckdb(_path: &str, _candles: &[Candle]) {
}

} // verus!
