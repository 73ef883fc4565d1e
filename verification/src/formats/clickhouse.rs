//! The ClickHouse connector surface. Row ingestion over HTTP is owned by
//! the surrounding application; the library-side reader is a stub that
//! yields no rows.

use vstd::prelude::*;

use crate::candle::Candle;

verus! {

/// A trade row as a ClickHouse query result carries it.
#[derive(Debug)]
pub struct ClickhouseTrade {}

/// Reads trades from a ClickHouse instance. This build embeds no client:
/// the call yields no rows, and ingestion goes through the application's
/// HTTP query path instead.
pub fn read_trades_from_clickhouse(_conn_str: &str) -> (r: Vec<ClickhouseTrade>)
    ensures
        r@.len() == 0,
{
    Vec::new()
}

/// Writes candles to a ClickHouse instance. This build embeds no client:
/// the call writes nothing, and persistence goes through the application's
/// sink path instead.
pub fn write_candles_to_clickhouse(_conn_str: &str, _candles: &[Candle]) {
}

} // verus!
