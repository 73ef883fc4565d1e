//! Source- and sink-facing surfaces: the delimited-text trade row format
//! and the row stores' connector entry points.

pub mod clickhouse;
pub mod csv;
pub mod duckdb;
pub mod parquet;
