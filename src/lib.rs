//! Benchmark history: a fault-tolerant decoder for streams of benchmark
//! records and an append-only store of per-group time series.
pub mod bench_id;
pub mod json;
pub mod keyed;
pub mod plot;
mod text;
pub mod time;
