//! Ingestion pipeline for a published wastewater-surveillance dataset:
//! decoding of the delimited tabular input, timezone-correct normalization
//! of its timestamps, idempotent persistence keyed by a composite natural
//! key, and latest-vs-previous trend summaries.

pub mod civil;
pub mod csv_data;
pub mod date;
pub mod db;
pub mod decimal;
pub mod text;
pub mod trend;
pub mod useful;
