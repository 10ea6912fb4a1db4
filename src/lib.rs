//! Columnar storage of tick-level market data: fixed-point prices and
//! quantities, column batches with dataset metadata, per-record codecs that
//! map domain records to and from columns, and streaming ingestion of
//! delimited text.
pub mod batch;
pub mod fixed_point;
pub mod identifiers;
pub mod ingest;
pub mod records;
