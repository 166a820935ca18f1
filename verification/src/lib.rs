//! Streaming time-series aggregation: Prometheus-style `delta`, `increase`,
//! `rate`, `irate`, counter-reset accumulators and an instant-vector selector,
//! evaluated one row at a time in bounded memory.
//!
//! Sample values are carried as IEEE-754 bit patterns (`u64`); the verified
//! core decides everything that depends on timestamps, ordering, window and
//! bucket structure, the stale marker and value comparisons, and hands the
//! per-window sample data to the (unverified) floating-point finishers.

pub mod aggregates;
pub mod pgtap_parse;
pub mod post_install;
pub mod postgres_container;
pub mod type_builder;
