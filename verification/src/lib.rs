//! A benchmark core for measuring the per-operation latency of
//! interchangeable synchronization primitives under contended workloads.
//!
//! The library holds the pieces whose behaviour is worth pinning down:
//! the strided partition of operation indices across workers, the workloads
//! that run inside each critical section, the log-linear latency histogram
//! with its percentile queries, and the report text. Thread lifecycle,
//! locking, timing and configuration loading live in the outer program,
//! which feeds measured durations into the [`bench::Bencher`].

pub mod bench;
pub mod config;
pub mod histogram;
pub mod partition;
pub mod text;
pub mod workload;
