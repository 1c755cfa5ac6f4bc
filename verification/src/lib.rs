//! Verified core of a small HTTP load generator and profiler.
//!
//! Timestamps and durations are plain nanosecond counts (`u64`) measured
//! from a reference instant that the caller picks once per run.
pub mod util;
pub mod qps;
pub mod tally;
pub mod reporter;
pub mod bencher;
pub mod server;
