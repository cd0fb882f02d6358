//! Sliding-window latency and transmission statistics for the peers of a
//! network node.
//!
//! Samples are elapsed times in whole nanoseconds. Each peer owns one bounded
//! buffer per metric; the estimators summarise a buffer on demand.

pub mod buffer;
pub mod estimator;
pub mod peer_map;
pub mod report;
pub mod tracker;

pub use buffer::PushLossy;
pub use estimator::{durations_error_with_ci, durations_mean, durations_std_dev};
pub use tracker::{Stats, StatsError};
