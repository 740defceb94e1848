//! Timing harness for comparing ways of reading a file: runs an operation a
//! given number of times, records each run's duration and summarises the
//! samples as median, truncated mean, minimum and maximum, then renders the
//! report text.
pub mod harness;
pub mod report;
pub mod stats;

pub use harness::{collect_samples, samples_from_readings, time_func, use_input, Clock};
pub use report::render_comparison;
pub use stats::{compute_stats, to_unit, TimingStats};
