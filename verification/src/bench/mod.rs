//! The logic of the benchmark: what it reads, what it counts, and when it
//! reports.

pub mod args;
pub mod counters;
pub mod keys;
pub mod reader;
pub mod rng;
pub mod shape;
pub mod stats;
pub mod task;
