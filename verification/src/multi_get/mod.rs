//! Batched point reads.

pub mod batch;
pub mod candidates;
pub mod economy;
pub mod events;
pub mod invariants;
pub mod key;
pub mod outcome;
pub mod pipeline;
pub mod plan;
pub mod progress;
pub mod read;
pub mod requests;
pub mod sst;
pub mod walk;
