//! Batched point reads over a log-structured store.

pub mod bench;
pub mod coalesce;
pub mod config;
pub mod filter;
pub mod manifest;
pub mod memtable;
pub mod merge;
pub mod multi_get;
pub mod multi_sst;
pub mod octets;
pub mod partitions;
pub mod scan;
pub mod sort;
pub mod sstable;
pub mod types;
