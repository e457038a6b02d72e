//! A cache memory simulator: set-associative caches with least-recently-used
//! replacement, an exclusive two-level hierarchy built from two such caches,
//! the trace format that drives them, and the command-line configuration.

pub mod address;
pub mod cache;
pub mod hierarchy;
pub mod laws;
pub mod recency;
pub mod text;
pub mod trace;
pub mod trace_laws;
pub mod options;
pub mod config;

pub use address::{low_mask, parse_address};
pub use cache::{Cache, CacheLine, CacheSet, EvictedBlock};
pub use config::{parse_args_from, Config};
pub use hierarchy::CacheHierarchy;
