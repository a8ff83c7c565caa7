//! Core logic of a compactor for a columnar time-series store: partition
//! candidate selection, per-partition file filtering under a memory budget,
//! level promotion, the merge/dedup/split pipeline over immutable files, and
//! the LRU cache with loader coalescing that backs catalog and object-store
//! reads.

pub mod cache;
pub mod catalog;
pub mod combine;
pub mod events;
pub mod files;
pub mod filter;
pub mod handler;
pub mod ids;
pub mod influxql;
pub mod loader;
pub mod measurement;
pub mod object_store_cache;
pub mod order;
pub mod pipeline;
pub mod planner;
pub mod rows;
pub mod selector;
pub mod sortkey;

pub use files::CompactionLevel;
