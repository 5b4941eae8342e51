//! A fixed-capacity key-value cache with least-recently-used eviction.
//!
//! The cache keeps a hash index from keys to slots of a node arena, and a
//! doubly-linked recency list threaded through those slots. Its abstract
//! state is the sequence of entries from most to least recently used.
pub mod model;
pub mod cache;

pub use cache::{Cache, ConfigError};
