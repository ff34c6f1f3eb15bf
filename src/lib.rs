//! A fixed-capacity key/value cache with least-recently-used eviction.
//!
//! Entries live in a slot arena linked into a recency list by slot index;
//! a hash map translates keys into slot indices.
pub mod cache;
pub mod entry;
pub mod model;

pub use cache::LruCache;
pub use entry::CacheEntry;
