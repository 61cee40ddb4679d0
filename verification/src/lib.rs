//! A bounded key-value cache that evicts the least recently used entry.
//!
//! The cache keeps its entries in recency order and never holds more than
//! its capacity. Every operation is specified over a mathematical model of
//! the cache, a sequence of key-value pairs running from the least to the
//! most recently used entry, and proved against that model.
pub mod error;
pub mod lru;
