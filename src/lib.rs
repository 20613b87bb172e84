//! A bounded key-value store that evicts the least-recently-used entry.

pub mod cache_lru;
pub mod cache_lru_trait;
pub mod model;
