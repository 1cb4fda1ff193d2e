//! An LRU map that evicts entries by size, count and age, and the
//! vocabulary of cache metrics.

pub mod evicting_map;
pub mod lru_order;
pub mod model;
pub mod metrics;
pub mod visitor;
pub mod laws;
