//! In-process caches: a bounded cache with least-recently-used eviction,
//! and a companion unbounded key-value cache with no eviction policy.

pub mod laws;
pub mod lru_cache;
pub mod simple_cache;
