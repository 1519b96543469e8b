//! A fixed-capacity in-memory cache with strict least-recently-used eviction,
//! built from a recency list with O(1) structural operations.

pub mod cache;
pub mod list;
