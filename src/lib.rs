//! A fixed-capacity least-recently-used cache keyed by `u16`.
//!
//! Entries live in a hash map; the recency order is a doubly-linked list whose
//! links are keys of that same map, so no pointers are involved.

pub mod cache;
pub mod laws;
pub mod recency;

pub use cache::{Entry, Iter, LRUCache};
