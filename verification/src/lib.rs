//! A fixed-capacity LRU-K cache built on index-based intrusive lists.
//!
//! Eviction goes by the `K` most recent references of an entry, not by the last one alone, so
//! that one pass over keys that are never used again does not drive out the entries in steady
//! use. Every operation is verified against a mathematical model of the policy.
//!
//! - [`list`]: doubly linked lists of slot ids with links kept in an array.
//! - [`history`]: for every slot, a ring of its last `K` reference times.
//! - [`engine`]: the policy as a model, over entries named in any way.
//! - [`policy`]: the policy engine over the slots of an arena.
//! - [`rename`]: how the state over slots reads over keys.
//! - [`cache`]: the cache itself, from keys to values.
//! - [`plain`]: the plain LRU cache of the `lru` crate, as a baseline.
//! - [`workload`]: hot and cold access patterns that count hits and misses.

pub mod cache;
pub mod engine;
pub mod history;
pub mod list;
pub mod plain;
pub mod policy;
pub mod rename;
pub mod workload;
