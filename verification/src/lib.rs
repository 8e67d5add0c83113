//! In-process key-value caches with hit and miss accounting: an unbounded
//! cache, a size-bounded cache with least-recently-used eviction, and a
//! time-bounded cache with lazy expiry on access.
//!
//! The size-bounded cache is the core: a hash index from key to slot paired
//! with an order list that tracks recency inside one contiguous buffer, so
//! that lookup, insertion and eviction all run without per-entry allocation.

mod list;
pub mod laws;
pub mod model;
pub mod sized;
pub mod timed;
pub mod unbound;

pub use sized::SizedCache;
pub use timed::TimedCache;
pub use unbound::UnboundCache;
