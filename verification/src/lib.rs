//! A binary buddy memory allocator engine.
//!
//! The engine manages one contiguous, arbitrarily aligned range of addresses
//! and hands out power-of-two-sized, naturally aligned blocks, identified by
//! their starting address.  Free blocks of every order are kept in per-order
//! free lists, and a flat pair bitmap records, for every buddy pair, whether
//! exactly one of the two siblings is currently free, which makes the merge
//! decision on release a single bit probe.

pub mod buddy;
pub mod common;
pub mod invariants;
pub mod laws;
pub mod model;

pub use buddy::BuddyAlloc;
pub use common::Error;
pub use common::align_addr_higher;
pub use common::align_addr_lower;
pub use common::size_order;
