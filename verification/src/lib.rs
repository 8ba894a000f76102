//! An indexable sequence collection backed by a byte-oriented key-value
//! store, with an in-memory write-back cache that defers mutations until an
//! explicit flush.
//!
//! The store itself is an injected collaborator ([`store::Store`]); element
//! encoding is done by `borsh` behind a thin verified boundary in [`codec`].
//! Because there is no end-of-scope hook in verified code, calling
//! [`vector::Vector::flush`] before the collection's lifetime ends is
//! mandatory for mutations to persist.

pub mod codec;
pub mod entry;
pub mod stable_map;
pub mod store;
pub mod vector;

pub use entry::CacheEntry;
pub use entry::EntryState;
pub use stable_map::StableMap;
pub use store::Store;
pub use vector::Error;
pub use vector::Vector;
pub use vector::expect_consistent_state;
