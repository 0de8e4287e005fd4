//! Slot-based associative containers that hand out small integer keys on
//! insertion: a key is the index of the slot that holds its value, lookups
//! and removals are O(1), and removed slots are reclaimed through an
//! intrusive free list. [`SlabMap`] is the heap-backed store; its
//! [`optimize`](SlabMap::optimize) pass rewrites the vacant space into
//! run-length-encoded form so that iteration skips deleted regions in one
//! step. [`SmallSlabMap`] stores up to a fixed number of elements inline and
//! promotes, once and for good, to the heap-backed form when that threshold
//! is exceeded; keys stay valid across promotion.
//!
//! Contracts are stated over the table model of [`table`]: a container is a
//! sequence of optional values indexed by key, and iteration yields its
//! occupied `(key, value)` pairs in increasing key order.
mod entry;
pub mod slab_map;
pub mod small_slab_map;
pub mod table;

pub use slab_map::SlabMap;
pub use small_slab_map::SmallSlabMap;
pub use table::lookup;
pub use table::pairs_of;
pub use table::table_of;
