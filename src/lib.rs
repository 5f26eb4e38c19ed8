//! A slab allocator (object pool) whose values never move while they are
//! stored.
//!
//! Values live in chunks of `CHUNK_SIZE` slots. A chunk's storage is
//! allocated once, at full size, and never grows past it, so storing or
//! removing one value never relocates another. Removed slots form a free
//! list that hands keys out again, most recently freed first.

mod count;
mod laws;
mod slab;

pub use count::{count_all, count_some, empty_chunks, nonempty_chunks};
pub use laws::{
    law_capacity_growth, law_free_unused, law_insert_then_get, law_insert_then_remove, law_key_reuse,
    law_second_remove_fails,
};
pub use slab::{chunk_index, slot_index, Iter, IterMut, Slab, CHUNK_SIZE};
