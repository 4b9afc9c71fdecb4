//! The versioned key codec, the in-memory index and the block format.

use vstd::prelude::*;

pub mod block;
pub mod block_laws;
pub mod dbformat;
pub mod format;
pub mod ldbiterator;
pub mod ldbslice;
pub mod memtable;
pub mod skiplist;

verus! {

/// The version counter of a write; at most 56 bits are in use.
pub type SequenceNumber = u64;

} // verus!
