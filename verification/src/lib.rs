//! Write-path core of an LSM key-value store: byte-order comparators, the
//! versioned key codec, an ordered in-memory index and the prefix-compressed
//! block format, each with machine-checked contracts.

pub mod db;
pub mod slice;
pub mod util;
