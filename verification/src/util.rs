//! Primitive encodings, comparators, the arena and the error type.

pub mod arena;
pub mod coding;
pub mod comparator;
pub mod status;
