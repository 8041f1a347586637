//! Sorted relations of fixed-width integer tuples: a lexicographic sort, a
//! sort-merge join on a shared key prefix, and a checksummed byte encoding.

pub mod codec;
pub mod join;
pub mod order;
pub mod random;
pub mod relations;
pub mod render;
