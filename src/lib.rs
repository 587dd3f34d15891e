//! A hash array mapped trie with sixteen buckets per node, keyed by `u64`.

pub mod compound;
pub mod hamt;
pub mod laws;
pub mod persist;
pub mod search;
pub mod slot;
