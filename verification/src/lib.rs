//! Stable collections: vectors, logs, heaps, hash maps and sets, B+ tree maps and sets.
use vstd::prelude::*;

pub mod key;
pub mod vec;
pub mod vec_direct;
pub mod hash_map;
pub mod hash_map_direct;
pub mod hash_tree_map;
pub mod hash_set;
pub mod binary_heap;
pub mod log;
pub mod btree_map;
pub mod btree_set;
pub mod nrb_tree_map;
pub mod laws;

verus! {

/// Returned when an allocation cannot be made.
#[derive(Debug, Clone, Copy, PartialEq, Eq, Structural)]
pub struct OutOfMemory;

} // verus!
