use vstd::prelude::*;

mod coin;
pub mod order;
pub mod skiplist;

pub use skiplist::{Node, SkipList};

verus! {

/// Error returned when a key-addressed operation finds no node with the key.
#[derive(Debug, Clone, Copy, PartialEq, Eq, Structural)]
pub struct KeyNotFound;

/// Error returned when an index-addressed operation is given an index past the end.
#[derive(Debug, Clone, Copy, PartialEq, Eq, Structural)]
pub struct OutOfBounds;

} // verus!
