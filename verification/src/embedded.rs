//! Fixed-size vectors and graph nodes that need no allocation: a vector is an
//! array of `DIM` numbers, a node an array of at most `MAX_NEIGHBORS`
//! neighbours.

use vstd::prelude::*;

pub mod steering;
pub mod storage;
pub mod topology;

verus! {

/// The number of coordinates of every vector.
pub const DIM: usize = 768;

/// The greatest number of neighbours that a node can have.
pub const MAX_NEIGHBORS: usize = 16;

} // verus!
