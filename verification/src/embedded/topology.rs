//! Graph nodes with room for a fixed number of neighbours, and the region
//! that vectors have to stay in.

use vstd::prelude::*;

use super::DIM;
use super::MAX_NEIGHBORS;
use crate::order;

verus! {

/// A node: the vector it stands for, and its neighbours. Only the first
/// `neighbor_count` slots are neighbours.
#[derive(Clone, Copy, Debug, PartialEq)]
pub struct ViableNode {
    pub vector_idx: u32,
    pub neighbors: [u32; MAX_NEIGHBORS],
    pub neighbor_count: u8,
}

impl ViableNode {
    /// The neighbours fit into the slots.
    pub open spec fn wf(&self) -> bool {
        self.neighbor_count <= MAX_NEIGHBORS
    }

    /// The neighbours, in order.
    pub open spec fn live(&self) -> Seq<u32> {
        self.neighbors@.take(self.neighbor_count as int)
    }

    /// A node without neighbours.
    pub fn new(vector_idx: u32) -> (r: Self)
        ensures
            r.wf(),
            r.vector_idx == vector_idx,
            r.neighbor_count == 0,
            r.neighbors@ == Seq::new(MAX_NEIGHBORS as nat, |i: int| 0u32),
            r.live() == Seq::<u32>::empty(),
    {
        let r = ViableNode { vector_idx, neighbors: [0; MAX_NEIGHBORS], neighbor_count: 0 };
        proof {
            assert(r.neighbors@ =~= Seq::new(MAX_NEIGHBORS as nat, |i: int| 0u32));
            assert(r.live() =~= Seq::<u32>::empty());
        }
        r
    }

    /// The neighbours.
    pub fn live_neighbors(&self) -> (r: &[u32])
        requires
            self.wf(),
        ensures
            r@ == self.live(),
    {
        let slots: &[u32] = self.neighbors.as_slice();
        vstd::slice::slice_subrange(slots, 0, self.neighbor_count as usize)
    }

    /// Adds a neighbour. Returns `false`, and changes nothing, if every slot
    /// is taken.
    pub fn push_neighbor(&mut self, neighbor_vector_idx: u32) -> (r: bool)
        ensures
            old(self).wf() ==> final(self).wf(),
            r == (old(self).neighbor_count < MAX_NEIGHBORS),
            !r ==> *final(self) == *old(self),
            final(self).vector_idx == old(self).vector_idx,
            r ==> final(self).neighbor_count == old(self).neighbor_count + 1,
            r ==> final(self).neighbors@ == old(self).neighbors@.update(
                old(self).neighbor_count as int,
                neighbor_vector_idx,
            ),
            r ==> final(self).live() == old(self).live().push(neighbor_vector_idx),
    {
        let i: usize = self.neighbor_count as usize;
        if i >= MAX_NEIGHBORS {
            return false;
        }
        self.neighbors[i] = neighbor_vector_idx;
        self.neighbor_count += 1;
        assert(self.live() =~= old(self).live().push(neighbor_vector_idx));
        true
    }
}

/// A region: every coordinate lies between `min` and `max`, both bit patterns
/// of numbers.
#[derive(Clone, Copy, Debug, PartialEq)]
pub struct Boundary {
    pub min: u32,
    pub max: u32,
}

impl Boundary {
    /// Whether `x` lies within the bounds.
    pub open spec fn admits(&self, x: u32) -> bool {
        order::le(self.min, x) && order::le(x, self.max)
    }

    /// Whether every coordinate of `v` lies within the bounds.
    pub open spec fn encloses(&self, v: Seq<u32>) -> bool {
        forall|i: int| 0 <= i < v.len() ==> self.admits(#[trigger] v[i])
    }

    /// Whether `x` lies within the bounds.
    pub fn contains(&self, x: u32) -> (r: bool)
        ensures
            r == self.admits(x),
    {
        order::at_most(self.min, x) && order::at_most(x, self.max)
    }
}

/// Whether every coordinate of `v` lies within `boundary`, bounds included.
pub fn is_viable(v: &[u32; DIM], boundary: &Boundary) -> (r: bool)
    ensures
        r == boundary.encloses(v@),
{
    let mut i: usize = 0;
    while i < DIM
        invariant
            i <= DIM,
            forall|j: int| 0 <= j < i ==> boundary.admits(#[trigger] v@[j]),
        decreases DIM - i,
    {
        if !boundary.contains(v[i]) {
            assert(!boundary.admits(v@[i as int]));
            return false;
        }
        i += 1;
    }
    true
}

} // verus!
