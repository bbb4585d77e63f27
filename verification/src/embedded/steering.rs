//! Moving a vector in place, and weights on the edges of a node.

use vstd::prelude::*;

use super::topology::Boundary;
use super::DIM;
use super::MAX_NEIGHBORS;
use crate::arith;
use crate::arith::Arith;
use crate::arith::Op;
use crate::order;

verus! {

/// The weights of the edges of a node, one for each slot.
#[derive(Clone, Copy, Debug, PartialEq)]
pub struct EdgeWeights {
    weights: [u32; MAX_NEIGHBORS],
}

impl View for EdgeWeights {
    type V = Seq<u32>;

    closed spec fn view(&self) -> Seq<u32> {
        self.weights@
    }
}

impl EdgeWeights {
    /// All weights zero.
    pub fn zeroed() -> (r: Self)
        ensures
            r@ == Seq::new(MAX_NEIGHBORS as nat, |i: int| order::ZERO),
    {
        let r = EdgeWeights { weights: [order::ZERO; MAX_NEIGHBORS] };
        assert(r@ =~= Seq::new(MAX_NEIGHBORS as nat, |i: int| order::ZERO));
        r
    }

    /// The weight of slot `edge_index`.
    pub fn get(&self, edge_index: usize) -> (r: u32)
        requires
            edge_index < MAX_NEIGHBORS,
        ensures
            r == self@[edge_index as int],
    {
        self.weights[edge_index]
    }

    /// Adds `delta` to the weight of slot `edge_index`, and returns the sum.
    pub fn update<F: Fn(Op, u32, u32, u32) -> u32>(
        &mut self,
        fpu: &F,
        edge_index: usize,
        delta: u32,
    ) -> (r: u32)
        requires
            arith::is_unit(*fpu),
            edge_index < MAX_NEIGHBORS,
        ensures
            r == arith::arith(*fpu)(Op::Add, old(self)@[edge_index as int], delta, 0),
            final(self)@ == old(self)@.update(edge_index as int, r),
    {
        let sum: u32 = arith::binary(fpu, Op::Add, self.weights[edge_index], delta);
        self.weights[edge_index] = sum;
        assert(self@ =~= old(self)@.update(edge_index as int, sum));
        sum
    }
}

/// The coordinate `s` moved by `alpha` times `d`.
pub open spec fn moved(ar: Arith, s: u32, d: u32, alpha: u32) -> u32 {
    ar(Op::Add, s, ar(Op::Mul, alpha, d, 0), 0)
}

/// The vector `state` moved by `alpha` times `direction`.
pub open spec fn stepped(ar: Arith, state: Seq<u32>, direction: Seq<u32>, alpha: u32) -> Seq<u32> {
    Seq::new(state.len(), |i: int| moved(ar, state[i], direction[i], alpha))
}

fn advance<F: Fn(Op, u32, u32, u32) -> u32>(fpu: &F, s: u32, d: u32, alpha: u32) -> (r: u32)
    requires
        arith::is_unit(*fpu),
    ensures
        r == moved(arith::arith(*fpu), s, d, alpha),
{
    arith::binary(fpu, Op::Add, s, arith::binary(fpu, Op::Mul, alpha, d))
}

/// Moves `state` by `alpha` times `direction`, if that stays within
/// `boundary`. Otherwise returns `false` and leaves `state` as it was.
pub fn steer_next<F: Fn(Op, u32, u32, u32) -> u32>(
    fpu: &F,
    state: &mut [u32; DIM],
    direction: &[u32; DIM],
    alpha: u32,
    boundary: &Boundary,
) -> (r: bool)
    requires
        arith::is_unit(*fpu),
    ensures
        r == boundary.encloses(
            stepped(arith::arith(*fpu), old(state)@, direction@, alpha),
        ),
        r ==> final(state)@ == stepped(arith::arith(*fpu), old(state)@, direction@, alpha),
        !r ==> final(state)@ == old(state)@,
{
    let ghost ar = arith::arith(*fpu);
    let ghost from = old(state)@;
    let ghost to = stepped(ar, from, direction@, alpha);
    let mut i: usize = 0;
    while i < DIM
        invariant
            i <= DIM,
            arith::is_unit(*fpu),
            ar == arith::arith(*fpu),
            from.len() == DIM,
            to == stepped(ar, from, direction@, alpha),
            state@ == from,
            forall|j: int| 0 <= j < i ==> boundary.admits(#[trigger] to[j]),
        decreases DIM - i,
    {
        let next: u32 = advance(fpu, state[i], direction[i], alpha);
        assert(to[i as int] == next);
        if !boundary.contains(next) {
            assert(!boundary.admits(to[i as int]));
            return false;
        }
        i += 1;
    }
    let mut k: usize = 0;
    while k < DIM
        invariant
            k <= DIM,
            arith::is_unit(*fpu),
            ar == arith::arith(*fpu),
            from.len() == DIM,
            to == stepped(ar, from, direction@, alpha),
            forall|j: int| 0 <= j < k ==> (#[trigger] state@[j]) == to[j],
            forall|j: int| k <= j < DIM ==> (#[trigger] state@[j]) == from[j],
        decreases DIM - k,
    {
        assert(state@[k as int] == from[k as int]);
        let next: u32 = advance(fpu, state[k], direction[k], alpha);
        state[k] = next;
        k += 1;
    }
    assert(state@ =~= to);
    true
}

/// A step from within the bounds, taken or refused, ends within them.
pub proof fn steps_stay_within(
    ar: Arith,
    boundary: Boundary,
    from: Seq<u32>,
    direction: Seq<u32>,
    alpha: u32,
)
    requires
        boundary.encloses(from),
    ensures
        ({
            let to = stepped(ar, from, direction, alpha);
            boundary.encloses(
                if boundary.encloses(to) {
                    to
                } else {
                    from
                },
            )
        }),
{
}

} // verus!
