//! Predicates on vectors, handed in by the caller.

use vstd::prelude::*;

verus! {

/// `p` can answer `r` on a vector with the coordinates `v`.
pub open spec fn answers<P: Fn(&[u32]) -> bool>(p: P, v: Seq<u32>, r: bool) -> bool {
    exists|x: &[u32]| x@ == v && #[trigger] call_ensures(p, (x,), r)
}

/// `p` takes every vector and has one answer on equal coordinates.
pub open spec fn is_predicate<P: Fn(&[u32]) -> bool>(p: P) -> bool {
    &&& forall|x: &[u32]| #[trigger] call_requires(p, (x,))
    &&& forall|v: Seq<u32>| !(#[trigger] answers(p, v, true) && answers(p, v, false))
}

/// Whether the vector with the coordinates `v` satisfies `p`.
pub open spec fn holds<P: Fn(&[u32]) -> bool>(p: P, v: Seq<u32>) -> bool {
    answers(p, v, true)
}

/// A condition on the coordinates of a vector.
pub type Condition = spec_fn(Seq<u32>) -> bool;

/// The condition that `p` decides.
pub open spec fn condition<P: Fn(&[u32]) -> bool>(p: P) -> Condition {
    |v: Seq<u32>| holds(p, v)
}

/// `p` takes every vector and answers by `c`.
pub open spec fn decides<P: Fn(&[u32]) -> bool>(p: P, c: Condition) -> bool {
    &&& forall|x: &[u32]| #[trigger] call_requires(p, (x,))
    &&& forall|x: &[u32], b: bool| #[trigger] call_ensures(p, (x,), b) ==> b == c(x@)
}

/// A predicate decides its condition.
pub proof fn predicates_decide<P: Fn(&[u32]) -> bool>(p: P)
    requires
        is_predicate(p),
    ensures
        decides(p, condition(p)),
{
    assert forall|x: &[u32], b: bool| #[trigger] call_ensures(p, (x,), b) implies b == condition(
        p,
    )(x@) by {
        assert(answers(p, x@, b));
        assert(holds(p, x@) == answers(p, x@, true));
    }
}

} // verus!
