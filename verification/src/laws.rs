//! What the operations are for.
//!
//! The contracts say what each operation computes, step by step. The laws here
//! say what comes of it, in terms of its inputs and results alone: sums of
//! squares, distances, ranks, counts and bytes, written out as formulas.

use vstd::prelude::*;

use crate::arith::Arith;
use crate::arith::Op;

pub mod beliefs;
pub mod codecs;
pub mod graphs;
pub mod hashes;
pub mod keeping;
pub mod measures;
pub mod rankings;
pub mod reductions;
pub mod searches;
pub mod sums;
pub mod trajectories;
pub mod trees;

verus! {

/// The sum of `terms`, from the first on, starting at zero.
pub open spec fn total(ar: Arith, terms: Seq<u32>) -> u32 {
    terms.fold_left(0u32, |sum: u32, x: u32| ar(Op::Add, sum, x, 0))
}

/// The number of coordinates that `x` and `y` both have.
pub open spec fn common(x: Seq<u32>, y: Seq<u32>) -> nat {
    if x.len() <= y.len() {
        x.len()
    } else {
        y.len()
    }
}

/// The squares of the differences of the coordinates.
pub open spec fn squares(ar: Arith, x: Seq<u32>, y: Seq<u32>) -> Seq<u32> {
    Seq::new(
        common(x, y),
        |j: int| ar(Op::Mul, ar(Op::Sub, x[j], y[j], 0), ar(Op::Sub, x[j], y[j], 0), 0),
    )
}

/// The squared Euclidean distance of `x` and `y`.
pub open spec fn euclid_squared(ar: Arith, x: Seq<u32>, y: Seq<u32>) -> u32 {
    total(ar, squares(ar, x, y))
}

/// The Euclidean distance of `x` and `y`.
pub open spec fn euclid(ar: Arith, x: Seq<u32>, y: Seq<u32>) -> u32 {
    ar(Op::Sqrt, euclid_squared(ar, x, y), 0, 0)
}

/// The products of the coordinates.
pub open spec fn factors(ar: Arith, x: Seq<u32>, y: Seq<u32>) -> Seq<u32> {
    Seq::new(common(x, y), |j: int| ar(Op::Mul, x[j], y[j], 0))
}

/// The dot product of `x` and `y`, added from the first coordinate on.
pub open spec fn inner(ar: Arith, x: Seq<u32>, y: Seq<u32>) -> u32 {
    total(ar, factors(ar, x, y))
}

/// The Euclidean length of `x`.
pub open spec fn magnitude(ar: Arith, x: Seq<u32>) -> u32 {
    ar(Op::Sqrt, inner(ar, x, x), 0, 0)
}

/// The cosine of the angle between `x` and `y`; zero if the product of their
/// lengths is below a billionth.
pub open spec fn angle_cosine(ar: Arith, x: Seq<u32>, y: Seq<u32>) -> u32 {
    let lengths = ar(Op::Mul, magnitude(ar, x), magnitude(ar, y), 0);
    if crate::order::lt(lengths, 0x3089_705f) {
        0
    } else {
        ar(Op::Div, inner(ar, x, y), lengths, 0)
    }
}

/// The number of the integer `n`.
pub open spec fn number(ar: Arith, n: int) -> u32 {
    ar(Op::Count, (n % 0x1_0000_0000) as u32, (n / 0x1_0000_0000) as u32, 0)
}

/// A sum of one more term.
pub proof fn lemma_total_push(ar: Arith, s: Seq<u32>, x: u32)
    ensures
        total(ar, s.push(x)) == ar(Op::Add, total(ar, s), x, 0),
{
    assert(s.push(x).drop_last() =~= s);
    assert(s.push(x).last() == x);
}

/// The sum of the first `n` terms, from that of the ones before.
pub proof fn lemma_total_take(ar: Arith, s: Seq<u32>, n: int)
    requires
        0 < n <= s.len(),
    ensures
        total(ar, s.take(n)) == ar(Op::Add, total(ar, s.take(n - 1)), s[n - 1], 0),
{
    assert(s.take(n) =~= s.take(n - 1).push(s[n - 1]));
    lemma_total_push(ar, s.take(n - 1), s[n - 1]);
}

pub proof fn lemma_total_none(ar: Arith, s: Seq<u32>)
    ensures
        total(ar, s.take(0)) == 0,
{
    assert(s.take(0) =~= Seq::<u32>::empty());
}

} // verus!
