//! Distances, lengths, products and what is computed from them coordinate by
//! coordinate.

use vstd::prelude::*;

use super::angle_cosine;
use super::euclid;
use super::euclid_squared;
use super::factors;
use super::inner;
use super::lemma_total_none;
use super::lemma_total_take;
use super::magnitude;
use super::squares;
use super::total;
use crate::arith::Arith;
use crate::arith::Op;
use crate::order;
use crate::superpose;
use crate::vectors;

verus! {

proof fn lemma_differences(ar: Arith, a: Seq<u32>, b: Seq<u32>, n: int)
    requires
        0 <= n <= a.len(),
        n <= b.len(),
    ensures
        vectors::squared_differences(ar, a, b, n) == total(ar, squares(ar, a, b).take(n)),
    decreases n,
{
    if n > 0 {
        lemma_differences(ar, a, b, n - 1);
        lemma_total_take(ar, squares(ar, a, b), n);
    } else {
        lemma_total_none(ar, squares(ar, a, b));
    }
}

/// A distance is the root of the sum of the squares of the differences of all
/// coordinates.
pub proof fn distances_are_euclidean(ar: Arith, a: Seq<u32>, b: Seq<u32>)
    ensures
        vectors::squared_distance(ar, a, b) == euclid_squared(ar, a, b),
        vectors::distance(ar, a, b) == euclid(ar, a, b),
{
    let n = vectors::shorter(a.len() as int, b.len() as int);
    lemma_differences(ar, a, b, n);
    assert(squares(ar, a, b).take(n) =~= squares(ar, a, b));
}

proof fn lemma_products(ar: Arith, a: Seq<u32>, b: Seq<u32>, n: int)
    requires
        0 <= n <= a.len(),
        n <= b.len(),
    ensures
        vectors::products(ar, a, b, n) == total(ar, factors(ar, a, b).take(n)),
    decreases n,
{
    if n > 0 {
        lemma_products(ar, a, b, n - 1);
        lemma_total_take(ar, factors(ar, a, b), n);
    } else {
        lemma_total_none(ar, factors(ar, a, b));
    }
}

/// A length is the root of the sum of the squares of all coordinates.
pub proof fn lengths_are_euclidean(ar: Arith, v: Seq<u32>)
    ensures
        vectors::length(ar, v) == magnitude(ar, v),
{
    lemma_products(ar, v, v, v.len() as int);
    assert(factors(ar, v, v).take(v.len() as int) =~= factors(ar, v, v));
}

/// A dot product is the sum of the products of all coordinates.
pub proof fn products_add_up(ar: Arith, a: Seq<u32>, b: Seq<u32>)
    ensures
        vectors::products(ar, a, b, vectors::shorter(a.len() as int, b.len() as int)) == inner(
            ar,
            a,
            b,
        ),
{
    let n = vectors::shorter(a.len() as int, b.len() as int);
    lemma_products(ar, a, b, n);
    assert(factors(ar, a, b).take(n) =~= factors(ar, a, b));
}

/// A similarity is the dot product over the product of the lengths.
pub proof fn similarities_are_cosines(ar: Arith, a: Seq<u32>, b: Seq<u32>)
    ensures
        superpose::cosine(ar, a, b) == angle_cosine(ar, a, b),
{
    lengths_are_euclidean(ar, a);
    lengths_are_euclidean(ar, b);
    products_add_up(ar, a, b);
}

/// Scaling divides every coordinate by the length, unless the length is not
/// above `floor`.
pub proof fn scaling_divides_by_the_length(ar: Arith, v: Seq<u32>, floor: u32, i: int)
    requires
        0 <= i < v.len(),
    ensures
        vectors::scaled_to_unit(ar, v, floor).len() == v.len(),
        vectors::scaled_to_unit(ar, v, floor)[i] == if order::lt(floor, magnitude(ar, v)) {
            ar(Op::Div, v[i], magnitude(ar, v), 0)
        } else {
            v[i]
        },
{
    lengths_are_euclidean(ar, v);
}

} // verus!
