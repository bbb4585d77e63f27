//! Lengths and distances of vectors.

use vstd::prelude::*;

use crate::arith;
use crate::arith::Arith;
use crate::arith::Op;
use crate::order;

verus! {

/// `(a[0] - b[0])^2 + ... + (a[n - 1] - b[n - 1])^2`, summed from the left.
pub open spec fn squared_differences(ar: Arith, a: Seq<u32>, b: Seq<u32>, n: int) -> u32
    decreases n,
{
    if n <= 0 {
        order::ZERO
    } else {
        let d = ar(Op::Sub, a[n - 1], b[n - 1], 0);
        ar(Op::Add, squared_differences(ar, a, b, n - 1), ar(Op::Mul, d, d, 0), 0)
    }
}

/// `a[0] * b[0] + ... + a[n - 1] * b[n - 1]`, summed from the left.
pub open spec fn products(ar: Arith, a: Seq<u32>, b: Seq<u32>, n: int) -> u32
    decreases n,
{
    if n <= 0 {
        order::ZERO
    } else {
        ar(
            Op::Add,
            products(ar, a, b, n - 1),
            ar(Op::Mul, a[n - 1], b[n - 1], 0),
            0,
        )
    }
}

/// The length of the shorter of two sequences.
pub open spec fn shorter(a: int, b: int) -> int {
    if a <= b {
        a
    } else {
        b
    }
}

/// The squared distance of two vectors, over the coordinates that both have.
pub open spec fn squared_distance(ar: Arith, a: Seq<u32>, b: Seq<u32>) -> u32 {
    squared_differences(ar, a, b, shorter(a.len() as int, b.len() as int))
}

/// The Euclidean distance of two vectors.
pub open spec fn distance(ar: Arith, a: Seq<u32>, b: Seq<u32>) -> u32 {
    ar(Op::Sqrt, squared_distance(ar, a, b), 0, 0)
}

/// The Euclidean length of a vector.
pub open spec fn length(ar: Arith, v: Seq<u32>) -> u32 {
    ar(Op::Sqrt, products(ar, v, v, v.len() as int), 0, 0)
}

/// The contents of the rows of a table.
pub open spec fn rows(v: Seq<Vec<u32>>) -> Seq<Seq<u32>> {
    Seq::new(v.len(), |i: int| v[i]@)
}

/// A copy of `v`.
pub(crate) fn copy(v: &Vec<u32>) -> (r: Vec<u32>)
    ensures
        r@ == v@,
{
    let r: Vec<u32> = v.clone();
    assert(r@ =~= v@);
    r
}

/// A copy of `v`.
pub(crate) fn from_slice(v: &[u32]) -> (r: Vec<u32>)
    ensures
        r@ == v@,
{
    let mut r: Vec<u32> = Vec::new();
    r.extend_from_slice(v);
    assert(r@ =~= v@);
    r
}

/// The place of the first least of the first `m` numbers of `d`, and that
/// number: numbers that are not below the largest finite one do not count,
/// and if none counts the place is the first.
pub open spec fn least_of(d: Seq<u32>, m: int) -> (int, u32)
    decreases m,
{
    if m <= 0 {
        (0, order::LARGEST)
    } else if order::lt(d[m - 1], least_of(d, m - 1).1) {
        (m - 1, d[m - 1])
    } else {
        least_of(d, m - 1)
    }
}

/// The place of the first least number of `d`.
pub open spec fn least(d: Seq<u32>) -> int {
    least_of(d, d.len() as int).0
}

/// The place of the first least number of `d`.
pub fn find_least(d: &Vec<u32>) -> (r: usize)
    ensures
        r == least(d@),
        d@.len() > 0 ==> r < d@.len(),
{
    let mut best: usize = 0;
    let mut best_value: u32 = order::LARGEST;
    let mut i: usize = 0;
    while i < d.len()
        invariant
            i <= d@.len(),
            best == least_of(d@, i as int).0,
            best_value == least_of(d@, i as int).1,
            i > 0 ==> best < i,
            i == 0 ==> best == 0,
        decreases d@.len() - i,
    {
        if order::less(d[i], best_value) {
            best = i;
            best_value = d[i];
        }
        i += 1;
    }
    best
}

/// The least number is at most every number that counts, and below those
/// before it.
pub proof fn least_is_least(d: Seq<u32>, m: int, i: int)
    requires
        0 <= i < m <= d.len(),
        order::lt(d[i], order::LARGEST),
    ensures
        0 <= least_of(d, m).0 < m,
        d[least_of(d, m).0] == least_of(d, m).1,
        order::le(least_of(d, m).1, d[i]),
        i < least_of(d, m).0 ==> order::lt(least_of(d, m).1, d[i]),
    decreases m,
{
    if i < m - 1 {
        least_is_least(d, m - 1, i);
    } else {
        lemma_least_counts(d, m - 1);
    }
}

pub(crate) proof fn lemma_least_in_range(d: Seq<u32>, m: int)
    requires
        0 < m <= d.len(),
    ensures
        0 <= least_of(d, m).0 < m,
    decreases m,
{
    if m > 1 {
        lemma_least_in_range(d, m - 1);
    } else {
        assert(least_of(d, 0).0 == 0);
    }
}

pub(crate) proof fn lemma_least_counts(d: Seq<u32>, m: int)
    requires
        0 <= m <= d.len(),
    ensures
        !order::nan(least_of(d, m).1),
        order::le(least_of(d, m).1, order::LARGEST),
        least_of(d, m).1 == order::LARGEST || (0 <= least_of(d, m).0 < m && d[least_of(d, m).0]
            == least_of(d, m).1),
        order::lt(least_of(d, m).1, order::LARGEST) || least_of(d, m) == (0int, order::LARGEST),
    decreases m,
{
    if m > 0 {
        lemma_least_counts(d, m - 1);
    }
}

/// The squared distances of `v` from each of `centers`.
pub open spec fn distances_from(ar: Arith, v: Seq<u32>, centers: Seq<Seq<u32>>) -> Seq<u32> {
    Seq::new(centers.len(), |c: int| squared_distance(ar, v, centers[c]))
}

/// The squared distances of `v` from each of `centers`.
pub fn measure_from<F: Fn(Op, u32, u32, u32) -> u32>(fpu: &F, v: &[u32], centers: &Vec<Vec<u32>>) -> (r:
    Vec<u32>)
    requires
        arith::is_unit(*fpu),
    ensures
        r@ == distances_from(arith::arith(*fpu), v@, rows(centers@)),
{
    let ghost target = distances_from(arith::arith(*fpu), v@, rows(centers@));
    let mut r: Vec<u32> = Vec::new();
    let mut c: usize = 0;
    while c < centers.len()
        invariant
            c <= centers@.len(),
            arith::is_unit(*fpu),
            target == distances_from(arith::arith(*fpu), v@, rows(centers@)),
            r@.len() == c,
            forall|i: int| 0 <= i < c ==> #[trigger] r@[i] == target[i],
        decreases centers@.len() - c,
    {
        assert(rows(centers@)[c as int] == centers@[c as int]@);
        r.push(sq_dist(fpu, v, &centers[c]));
        c += 1;
    }
    assert(r@ =~= target);
    r
}

/// The squared distance of `a` and `b`.
pub fn sq_dist<F: Fn(Op, u32, u32, u32) -> u32>(fpu: &F, a: &[u32], b: &[u32]) -> (r: u32)
    requires
        arith::is_unit(*fpu),
    ensures
        r == squared_distance(arith::arith(*fpu), a@, b@),
{
    let mut sum: u32 = order::ZERO;
    let mut i: usize = 0;
    while i < a.len() && i < b.len()
        invariant
            i <= a@.len(),
            i <= b@.len(),
            arith::is_unit(*fpu),
            sum == squared_differences(arith::arith(*fpu), a@, b@, i as int),
        decreases a@.len() - i,
    {
        let d: u32 = arith::binary(fpu, Op::Sub, a[i], b[i]);
        sum = arith::binary(fpu, Op::Add, sum, arith::binary(fpu, Op::Mul, d, d));
        i += 1;
    }
    sum
}

/// The Euclidean distance of `a` and `b`.
pub fn euclidean<F: Fn(Op, u32, u32, u32) -> u32>(fpu: &F, a: &[u32], b: &[u32]) -> (r: u32)
    requires
        arith::is_unit(*fpu),
    ensures
        r == distance(arith::arith(*fpu), a@, b@),
{
    arith::unary(fpu, Op::Sqrt, sq_dist(fpu, a, b))
}

/// The sum of the products of the coordinates that `a` and `b` both have.
pub fn dot<F: Fn(Op, u32, u32, u32) -> u32>(fpu: &F, a: &[u32], b: &[u32]) -> (r: u32)
    requires
        arith::is_unit(*fpu),
    ensures
        r == products(
            arith::arith(*fpu),
            a@,
            b@,
            shorter(a@.len() as int, b@.len() as int),
        ),
{
    let mut sum: u32 = order::ZERO;
    let mut i: usize = 0;
    while i < a.len() && i < b.len()
        invariant
            i <= a@.len(),
            i <= b@.len(),
            arith::is_unit(*fpu),
            sum == products(arith::arith(*fpu), a@, b@, i as int),
        decreases a@.len() - i,
    {
        sum = arith::binary(fpu, Op::Add, sum, arith::binary(fpu, Op::Mul, a[i], b[i]));
        i += 1;
    }
    sum
}

/// The Euclidean length of `v`.
pub fn norm<F: Fn(Op, u32, u32, u32) -> u32>(fpu: &F, v: &[u32]) -> (r: u32)
    requires
        arith::is_unit(*fpu),
    ensures
        r == length(arith::arith(*fpu), v@),
{
    arith::unary(fpu, Op::Sqrt, dot(fpu, v, v))
}

/// `v` with each coordinate divided by `d`.
pub open spec fn divided(ar: Arith, v: Seq<u32>, d: u32) -> Seq<u32> {
    Seq::new(v.len(), |i: int| ar(Op::Div, v[i], d, 0))
}

/// `v` divided by its length, or `v` itself if the length is not above
/// `floor`.
pub open spec fn scaled_to_unit(ar: Arith, v: Seq<u32>, floor: u32) -> Seq<u32> {
    if order::lt(floor, length(ar, v)) {
        divided(ar, v, length(ar, v))
    } else {
        v
    }
}

/// Divides `v` by its length, unless that is not above `floor`.
pub fn normalize<F: Fn(Op, u32, u32, u32) -> u32>(fpu: &F, v: Vec<u32>, floor: u32) -> (r: Vec<u32>)
    requires
        arith::is_unit(*fpu),
    ensures
        r@ == scaled_to_unit(arith::arith(*fpu), v@, floor),
{
    let n: u32 = norm(fpu, &v);
    if !order::less(floor, n) {
        return v;
    }
    let mut out: Vec<u32> = Vec::new();
    let mut i: usize = 0;
    while i < v.len()
        invariant
            i <= v@.len(),
            arith::is_unit(*fpu),
            out@ == divided(arith::arith(*fpu), v@, n).take(i as int),
        decreases v@.len() - i,
    {
        out.push(arith::binary(fpu, Op::Div, v[i], n));
        proof {
            assert(divided(arith::arith(*fpu), v@, n).take(i + 1) =~= divided(
                arith::arith(*fpu),
                v@,
                n,
            ).take(i as int).push(arith::arith(*fpu)(Op::Div, v@[i as int], n, 0)));
        }
        i += 1;
    }
    out
}

} // verus!
