//! The two sums that scoring spends its time in: dot products, and sums of
//! looked-up table entries.
//!
//! Both run four sums side by side over the positions that are equal modulo
//! four, add the four together, and then take the rest one by one.

use vstd::prelude::*;

use crate::arith;
use crate::arith::Arith;
use crate::arith::Op;
use crate::order;

verus! {

/// The fused sum of `a[i] * b[i]` over the positions `k`, `k + 4`, ... of the
/// first `chunks` groups of four.
pub open spec fn dot_lane(ar: Arith, a: Seq<u32>, b: Seq<u32>, k: int, chunks: int) -> u32
    decreases chunks,
{
    if chunks <= 0 {
        order::ZERO
    } else {
        ar(
            Op::Fma,
            a[4 * (chunks - 1) + k],
            b[4 * (chunks - 1) + k],
            dot_lane(ar, a, b, k, chunks - 1),
        )
    }
}

/// Four sums, added up.
pub open spec fn four(ar: Arith, s0: u32, s1: u32, s2: u32, s3: u32) -> u32 {
    ar(Op::Add, ar(Op::Add, ar(Op::Add, ar(Op::Add, order::ZERO, s0, 0), s1, 0), s2, 0), s3, 0)
}

/// The dot product of the first `n` coordinates, of which the first
/// `4 * chunks` are taken in groups.
pub open spec fn dot_tail(ar: Arith, a: Seq<u32>, b: Seq<u32>, chunks: int, n: int) -> u32
    decreases n - 4 * chunks,
{
    if n <= 4 * chunks {
        four(
            ar,
            dot_lane(ar, a, b, 0, chunks),
            dot_lane(ar, a, b, 1, chunks),
            dot_lane(ar, a, b, 2, chunks),
            dot_lane(ar, a, b, 3, chunks),
        )
    } else {
        ar(Op::Fma, a[n - 1], b[n - 1], dot_tail(ar, a, b, chunks, n - 1))
    }
}

/// The dot product of two vectors of one length.
pub open spec fn dot_product(ar: Arith, a: Seq<u32>, b: Seq<u32>) -> u32 {
    dot_tail(ar, a, b, a.len() as int / 4, a.len() as int)
}

/// The dot product of `a` and `b`.
pub fn simd_dot_f32<F: Fn(Op, u32, u32, u32) -> u32>(fpu: &F, a: &[u32], b: &[u32]) -> (r: u32)
    requires
        arith::is_unit(*fpu),
        a@.len() == b@.len(),
    ensures
        r == dot_product(arith::arith(*fpu), a@, b@),
{
    scalar_dot_f32(fpu, a, b, a.len())
}

/// The dot product of the first `len` coordinates of `a` and `b`.
pub fn scalar_dot_f32<F: Fn(Op, u32, u32, u32) -> u32>(
    fpu: &F,
    a: &[u32],
    b: &[u32],
    len: usize,
) -> (r: u32)
    requires
        arith::is_unit(*fpu),
        len <= a@.len(),
        len <= b@.len(),
    ensures
        r == dot_tail(arith::arith(*fpu), a@, b@, len as int / 4, len as int),
{
    let ghost ar = arith::arith(*fpu);
    let chunks: usize = len / 4;
    let mut s0: u32 = order::ZERO;
    let mut s1: u32 = order::ZERO;
    let mut s2: u32 = order::ZERO;
    let mut s3: u32 = order::ZERO;
    let mut c: usize = 0;
    let mut i: usize = 0;
    while c < chunks
        invariant
            c <= chunks,
            i == 4 * c,
            4 * chunks <= len,
            len <= a@.len(),
            len <= b@.len(),
            arith::is_unit(*fpu),
            ar == arith::arith(*fpu),
            s0 == dot_lane(ar, a@, b@, 0, c as int),
            s1 == dot_lane(ar, a@, b@, 1, c as int),
            s2 == dot_lane(ar, a@, b@, 2, c as int),
            s3 == dot_lane(ar, a@, b@, 3, c as int),
        decreases chunks - c,
    {
        s0 = arith::compute(fpu, Op::Fma, a[i], b[i], s0);
        s1 = arith::compute(fpu, Op::Fma, a[i + 1], b[i + 1], s1);
        s2 = arith::compute(fpu, Op::Fma, a[i + 2], b[i + 2], s2);
        s3 = arith::compute(fpu, Op::Fma, a[i + 3], b[i + 3], s3);
        i += 4;
        c += 1;
    }
    let mut sum: u32 = add_four(fpu, s0, s1, s2, s3);
    while i < len
        invariant
            4 * chunks <= i <= len,
            len <= a@.len(),
            len <= b@.len(),
            arith::is_unit(*fpu),
            ar == arith::arith(*fpu),
            sum == dot_tail(ar, a@, b@, chunks as int, i as int),
        decreases len - i,
    {
        sum = arith::compute(fpu, Op::Fma, a[i], b[i], sum);
        i += 1;
    }
    sum
}

fn add_four<F: Fn(Op, u32, u32, u32) -> u32>(fpu: &F, s0: u32, s1: u32, s2: u32, s3: u32) -> (r: u32)
    requires
        arith::is_unit(*fpu),
    ensures
        r == four(arith::arith(*fpu), s0, s1, s2, s3),
{
    let t0: u32 = arith::binary(fpu, Op::Add, order::ZERO, s0);
    let t1: u32 = arith::binary(fpu, Op::Add, t0, s1);
    let t2: u32 = arith::binary(fpu, Op::Add, t1, s2);
    arith::binary(fpu, Op::Add, t2, s3)
}

/// The sum of the terms at the positions `k`, `k + 4`, ... of the first
/// `chunks` groups of four.
pub open spec fn term_lane(ar: Arith, terms: Seq<u32>, k: int, chunks: int) -> u32
    decreases chunks,
{
    if chunks <= 0 {
        order::ZERO
    } else {
        ar(Op::Add, term_lane(ar, terms, k, chunks - 1), terms[4 * (chunks - 1) + k], 0)
    }
}

/// The sum of the first `n` terms, of which the first `4 * chunks` are taken
/// in groups.
pub open spec fn term_tail(ar: Arith, terms: Seq<u32>, chunks: int, n: int) -> u32
    decreases n - 4 * chunks,
{
    if n <= 4 * chunks {
        four(
            ar,
            term_lane(ar, terms, 0, chunks),
            term_lane(ar, terms, 1, chunks),
            term_lane(ar, terms, 2, chunks),
            term_lane(ar, terms, 3, chunks),
        )
    } else {
        ar(Op::Add, term_tail(ar, terms, chunks, n - 1), terms[n - 1], 0)
    }
}

/// The sum of all terms.
pub open spec fn term_sum(ar: Arith, terms: Seq<u32>) -> u32 {
    term_tail(ar, terms, terms.len() as int / 4, terms.len() as int)
}

/// The entries of `table` that `row_base` and the codes select together.
pub open spec fn entries(table: Seq<u32>, row_base: Seq<u32>, codes: Seq<u8>) -> Seq<u32> {
    Seq::new(codes.len(), |i: int| table[row_base[i] + codes[i]])
}

/// Every code selects an entry.
pub open spec fn selects(table: Seq<u32>, row_base: Seq<u32>, codes: Seq<u8>) -> bool {
    &&& row_base.len() == codes.len()
    &&& table.len() <= u32::MAX
    &&& forall|i: int|
        0 <= i < codes.len() ==> #[trigger] row_base[i] + codes[i] < table.len()
}

/// The sum, over the positions of `codes`, of the table entries that
/// `row_base` and the codes select together.
pub fn simd_lut_row_sum_f32<F: Fn(Op, u32, u32, u32) -> u32>(
    fpu: &F,
    table: &[u32],
    row_base: &[u32],
    codes: &[u8],
) -> (r: u32)
    requires
        arith::is_unit(*fpu),
        selects(table@, row_base@, codes@),
    ensures
        r == term_sum(arith::arith(*fpu), entries(table@, row_base@, codes@)),
{
    scalar_lut_row_sum_f32(fpu, table, row_base, codes)
}

/// The same sum, without vector instructions.
pub fn scalar_lut_row_sum_f32<F: Fn(Op, u32, u32, u32) -> u32>(
    fpu: &F,
    table: &[u32],
    row_base: &[u32],
    codes: &[u8],
) -> (r: u32)
    requires
        arith::is_unit(*fpu),
        selects(table@, row_base@, codes@),
    ensures
        r == term_sum(arith::arith(*fpu), entries(table@, row_base@, codes@)),
{
    let ghost ar = arith::arith(*fpu);
    let ghost terms = entries(table@, row_base@, codes@);
    let n: usize = codes.len();
    let chunks: usize = n / 4;
    let mut s0: u32 = order::ZERO;
    let mut s1: u32 = order::ZERO;
    let mut s2: u32 = order::ZERO;
    let mut s3: u32 = order::ZERO;
    let mut c: usize = 0;
    let mut i: usize = 0;
    while c < chunks
        invariant
            c <= chunks,
            i == 4 * c,
            4 * chunks <= n,
            n == codes@.len(),
            selects(table@, row_base@, codes@),
            terms == entries(table@, row_base@, codes@),
            arith::is_unit(*fpu),
            ar == arith::arith(*fpu),
            s0 == term_lane(ar, terms, 0, c as int),
            s1 == term_lane(ar, terms, 1, c as int),
            s2 == term_lane(ar, terms, 2, c as int),
            s3 == term_lane(ar, terms, 3, c as int),
        decreases chunks - c,
    {
        s0 = arith::binary(fpu, Op::Add, s0, lookup(table, row_base, codes, i));
        s1 = arith::binary(fpu, Op::Add, s1, lookup(table, row_base, codes, i + 1));
        s2 = arith::binary(fpu, Op::Add, s2, lookup(table, row_base, codes, i + 2));
        s3 = arith::binary(fpu, Op::Add, s3, lookup(table, row_base, codes, i + 3));
        i += 4;
        c += 1;
    }
    let mut sum: u32 = add_four(fpu, s0, s1, s2, s3);
    while i < n
        invariant
            4 * chunks <= i <= n,
            n == codes@.len(),
            selects(table@, row_base@, codes@),
            terms == entries(table@, row_base@, codes@),
            arith::is_unit(*fpu),
            ar == arith::arith(*fpu),
            sum == term_tail(ar, terms, chunks as int, i as int),
        decreases n - i,
    {
        sum = arith::binary(fpu, Op::Add, sum, lookup(table, row_base, codes, i));
        i += 1;
    }
    sum
}

fn lookup(table: &[u32], row_base: &[u32], codes: &[u8], i: usize) -> (r: u32)
    requires
        selects(table@, row_base@, codes@),
        i < codes@.len(),
    ensures
        r == entries(table@, row_base@, codes@)[i as int],
{
    table[(row_base[i] + codes[i] as u32) as usize]
}

} // verus!
