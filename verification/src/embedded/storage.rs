//! Vectors of fixed size: products, similarities, and their form as bytes.

use vstd::prelude::*;

use super::DIM;
use crate::arith;
use crate::arith::Arith;
use crate::arith::Op;
use crate::bytes;
use crate::order;
use crate::superpose;

verus! {

/// The number of bytes of a vector.
pub const VECTOR_BYTES: usize = 3072;

/// The number of sums that a product is spread over.
pub const LANES: usize = 8;

/// The bit pattern of `0.5`.
pub const HALF: u32 = 0x3f00_0000;

/// The bit pattern of `1.5`.
pub const ONE_AND_A_HALF: u32 = 0x3fc0_0000;

/// From this, half the bit pattern of a number is taken away for a first
/// guess at the inverse of its square root.
pub const INVERSE_ROOT_SEED: u32 = 0x5f37_59df;

/// A vector and its id.
#[derive(Clone, Debug, PartialEq)]
pub struct ZeroAllocLatent {
    pub data: [u32; DIM],
    pub id: u64,
}

impl ZeroAllocLatent {
    /// A vector with its id.
    pub fn new(data: [u32; DIM], id: u64) -> (r: Self)
        ensures
            r.data == data,
            r.id == id,
    {
        ZeroAllocLatent { data, id }
    }
}

/// The sum in one lane: every eighth product from `lane` on, of the first `n`
/// rounds.
pub open spec fn lane_sum(ar: Arith, a: Seq<u32>, b: Seq<u32>, lane: int, n: int) -> u32
    decreases n,
{
    if n <= 0 {
        order::ZERO
    } else {
        let i = (n - 1) * LANES + lane;
        ar(Op::Add, lane_sum(ar, a, b, lane, n - 1), ar(Op::Mul, a[i], b[i], 0), 0)
    }
}

/// The sums of the first `n` lanes, one after the other.
pub open spec fn lanes_total(ar: Arith, a: Seq<u32>, b: Seq<u32>, n: int) -> u32
    decreases n,
{
    if n <= 0 {
        order::ZERO
    } else {
        ar(
            Op::Add,
            lanes_total(ar, a, b, n - 1),
            lane_sum(ar, a, b, n - 1, (DIM / LANES) as int),
            0,
        )
    }
}

/// The dot product of `a` and `b`.
pub open spec fn product(ar: Arith, a: Seq<u32>, b: Seq<u32>) -> u32 {
    lanes_total(ar, a, b, LANES as int)
}

/// The dot product of `a` and `b`, summed in eight lanes.
pub fn dot_product<F: Fn(Op, u32, u32, u32) -> u32>(
    fpu: &F,
    a: &[u32; DIM],
    b: &[u32; DIM],
) -> (r: u32)
    requires
        arith::is_unit(*fpu),
    ensures
        r == product(arith::arith(*fpu), a@, b@),
{
    let ghost ar = arith::arith(*fpu);
    let mut acc: [u32; LANES] = [order::ZERO; LANES];
    let mut round: usize = 0;
    while round < DIM / LANES
        invariant
            round <= DIM / LANES,
            arith::is_unit(*fpu),
            ar == arith::arith(*fpu),
            forall|l: int|
                0 <= l < LANES ==> (#[trigger] acc@[l]) == lane_sum(ar, a@, b@, l, round as int),
        decreases DIM / LANES - round,
    {
        let mut lane: usize = 0;
        while lane < LANES
            invariant
                lane <= LANES,
                round < DIM / LANES,
                arith::is_unit(*fpu),
                ar == arith::arith(*fpu),
                forall|l: int|
                    0 <= l < lane ==> (#[trigger] acc@[l]) == lane_sum(ar, a@, b@, l, round + 1),
                forall|l: int|
                    lane <= l < LANES ==> (#[trigger] acc@[l]) == lane_sum(
                        ar,
                        a@,
                        b@,
                        l,
                        round as int,
                    ),
            decreases LANES - lane,
        {
            let i: usize = round * LANES + lane;
            let term: u32 = arith::binary(fpu, Op::Mul, a[i], b[i]);
            assert(acc@[lane as int] == lane_sum(ar, a@, b@, lane as int, round as int));
            let sum: u32 = arith::binary(fpu, Op::Add, acc[lane], term);
            acc[lane] = sum;
            lane += 1;
        }
        round += 1;
    }
    let mut sum: u32 = order::ZERO;
    let mut lane: usize = 0;
    while lane < LANES
        invariant
            lane <= LANES,
            round == DIM / LANES,
            arith::is_unit(*fpu),
            ar == arith::arith(*fpu),
            forall|l: int|
                0 <= l < LANES ==> (#[trigger] acc@[l]) == lane_sum(ar, a@, b@, l, round as int),
            sum == lanes_total(ar, a@, b@, lane as int),
        decreases LANES - lane,
    {
        assert(acc@[lane as int] == lane_sum(ar, a@, b@, lane as int, round as int));
        sum = arith::binary(fpu, Op::Add, sum, acc[lane]);
        lane += 1;
    }
    sum
}

/// The cosine of the angle between `a` and `b`; zero if either has next to no
/// length.
pub open spec fn similarity(ar: Arith, a: Seq<u32>, b: Seq<u32>) -> u32 {
    let denom = ar(
        Op::Mul,
        ar(Op::Sqrt, product(ar, a, a), 0, 0),
        ar(Op::Sqrt, product(ar, b, b), 0, 0),
        0,
    );
    if order::lt(denom, superpose::TINY) {
        order::ZERO
    } else {
        ar(Op::Div, product(ar, a, b), denom, 0)
    }
}

/// The cosine of the angle between `a` and `b`; zero if either has next to no
/// length.
pub fn cosine_similarity<F: Fn(Op, u32, u32, u32) -> u32>(
    fpu: &F,
    a: &[u32; DIM],
    b: &[u32; DIM],
) -> (r: u32)
    requires
        arith::is_unit(*fpu),
    ensures
        r == similarity(arith::arith(*fpu), a@, b@),
{
    let dot: u32 = dot_product(fpu, a, b);
    let first: u32 = sqrt_f32(fpu, dot_product(fpu, a, a));
    let second: u32 = sqrt_f32(fpu, dot_product(fpu, b, b));
    let denom: u32 = arith::binary(fpu, Op::Mul, first, second);
    if order::less(denom, superpose::TINY) {
        order::ZERO
    } else {
        arith::binary(fpu, Op::Div, dot, denom)
    }
}

/// The square root, as the arithmetic unit has it.
pub fn sqrt_f32<F: Fn(Op, u32, u32, u32) -> u32>(fpu: &F, x: u32) -> (r: u32)
    requires
        arith::is_unit(*fpu),
    ensures
        r == arith::arith(*fpu)(Op::Sqrt, x, 0, 0),
{
    arith::unary(fpu, Op::Sqrt, x)
}

/// The guess at the inverse of the square root of `x` after `n` refinements.
pub open spec fn inverse_root(ar: Arith, x: u32, n: int) -> u32
    decreases n,
{
    if n <= 0 {
        (INVERSE_ROOT_SEED - x / 2) as u32
    } else {
        let y = inverse_root(ar, x, n - 1);
        let half = ar(Op::Mul, HALF, x, 0);
        let correction = ar(
            Op::Sub,
            ONE_AND_A_HALF,
            ar(Op::Mul, ar(Op::Mul, half, y, 0), y, 0),
            0,
        );
        ar(Op::Mul, y, correction, 0)
    }
}

/// The square root found without the help of a square root: a guess from the
/// bit pattern, refined three times. Zero for numbers that are not positive.
/// A NaN with the sign bit set has no guess.
pub fn software_sqrt_f32<F: Fn(Op, u32, u32, u32) -> u32>(fpu: &F, x: u32) -> (r: u32)
    requires
        arith::is_unit(*fpu),
        !(order::nan(x) && order::negative(x)),
    ensures
        order::le(x, order::ZERO) ==> r == order::ZERO,
        !order::le(x, order::ZERO) ==> r == arith::arith(*fpu)(
            Op::Mul,
            x,
            inverse_root(arith::arith(*fpu), x, 3),
            0,
        ),
{
    let ghost ar = arith::arith(*fpu);
    if order::at_most(x, order::ZERO) {
        return order::ZERO;
    }
    let half_x: u32 = arith::binary(fpu, Op::Mul, HALF, x);
    let mut y: u32 = INVERSE_ROOT_SEED - x / 2;
    let mut i: usize = 0;
    while i < 3
        invariant
            i <= 3,
            arith::is_unit(*fpu),
            ar == arith::arith(*fpu),
            half_x == ar(Op::Mul, HALF, x, 0),
            y == inverse_root(ar, x, i as int),
        decreases 3 - i,
    {
        let square: u32 = arith::binary(fpu, Op::Mul, arith::binary(fpu, Op::Mul, half_x, y), y);
        let correction: u32 = arith::binary(fpu, Op::Sub, ONE_AND_A_HALF, square);
        y = arith::binary(fpu, Op::Mul, y, correction);
        i += 1;
    }
    arith::binary(fpu, Op::Mul, x, y)
}

/// `bytes` hold a vector and start at an address where numbers can stand.
pub open spec fn viewable(bytes: Seq<u8>, address: usize) -> bool {
    bytes.len() == VECTOR_BYTES && address % 4 == 0
}

/// Reads the bytes that start at `address` as a vector, each coordinate in
/// four bytes with the lowest first. `None` unless they have the length of a
/// vector and `address` is a multiple of four.
pub fn view_bytes_as_vector(bytes: &[u8], address: usize) -> (r: Option<[u32; DIM]>)
    ensures
        r is Some <==> viewable(bytes@, address),
        r is Some ==> forall|i: int|
            0 <= i < DIM ==> (#[trigger] r->0@[i]) == bytes::word(bytes@, 4 * i),
{
    if bytes.len() != VECTOR_BYTES {
        return None;
    }
    if address % 4 != 0 {
        return None;
    }
    let mut v: [u32; DIM] = [0; DIM];
    let mut i: usize = 0;
    while i < DIM
        invariant
            i <= DIM,
            bytes@.len() == VECTOR_BYTES,
            forall|j: int| 0 <= j < i ==> (#[trigger] v@[j]) == bytes::word(bytes@, 4 * j),
        decreases DIM - i,
    {
        let w: u32 = bytes::read_word(bytes, 4 * i);
        v[i] = w;
        i += 1;
    }
    Some(v)
}

} // verus!
