//! Steering: shifting a query along a frozen direction before a search.
//!
//! A steering vector carries a commitment to its contents, and can be frozen
//! into an envelope of bytes and thawed again.

use vstd::prelude::*;

use crate::arith;
use crate::arith::Arith;
use crate::arith::Op;
use crate::bytes;
use crate::merkle;
use crate::order;
use crate::vectors;

verus! {

/// Why a steering vector was refused.
#[derive(Debug, Clone, Copy, PartialEq, Eq, Structural)]
pub enum SteeringError {
    /// The direction's length is too far from one.
    NotUnitNorm,
    /// The strength is not between zero and one.
    AlphaOutOfRange,
}

impl SteeringError {
    /// The message for a reader.
    pub fn message(&self) -> (r: &'static str)
        ensures
            *self == SteeringError::NotUnitNorm ==> r@ == "direction vector is not unit-norm"@,
            *self == SteeringError::AlphaOutOfRange ==> r@ == "alpha must be in [0.0, 1.0]"@,
    {
        match self {
            SteeringError::NotUnitNorm => "direction vector is not unit-norm",
            SteeringError::AlphaOutOfRange => "alpha must be in [0.0, 1.0]",
        }
    }
}

/// The commitment to a direction and a strength.
pub open spec fn commitment_to(direction: Seq<u32>, alpha: u32) -> Seq<u8> {
    merkle::blake3_of(bytes::flat(direction, direction.len() as int) + bytes::le4(alpha))@
}

/// How far the length of `direction` is from one.
pub open spec fn deviation(ar: Arith, direction: Seq<u32>) -> u32 {
    order::abs(ar(Op::Sub, vectors::length(ar, direction), order::ONE, 0))
}

/// `state` shifted along `direction` by `scale`.
pub open spec fn shifted(ar: Arith, state: Seq<u32>, direction: Seq<u32>, scale: u32) -> Seq<u32> {
    Seq::new(
        state.len(),
        |i: int| ar(Op::Add, state[i], ar(Op::Mul, scale, direction[i], 0), 0),
    )
}

/// `state` steered with the weight `w`: nothing changes if `w` is zero or
/// below.
pub open spec fn steered(
    ar: Arith,
    state: Seq<u32>,
    direction: Seq<u32>,
    alpha: u32,
    w: u32,
) -> Seq<u32> {
    if order::le(w, order::ZERO) {
        state
    } else {
        shifted(ar, state, direction, ar(Op::Mul, alpha, w, 0))
    }
}

/// A direction of unit length and a strength, with a commitment to both.
#[derive(Debug, Clone)]
pub struct SteeringVector {
    pub direction: Vec<u32>,
    pub alpha: u32,
    pub commitment: [u8; 32],
}

fn compute_commitment(direction: &[u32], alpha: u32) -> (r: [u8; 32])
    ensures
        r@ == commitment_to(direction@, alpha),
{
    let mut input: Vec<u8> = Vec::new();
    bytes::push_flat(&mut input, direction);
    bytes::push_le4(&mut input, alpha);
    assert(input@ =~= bytes::flat(direction@, direction@.len() as int) + bytes::le4(alpha));
    merkle::digest(&input)
}

impl SteeringVector {
    /// The length is within `tol` of one and the commitment matches the
    /// contents.
    pub open spec fn verifies(&self, ar: Arith, tol: u32) -> bool {
        &&& order::le(deviation(ar, self.direction@), tol)
        &&& self.commitment@ == commitment_to(self.direction@, self.alpha)
    }

    /// A steering vector, if `alpha` lies between zero and one and the length
    /// of `direction` is within `norm_tol` of one.
    pub fn new<F: Fn(Op, u32, u32, u32) -> u32>(
        fpu: &F,
        direction: Vec<u32>,
        alpha: u32,
        norm_tol: u32,
    ) -> (r: Result<Self, SteeringError>)
        requires
            arith::is_unit(*fpu),
        ensures
            r == Err::<Self, SteeringError>(SteeringError::AlphaOutOfRange) <==> !(order::le(
                order::ZERO,
                alpha,
            ) && order::le(alpha, order::ONE)),
            r == Err::<Self, SteeringError>(SteeringError::NotUnitNorm) <==> order::le(
                order::ZERO,
                alpha,
            ) && order::le(alpha, order::ONE) && !order::le(
                deviation(arith::arith(*fpu), direction@),
                norm_tol,
            ),
            r is Ok ==> r->Ok_0.direction@ == direction@ && r->Ok_0.alpha == alpha
                && r->Ok_0.commitment@ == commitment_to(direction@, alpha),
            r is Ok ==> r->Ok_0.verifies(arith::arith(*fpu), norm_tol),
    {
        if !(order::at_most(order::ZERO, alpha) && order::at_most(alpha, order::ONE)) {
            return Err(SteeringError::AlphaOutOfRange);
        }
        let norm: u32 = vectors::norm(fpu, &direction);
        let off: u32 = order::absolute(arith::binary(fpu, Op::Sub, norm, order::ONE));
        if !order::at_most(off, norm_tol) {
            return Err(SteeringError::NotUnitNorm);
        }
        Ok(SteeringVector::new_unchecked(direction, alpha))
    }

    /// A steering vector, whatever its direction and strength.
    pub fn new_unchecked(direction: Vec<u32>, alpha: u32) -> (r: Self)
        ensures
            r.direction@ == direction@,
            r.alpha == alpha,
            r.commitment@ == commitment_to(direction@, alpha),
    {
        let commitment: [u8; 32] = compute_commitment(&direction, alpha);
        SteeringVector { direction, alpha, commitment }
    }

    /// Whether the length is within `tol` of one and the commitment still
    /// matches the contents.
    pub fn verify<F: Fn(Op, u32, u32, u32) -> u32>(&self, fpu: &F, tol: u32) -> (r: bool)
        requires
            arith::is_unit(*fpu),
        ensures
            r == self.verifies(arith::arith(*fpu), tol),
    {
        let norm: u32 = vectors::norm(fpu, &self.direction);
        let off: u32 = order::absolute(arith::binary(fpu, Op::Sub, norm, order::ONE));
        let expected: [u8; 32] = compute_commitment(&self.direction, self.alpha);
        order::at_most(off, tol) && merkle::same_digest(&expected, &self.commitment)
    }

    /// The number of coordinates.
    pub fn dim(&self) -> (r: usize)
        ensures
            r == self.direction@.len(),
    {
        self.direction.len()
    }

    /// The strength.
    pub fn alpha(&self) -> (r: u32)
        ensures
            r == self.alpha,
    {
        self.alpha
    }

    /// The direction.
    pub fn as_slice(&self) -> (r: &[u32])
        ensures
            r@ == self.direction@,
    {
        self.direction.as_slice()
    }

    /// The commitment.
    pub fn commitment(&self) -> (r: [u8; 32])
        ensures
            r@ == self.commitment@,
    {
        self.commitment
    }

    /// Shifts `state` along the direction by the strength.
    pub fn apply<F: Fn(Op, u32, u32, u32) -> u32>(&self, fpu: &F, state: &mut Vec<u32>)
        requires
            arith::is_unit(*fpu),
            old(state)@.len() == self.direction@.len(),
        ensures
            final(state)@ == shifted(
                arith::arith(*fpu),
                old(state)@,
                self.direction@,
                arith::arith(*fpu)(Op::Mul, self.alpha, order::ONE, 0),
            ),
    {
        self.apply_weighted(fpu, state, order::ONE);
    }

    /// Shifts `state` along the direction by the strength times `w`; does
    /// nothing if `w` is zero or below.
    pub fn apply_weighted<F: Fn(Op, u32, u32, u32) -> u32>(
        &self,
        fpu: &F,
        state: &mut Vec<u32>,
        w: u32,
    )
        requires
            arith::is_unit(*fpu),
            old(state)@.len() == self.direction@.len(),
        ensures
            final(state)@ == steered(
                arith::arith(*fpu),
                old(state)@,
                self.direction@,
                self.alpha,
                w,
            ),
    {
        if order::at_most(w, order::ZERO) {
            return;
        }
        let scale: u32 = arith::binary(fpu, Op::Mul, self.alpha, w);
        let ghost before = state@;
        let ghost target = shifted(arith::arith(*fpu), before, self.direction@, scale);
        let mut i: usize = 0;
        while i < state.len()
            invariant
                i <= state@.len(),
                state@.len() == before.len(),
                before.len() == self.direction@.len(),
                arith::is_unit(*fpu),
                target == shifted(arith::arith(*fpu), before, self.direction@, scale),
                forall|j: int| 0 <= j < i ==> #[trigger] state@[j] == target[j],
                forall|j: int| i <= j < before.len() ==> #[trigger] state@[j] == before[j],
            decreases state@.len() - i,
        {
            let step: u32 = arith::binary(fpu, Op::Mul, scale, self.direction[i]);
            let moved: u32 = arith::binary(fpu, Op::Add, state[i], step);
            state.set(i, moved);
            i += 1;
        }
        assert(state@ =~= target);
    }
}

/// The bytes of a steering vector: the number of coordinates, the
/// coordinates, and the strength.
pub open spec fn payload_of(direction: Seq<u32>, alpha: u32) -> Seq<u8> {
    bytes::le4(direction.len() as u32) + bytes::flat(direction, direction.len() as int)
        + bytes::le4(alpha)
}

/// The number of coordinates that `payload` announces.
pub open spec fn announced(payload: Seq<u8>) -> int {
    bytes::word(payload, 0) as int
}

/// The coordinates in `payload`.
pub open spec fn direction_in(payload: Seq<u8>) -> Seq<u32> {
    Seq::new(announced(payload) as nat, |i: int| bytes::word(payload, 4 + 4 * i))
}

/// The strength in `payload`.
pub open spec fn alpha_in(payload: Seq<u8>) -> u32 {
    bytes::word(payload, 4 + 4 * announced(payload))
}

/// `payload` has the length that it announces, and no number in it is NaN.
pub open spec fn readable(payload: Seq<u8>) -> bool {
    &&& payload.len() >= 4
    &&& payload.len() == 4 + announced(payload) * 4 + 4
    &&& forall|i: int|
        0 <= i < announced(payload) ==> !order::nan(#[trigger] direction_in(payload)[i])
    &&& !order::nan(alpha_in(payload))
}

/// A steering vector as bytes, with a commitment to them.
#[derive(Debug, Clone)]
pub struct SteeringEnvelope {
    pub commitment: [u8; 32],
    pub payload: Vec<u8>,
}

impl SteeringEnvelope {
    /// Freezes a steering vector.
    pub fn freeze(v: &SteeringVector) -> (r: Self)
        ensures
            r.payload@ == payload_of(v.direction@, v.alpha),
            r.commitment@ == merkle::blake3_of(r.payload@)@,
    {
        let mut payload: Vec<u8> = Vec::new();
        bytes::push_le4(&mut payload, v.direction.len() as u32);
        bytes::push_flat(&mut payload, &v.direction);
        bytes::push_le4(&mut payload, v.alpha);
        assert(payload@ =~= payload_of(v.direction@, v.alpha));
        let commitment: [u8; 32] = merkle::digest(&payload);
        SteeringEnvelope { commitment, payload }
    }

    /// Whether the commitment matches the payload.
    pub fn verify(&self) -> (r: bool)
        ensures
            r == (merkle::blake3_of(self.payload@)@ == self.commitment@),
    {
        let expected: [u8; 32] = merkle::digest(&self.payload);
        merkle::same_digest(&expected, &self.commitment)
    }

    /// Thaws the steering vector. `None` if the commitment does not match the
    /// payload, or if the payload is malformed.
    pub fn thaw(&self) -> (r: Option<SteeringVector>)
        ensures
            r is Some <==> merkle::blake3_of(self.payload@)@ == self.commitment@ && readable(
                self.payload@,
            ),
            r is Some ==> r->0.direction@ == direction_in(self.payload@) && r->0.alpha == alpha_in(
                self.payload@,
            ) && r->0.commitment@ == commitment_to(r->0.direction@, r->0.alpha),
    {
        if !self.verify() {
            return None;
        }
        Self::deserialize(&self.payload)
    }

    /// The commitment.
    pub fn commitment(&self) -> (r: [u8; 32])
        ensures
            r@ == self.commitment@,
    {
        self.commitment
    }

    /// The payload.
    pub fn payload(&self) -> (r: &[u8])
        ensures
            r@ == self.payload@,
    {
        self.payload.as_slice()
    }

    fn deserialize(payload: &[u8]) -> (r: Option<SteeringVector>)
        ensures
            r is Some <==> readable(payload@),
            r is Some ==> r->0.direction@ == direction_in(payload@) && r->0.alpha == alpha_in(
                payload@,
            ) && r->0.commitment@ == commitment_to(r->0.direction@, r->0.alpha),
    {
        if payload.len() < 4 {
            return None;
        }
        let dim: u32 = bytes::read_word(payload, 0);
        let total: usize = payload.len();
        if total as u64 != 8 + 4 * dim as u64 {
            return None;
        }
        let mut direction: Vec<u32> = Vec::new();
        let mut i: u32 = 0;
        while i < dim
            invariant
                i <= dim,
                dim == announced(payload@),
                payload@.len() == 8 + 4 * dim,
                total == payload@.len(),
                direction@.len() == i,
                forall|j: int|
                    0 <= j < i ==> #[trigger] direction@[j] == direction_in(payload@)[j]
                        && !order::nan(direction@[j]),
            decreases dim - i,
        {
            let f: u32 = bytes::read_word(payload, 4 + 4 * i as usize);
            if order::is_nan(f) {
                assert(direction_in(payload@)[i as int] == f);
                return None;
            }
            direction.push(f);
            i += 1;
        }
        let alpha: u32 = bytes::read_word(payload, 4 + 4 * dim as usize);
        if order::is_nan(alpha) {
            return None;
        }
        assert(direction@ =~= direction_in(payload@));
        assert forall|i: int| 0 <= i < announced(payload@) implies !order::nan(
            #[trigger] direction_in(payload@)[i],
        ) by {
            assert(direction@[i] == direction_in(payload@)[i]);
        }
        Some(SteeringVector::new_unchecked(direction, alpha))
    }
}

/// Thawing gives back what was frozen, where the number of coordinates fits
/// the format and no number is NaN.
pub proof fn thaw_undoes_freeze(direction: Seq<u32>, alpha: u32)
    requires
        direction.len() <= u32::MAX,
        !order::nan(alpha),
        forall|i: int| 0 <= i < direction.len() ==> !order::nan(#[trigger] direction[i]),
    ensures
        readable(payload_of(direction, alpha)),
        direction_in(payload_of(direction, alpha)) == direction,
        alpha_in(payload_of(direction, alpha)) == alpha,
{
    let n = direction.len() as int;
    let p = payload_of(direction, alpha);
    let body = bytes::flat(direction, n);
    bytes::flat_words(direction, n);
    assert(p.subrange(0, 4) =~= bytes::le4(n as u32));
    bytes::word_of_bytes(p, 0, n as u32);
    assert(p.len() == 8 + 4 * n);
    assert(p.subrange(4 + 4 * n, 8 + 4 * n) =~= bytes::le4(alpha));
    bytes::word_of_bytes(p, 4 + 4 * n, alpha);
    assert forall|i: int| 0 <= i < n implies #[trigger] direction_in(p)[i] == direction[i] by {
        assert(bytes::word(body, 4 * i) == direction[i]);
        assert(p[4 + 4 * i] == body[4 * i]);
        assert(p[4 + 4 * i + 1] == body[4 * i + 1]);
        assert(p[4 + 4 * i + 2] == body[4 * i + 2]);
        assert(p[4 + 4 * i + 3] == body[4 * i + 3]);
    }
    assert(direction_in(p) =~= direction);
}

/// A payload that was altered after freezing is refused, unless it and the
/// one that was frozen collide.
pub proof fn altered_payloads_are_refused(
    frozen: SteeringEnvelope,
    altered: SteeringEnvelope,
)
    requires
        frozen.commitment@ == merkle::blake3_of(frozen.payload@)@,
        altered.commitment@ == frozen.commitment@,
        altered.payload@ != frozen.payload@,
        !merkle::collide(frozen.payload@, altered.payload@),
    ensures
        merkle::blake3_of(altered.payload@)@ != altered.commitment@,
{
}

/// A direction or a strength that was altered no longer matches the
/// commitment, unless the bytes before and after collide.
pub proof fn alterations_are_found(
    direction: Seq<u32>,
    alpha: u32,
    new_direction: Seq<u32>,
    new_alpha: u32,
)
    requires
        direction != new_direction || alpha != new_alpha,
        !merkle::collide(
            bytes::flat(direction, direction.len() as int) + bytes::le4(alpha),
            bytes::flat(new_direction, new_direction.len() as int) + bytes::le4(new_alpha),
        ),
    ensures
        commitment_to(new_direction, new_alpha) != commitment_to(direction, alpha),
{
    let n = direction.len() as int;
    let m = new_direction.len() as int;
    let f = bytes::flat(direction, n);
    let g = bytes::flat(new_direction, m);
    let x = f + bytes::le4(alpha);
    let y = g + bytes::le4(new_alpha);
    if x == y {
        assert(x.len() == f.len() + 4 && y.len() == g.len() + 4);
        assert(f =~= x.take(f.len() as int));
        assert(g =~= y.take(f.len() as int));
        assert(bytes::le4(alpha) =~= x.skip(f.len() as int));
        assert(bytes::le4(new_alpha) =~= y.skip(f.len() as int));
        bytes::flat_tells_apart(direction, new_direction);
        bytes::le4_tells_apart(alpha, new_alpha);
    }
}

} // verus!
