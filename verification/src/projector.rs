//! Random projection to a low dimension.

use vstd::prelude::*;

use crate::arith;
use crate::arith::Arith;
use crate::arith::Noise;
use crate::arith::Op;
use crate::bytes;
use crate::merkle;
use crate::order;
use crate::simd;

verus! {

/// The bit pattern of `-2.0`.
pub const MINUS_TWO: u32 = 0xc000_0000;

/// The bit pattern of twice pi.
pub const TWO_PI: u32 = 0x40c9_0fdb;

/// The approximately normal number that two uniform ones give, by the method
/// of Box and Muller.
pub open spec fn normal(ar: Arith, u1: u32, u2: u32) -> u32 {
    ar(
        Op::Mul,
        ar(Op::Sqrt, ar(Op::Mul, MINUS_TWO, ar(Op::Ln, u1, 0, 0), 0), 0, 0),
        ar(Op::Cos, ar(Op::Mul, TWO_PI, u2, 0), 0, 0),
        0,
    )
}

/// The approximately normal number that two uniform ones give.
pub fn to_normal<F: Fn(Op, u32, u32, u32) -> u32>(fpu: &F, u1: u32, u2: u32) -> (r: u32)
    requires
        arith::is_unit(*fpu),
    ensures
        r == normal(arith::arith(*fpu), u1, u2),
{
    let log: u32 = arith::unary(fpu, Op::Ln, u1);
    let radius: u32 = arith::unary(fpu, Op::Sqrt, arith::binary(fpu, Op::Mul, MINUS_TWO, log));
    let angle: u32 = arith::binary(fpu, Op::Mul, TWO_PI, u2);
    arith::binary(fpu, Op::Mul, radius, arith::unary(fpu, Op::Cos, angle))
}

/// The factor that makes up for the number of rows.
pub open spec fn row_scale(ar: Arith, out_dim: int) -> u32 {
    ar(Op::Div, order::ONE, ar(Op::Sqrt, arith::counted(ar, out_dim), 0, 0), 0)
}

/// The matrix of a fresh projector: entry `e` comes from draws `2 * e` and
/// `2 * e + 1`.
pub open spec fn fresh_matrix(ar: Arith, u: Noise, in_dim: int, out_dim: int, seed: u64) -> Seq<u32> {
    Seq::new(
        (in_dim * out_dim) as nat,
        |e: int|
            ar(
                Op::Mul,
                normal(ar, u(seed, (2 * e) as u64), u(seed, (2 * e + 1) as u64)),
                row_scale(ar, out_dim),
                0,
            ),
    )
}

/// A projection, with a commitment to its matrix of `out_dim` rows.
pub struct Projector {
    pub matrix: Vec<u32>,
    pub in_dim: usize,
    pub out_dim: usize,
    pub commitment: [u8; 32],
}

/// The commitment to a matrix.
pub open spec fn commitment_to(matrix: Seq<u32>) -> Seq<u8> {
    merkle::blake3_of(bytes::flat(matrix, matrix.len() as int))@
}

impl Projector {
    /// The matrix has its rows.
    pub open spec fn wf(&self) -> bool {
        self.matrix@.len() == self.in_dim * self.out_dim
    }

    /// Row `o` of the matrix.
    pub open spec fn row(&self, o: int) -> Seq<u32> {
        self.matrix@.subrange(o * self.in_dim, (o + 1) * self.in_dim)
    }

    /// The projection of `v`.
    pub open spec fn projected(&self, ar: Arith, v: Seq<u32>) -> Seq<u32> {
        Seq::new(self.out_dim as nat, |o: int| simd::dot_product(ar, self.row(o), v))
    }

    /// A projector with approximately normal entries. Even draws of
    /// `uniform` lie above zero and below one, odd ones from zero to below
    /// one.
    pub fn new<F: Fn(Op, u32, u32, u32) -> u32, U: Fn(u64, u64) -> u32>(
        fpu: &F,
        uniform: &U,
        in_dim: usize,
        out_dim: usize,
        seed: u64,
    ) -> (r: Self)
        requires
            arith::is_unit(*fpu),
            arith::is_source(*uniform),
            2 * (in_dim * out_dim) <= usize::MAX,
        ensures
            r.wf(),
            r.in_dim == in_dim,
            r.out_dim == out_dim,
            r.matrix@ == fresh_matrix(
                arith::arith(*fpu),
                arith::noise(*uniform),
                in_dim as int,
                out_dim as int,
                seed,
            ),
            r.commitment@ == commitment_to(r.matrix@),
    {
        let ghost ar = arith::arith(*fpu);
        let ghost target = fresh_matrix(
            ar,
            arith::noise(*uniform),
            in_dim as int,
            out_dim as int,
            seed,
        );
        let root: u32 = arith::unary(fpu, Op::Sqrt, arith::count(fpu, out_dim));
        let scale: u32 = arith::binary(fpu, Op::Div, order::ONE, root);
        proof {
            assert(0 <= in_dim * out_dim) by (nonlinear_arith);
        }
        let total: usize = in_dim * out_dim;
        let mut matrix: Vec<u32> = Vec::new();
        let mut e: usize = 0;
        while e < total
            invariant
                e <= total,
                2 * total <= usize::MAX,
                total == in_dim * out_dim,
                arith::is_unit(*fpu),
                arith::is_source(*uniform),
                ar == arith::arith(*fpu),
                scale == row_scale(ar, out_dim as int),
                target == fresh_matrix(
                    ar,
                    arith::noise(*uniform),
                    in_dim as int,
                    out_dim as int,
                    seed,
                ),
                matrix@.len() == e,
                forall|i: int| 0 <= i < e ==> #[trigger] matrix@[i] == target[i],
            decreases total - e,
        {
            let u1: u32 = arith::draw(uniform, seed, 2 * e as u64);
            let u2: u32 = arith::draw(uniform, seed, 2 * e as u64 + 1);
            let z: u32 = to_normal(fpu, u1, u2);
            matrix.push(arith::binary(fpu, Op::Mul, z, scale));
            e += 1;
        }
        assert(matrix@ =~= target);
        let mut p: Projector = Projector { matrix, in_dim, out_dim, commitment: [0u8;32] };
        p.commit();
        p
    }

    /// Commits to the matrix as it is now.
    pub fn commit(&mut self)
        ensures
            final(self).matrix@ == old(self).matrix@,
            final(self).in_dim == old(self).in_dim,
            final(self).out_dim == old(self).out_dim,
            final(self).commitment@ == commitment_to(old(self).matrix@),
    {
        self.commitment = Self::hash_matrix(&self.matrix);
    }

    /// Whether the commitment still matches the matrix.
    pub fn verify(&self) -> (r: bool)
        ensures
            r == (self.commitment@ == commitment_to(self.matrix@)),
    {
        let expected: [u8; 32] = Self::hash_matrix(&self.matrix);
        merkle::same_digest(&self.commitment, &expected)
    }

    fn hash_matrix(matrix: &[u32]) -> (r: [u8; 32])
        ensures
            r@ == commitment_to(matrix@),
    {
        let mut input: Vec<u8> = Vec::new();
        bytes::push_flat(&mut input, matrix);
        assert(input@ =~= bytes::flat(matrix@, matrix@.len() as int));
        merkle::digest(&input)
    }

    /// The number of coordinates of what is projected.
    pub fn in_dim(&self) -> (r: usize)
        ensures
            r == self.in_dim,
    {
        self.in_dim
    }

    /// The number of coordinates of a projection.
    pub fn out_dim(&self) -> (r: usize)
        ensures
            r == self.out_dim,
    {
        self.out_dim
    }

    /// The projection of `v`.
    pub fn project<F: Fn(Op, u32, u32, u32) -> u32>(&self, fpu: &F, v: &[u32]) -> (r: Vec<u32>)
        requires
            arith::is_unit(*fpu),
            self.wf(),
            v@.len() == self.in_dim,
        ensures
            r@ == self.projected(arith::arith(*fpu), v@),
    {
        let mut out: Vec<u32> = vec![order::ZERO; self.out_dim];
        self.project_into(fpu, v, &mut out);
        out
    }

    /// Writes the projection of `v` to `out`.
    pub fn project_into<F: Fn(Op, u32, u32, u32) -> u32>(
        &self,
        fpu: &F,
        v: &[u32],
        out: &mut Vec<u32>,
    )
        requires
            arith::is_unit(*fpu),
            self.wf(),
            v@.len() == self.in_dim,
            old(out)@.len() == self.out_dim,
        ensures
            final(out)@ == self.projected(arith::arith(*fpu), v@),
    {
        let ghost target = self.projected(arith::arith(*fpu), v@);
        let mut o: usize = 0;
        while o < self.out_dim
            invariant
                o <= self.out_dim,
                arith::is_unit(*fpu),
                self.wf(),
                v@.len() == self.in_dim,
                out@.len() == self.out_dim,
                target == self.projected(arith::arith(*fpu), v@),
                forall|i: int| 0 <= i < o ==> #[trigger] out@[i] == target[i],
            decreases self.out_dim - o,
        {
            proof {
                assert((o + 1) * self.in_dim <= self.in_dim * self.out_dim) by (nonlinear_arith)
                    requires
                        o + 1 <= self.out_dim,
                ;
                assert((o + 1) * self.in_dim == o * self.in_dim + self.in_dim) by (nonlinear_arith);
                assert(0 <= o * self.in_dim) by (nonlinear_arith);
            }
            let size: usize = self.matrix.len();
            let row: &[u32] = vstd::slice::slice_subrange(
                self.matrix.as_slice(),
                o * self.in_dim,
                (o + 1) * self.in_dim,
            );
            assert(row@ == self.row(o as int));
            out.set(o, simd::simd_dot_f32(fpu, row, v));
            o += 1;
        }
        assert(out@ =~= target);
    }
}

/// A matrix that was altered after the commitment is found out, unless its
/// bytes before and after collide.
pub proof fn alterations_are_found(matrix: Seq<u32>, altered: Seq<u32>)
    requires
        matrix != altered,
        !merkle::collide(
            bytes::flat(matrix, matrix.len() as int),
            bytes::flat(altered, altered.len() as int),
        ),
    ensures
        commitment_to(altered) != commitment_to(matrix),
{
    if bytes::flat(matrix, matrix.len() as int) == bytes::flat(altered, altered.len() as int) {
        bytes::flat_tells_apart(matrix, altered);
    }
}

} // verus!
