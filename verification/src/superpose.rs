//! Latent superposition: several key and value pairs in one vector.
//!
//! A pair is bound by circular convolution and added to the slot's bundle;
//! circular correlation with a key takes an approximation of its value back
//! out.

use vstd::prelude::*;

use crate::arith;
use crate::arith::Arith;
use crate::arith::Op;
use crate::order;
use crate::vectors;

verus! {

/// The bit pattern of `1e-9`: what is shorter counts as zero.
pub const TINY: u32 = 0x3089_705f;

/// The first `m` terms of coordinate `i` of the convolution of `a` and `b`.
pub open spec fn convolved(ar: Arith, a: Seq<u32>, b: Seq<u32>, i: int, m: int) -> u32
    decreases m,
{
    if m <= 0 {
        order::ZERO
    } else {
        ar(
            Op::Add,
            convolved(ar, a, b, i, m - 1),
            ar(Op::Mul, a[m - 1], b[(i - (m - 1)) % (a.len() as int)], 0),
            0,
        )
    }
}

/// The circular convolution of `a` and `b`.
pub open spec fn convolution(ar: Arith, a: Seq<u32>, b: Seq<u32>) -> Seq<u32> {
    Seq::new(a.len(), |i: int| convolved(ar, a, b, i, a.len() as int))
}

/// The first `m` terms of coordinate `i` of the correlation of `key` and
/// `bundle`.
pub open spec fn correlated(ar: Arith, key: Seq<u32>, bundle: Seq<u32>, i: int, m: int) -> u32
    decreases m,
{
    if m <= 0 {
        order::ZERO
    } else {
        ar(
            Op::Add,
            correlated(ar, key, bundle, i, m - 1),
            ar(Op::Mul, key[m - 1], bundle[(i + (m - 1)) % (key.len() as int)], 0),
            0,
        )
    }
}

/// The circular correlation of `key` and `bundle`.
pub open spec fn correlation(ar: Arith, key: Seq<u32>, bundle: Seq<u32>) -> Seq<u32> {
    Seq::new(key.len(), |i: int| correlated(ar, key, bundle, i, key.len() as int))
}

/// Binds `a` and `b` into one vector of the same size.
pub fn circular_convolve<F: Fn(Op, u32, u32, u32) -> u32>(fpu: &F, a: &[u32], b: &[u32]) -> (r: Vec<
    u32,
>)
    requires
        arith::is_unit(*fpu),
        a@.len() == b@.len(),
    ensures
        r@ == convolution(arith::arith(*fpu), a@, b@),
{
    let ghost ar = arith::arith(*fpu);
    let n: usize = a.len();
    let mut out: Vec<u32> = Vec::new();
    let mut i: usize = 0;
    while i < n
        invariant
            i <= n,
            n == a@.len(),
            n == b@.len(),
            arith::is_unit(*fpu),
            ar == arith::arith(*fpu),
            out@ == convolution(ar, a@, b@).take(i as int),
        decreases n - i,
    {
        let mut sum: u32 = order::ZERO;
        let mut j: usize = 0;
        while j < n
            invariant
                i < n,
                j <= n,
                n == a@.len(),
                n == b@.len(),
                arith::is_unit(*fpu),
                ar == arith::arith(*fpu),
                sum == convolved(ar, a@, b@, i as int, j as int),
            decreases n - j,
        {
            let at: usize = if j <= i {
                i - j
            } else {
                n - (j - i)
            };
            proof {
                if j <= i {
                    vstd::arithmetic::div_mod::lemma_small_mod((i - j) as nat, n as nat);
                } else {
                    vstd::arithmetic::div_mod::lemma_fundamental_div_mod_converse(
                        i - j,
                        n as int,
                        -1,
                        n - (j - i),
                    );
                }
                assert(at == (i - j) % (n as int));
            }
            sum = arith::binary(fpu, Op::Add, sum, arith::binary(fpu, Op::Mul, a[j], b[at]));
            j += 1;
        }
        out.push(sum);
        proof {
            assert(convolution(ar, a@, b@).take(i + 1) =~= convolution(ar, a@, b@).take(
                i as int,
            ).push(sum));
        }
        i += 1;
    }
    out
}

/// Approximately undoes a binding: the part of `bundle` that was bound to
/// `key`.
pub fn circular_correlate<F: Fn(Op, u32, u32, u32) -> u32>(
    fpu: &F,
    key: &[u32],
    bundle: &[u32],
) -> (r: Vec<u32>)
    requires
        arith::is_unit(*fpu),
        key@.len() == bundle@.len(),
    ensures
        r@ == correlation(arith::arith(*fpu), key@, bundle@),
{
    let ghost ar = arith::arith(*fpu);
    let n: usize = key.len();
    let mut out: Vec<u32> = Vec::new();
    let mut i: usize = 0;
    while i < n
        invariant
            i <= n,
            n == key@.len(),
            n == bundle@.len(),
            arith::is_unit(*fpu),
            ar == arith::arith(*fpu),
            out@ == correlation(ar, key@, bundle@).take(i as int),
        decreases n - i,
    {
        let mut sum: u32 = order::ZERO;
        let mut j: usize = 0;
        while j < n
            invariant
                i < n,
                j <= n,
                n == key@.len(),
                n == bundle@.len(),
                arith::is_unit(*fpu),
                ar == arith::arith(*fpu),
                sum == correlated(ar, key@, bundle@, i as int, j as int),
            decreases n - j,
        {
            let at: usize = if i < n - j {
                i + j
            } else {
                i - (n - j)
            };
            proof {
                if i < n - j {
                    vstd::arithmetic::div_mod::lemma_small_mod((i + j) as nat, n as nat);
                } else {
                    vstd::arithmetic::div_mod::lemma_fundamental_div_mod_converse(
                        i + j,
                        n as int,
                        1,
                        i - (n - j),
                    );
                }
                assert(at == (i + j) % (n as int));
            }
            sum = arith::binary(fpu, Op::Add, sum, arith::binary(fpu, Op::Mul, key[j], bundle[at]));
            j += 1;
        }
        out.push(sum);
        proof {
            assert(correlation(ar, key@, bundle@).take(i + 1) =~= correlation(
                ar,
                key@,
                bundle@,
            ).take(i as int).push(sum));
        }
        i += 1;
    }
    out
}

/// The cosine of the angle between `a` and `b`; zero if one of them is too
/// short to have a direction.
pub open spec fn cosine(ar: Arith, a: Seq<u32>, b: Seq<u32>) -> u32 {
    let denominator = ar(Op::Mul, vectors::length(ar, a), vectors::length(ar, b), 0);
    if order::lt(denominator, TINY) {
        order::ZERO
    } else {
        ar(
            Op::Div,
            vectors::products(ar, a, b, vectors::shorter(a.len() as int, b.len() as int)),
            denominator,
            0,
        )
    }
}

/// The cosine similarity of `a` and `b`.
pub fn cosine_sim<F: Fn(Op, u32, u32, u32) -> u32>(fpu: &F, a: &[u32], b: &[u32]) -> (r: u32)
    requires
        arith::is_unit(*fpu),
    ensures
        r == cosine(arith::arith(*fpu), a@, b@),
{
    let dot: u32 = vectors::dot(fpu, a, b);
    let denominator: u32 = arith::binary(
        fpu,
        Op::Mul,
        vectors::norm(fpu, a),
        vectors::norm(fpu, b),
    );
    if order::less(denominator, TINY) {
        order::ZERO
    } else {
        arith::binary(fpu, Op::Div, dot, denominator)
    }
}

/// `v` scaled to unit length, unless it is too short.
pub fn unit<F: Fn(Op, u32, u32, u32) -> u32>(fpu: &F, v: Vec<u32>) -> (r: Vec<u32>)
    requires
        arith::is_unit(*fpu),
    ensures
        r@ == vectors::scaled_to_unit(arith::arith(*fpu), v@, TINY),
{
    vectors::normalize(fpu, v, TINY)
}

/// `a[i] + b[i]` for each coordinate.
pub open spec fn added(ar: Arith, a: Seq<u32>, b: Seq<u32>) -> Seq<u32> {
    Seq::new(a.len(), |i: int| ar(Op::Add, a[i], b[i], 0))
}

/// A slot that holds many pairs, lossily, in one vector.
pub struct SuperposedSlot {
    dim: usize,
    bundle: Vec<u32>,
    /// The number of pairs packed in.
    pub count: usize,
}

impl SuperposedSlot {
    /// The slot's vector.
    pub closed spec fn bundle(&self) -> Seq<u32> {
        self.bundle@
    }

    /// The size of the vector.
    pub closed spec fn size(&self) -> int {
        self.dim as int
    }

    /// The number of pairs packed in.
    pub closed spec fn packed(&self) -> int {
        self.count as int
    }

    /// The vector has the slot's size.
    pub open spec fn wf(&self) -> bool {
        self.bundle().len() == self.size()
    }

    /// An empty slot.
    pub fn new(dim: usize) -> (r: Self)
        ensures
            r.wf(),
            r.size() == dim,
            r.bundle() == Seq::new(dim as nat, |i: int| order::ZERO),
            r.packed() == 0,
    {
        let r: SuperposedSlot = SuperposedSlot { dim, bundle: vec![order::ZERO; dim], count: 0 };
        assert(r.bundle() =~= Seq::new(dim as nat, |i: int| order::ZERO));
        r
    }

    /// Packs one more pair into the slot.
    pub fn insert<F: Fn(Op, u32, u32, u32) -> u32>(&mut self, fpu: &F, key: &[u32], value: &[u32])
        requires
            arith::is_unit(*fpu),
            old(self).wf(),
            key@.len() == old(self).size(),
            value@.len() == old(self).size(),
            old(self).packed() < usize::MAX,
        ensures
            final(self).wf(),
            final(self).size() == old(self).size(),
            final(self).packed() == old(self).packed() + 1,
            final(self).bundle() == added(
                arith::arith(*fpu),
                old(self).bundle(),
                convolution(arith::arith(*fpu), key@, value@),
            ),
    {
        let bound: Vec<u32> = circular_convolve(fpu, key, value);
        let ghost ar = arith::arith(*fpu);
        let ghost before = self.bundle@;
        let ghost target = added(ar, before, bound@);
        let mut i: usize = 0;
        while i < bound.len()
            invariant
                i <= bound@.len(),
                bound@.len() == before.len(),
                self.bundle@.len() == before.len(),
                self.dim == old(self).dim,
                self.count == old(self).count,
                arith::is_unit(*fpu),
                ar == arith::arith(*fpu),
                target == added(ar, before, bound@),
                forall|j: int| 0 <= j < i ==> #[trigger] self.bundle@[j] == target[j],
                forall|j: int| i <= j < before.len() ==> #[trigger] self.bundle@[j] == before[j],
            decreases bound@.len() - i,
        {
            let sum: u32 = arith::binary(fpu, Op::Add, self.bundle[i], bound[i]);
            self.bundle.set(i, sum);
            i += 1;
        }
        self.count = self.count + 1;
        assert(self.bundle@ =~= target);
    }

    /// An approximation of the value stored under `key`.
    pub fn expand<F: Fn(Op, u32, u32, u32) -> u32>(&self, fpu: &F, key: &[u32]) -> (r: Vec<u32>)
        requires
            arith::is_unit(*fpu),
            self.wf(),
            key@.len() == self.size(),
        ensures
            r@ == correlation(arith::arith(*fpu), key@, self.bundle()),
    {
        circular_correlate(fpu, key, &self.bundle)
    }

    /// The size of the vector.
    pub fn dim(&self) -> (r: usize)
        ensures
            r == self.size(),
    {
        self.dim
    }
}

} // verus!
