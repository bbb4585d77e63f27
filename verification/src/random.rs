//! Seeded random choices.
//!
//! What a generator draws is a function of its seed and of everything that
//! was asked of it before; the crate knows no more of it than that.

use rand::rngs::StdRng;
use rand::Rng;
use rand::SeedableRng;
use vstd::prelude::*;

verus! {

/// The generator of the `rand` crate.
#[verifier::external_type_specification]
#[verifier::external_body]
pub struct ExStdRng(StdRng);

/// What a generator seeded with `seed` draws for the last of `bounds`, after
/// it was asked for the others in turn: a number below that bound.
pub uninterp spec fn drawn(seed: u64, bounds: Seq<u64>) -> u64;

/// A generator, with the seed and the bounds it has drawn for.
pub struct Draws {
    rng: StdRng,
    seed: Ghost<u64>,
    asked: Ghost<Seq<u64>>,
}

impl Draws {
    /// The seed of the generator.
    pub closed spec fn seed(&self) -> u64 {
        self.seed@
    }

    /// The bounds that it has drawn for.
    pub closed spec fn asked(&self) -> Seq<u64> {
        self.asked@
    }

    /// `StdRng::seed_from_u64`: a fresh generator, which has drawn nothing.
    #[verifier::external_body]
    pub(crate) fn seeded(seed: u64) -> (r: Draws)
        ensures
            r.seed() == seed,
            r.asked() == Seq::<u64>::empty(),
    {
        Draws { rng: StdRng::seed_from_u64(seed), seed: Ghost(seed), asked: Ghost(Seq::empty()) }
    }

    /// `Rng::gen_range` on the range from zero to `bound`, which must not be
    /// empty: a number below `bound`, determined by the seed and by what the
    /// generator drew before.
    #[verifier::external_body]
    pub(crate) fn below(&mut self, bound: u64) -> (r: u64)
        requires
            bound > 0,
        ensures
            r < bound,
            r == drawn(old(self).seed(), old(self).asked().push(bound)),
            final(self).seed() == old(self).seed(),
            final(self).asked() == old(self).asked().push(bound),
    {
        self.rng.gen_range(0..bound)
    }
}

} // verus!
