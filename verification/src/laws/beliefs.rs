//! How beliefs change, how they are pooled, and what is drawn from them.

use vstd::prelude::*;

use super::lemma_total_none;
use super::lemma_total_take;
use super::number;
use super::total;
use crate::arith::Arith;
use crate::arith::Noise;
use crate::arith::Op;
use crate::bandit;
use crate::bandit::sampling;
use crate::bandit::Region;
use crate::bandit::RegionBelief;
use crate::order;

verus! {

/// A new belief counts one success and one failure. Its rate of fading is the
/// one asked for, but not below zero and not above 0.999.
pub proof fn beliefs_start_even(drift_rate: u32)
    ensures
        RegionBelief::initial(drift_rate).alpha == 0x3f80_0000,
        RegionBelief::initial(drift_rate).beta == 0x3f80_0000,
        RegionBelief::initial(drift_rate).last_step == 0,
        RegionBelief::initial(drift_rate).drift_rate == if order::lt(drift_rate, 0) {
            0
        } else if order::lt(0x3f7f_be77, drift_rate) {
            0x3f7f_be77
        } else {
            drift_rate
        },
{
}

/// What of a belief is left after `steps` steps.
pub open spec fn left_after(ar: Arith, drift_rate: u32, steps: int) -> u32 {
    ar(
        Op::Powi,
        ar(Op::Sub, 0x3f80_0000, drift_rate, 0),
        if steps < 0x7fff_ffff {
            steps as u32
        } else {
            0x7fff_ffff
        },
        0,
    )
}

/// With time both counts of a belief draw near to one, by the power of what
/// the rate leaves of them at each step. Without a rate, or time, they stay.
pub proof fn beliefs_fade_with_time(ar: Arith, belief: RegionBelief, step: u64)
    ensures
        ({
            let after = belief.predicted(ar, step);
            let fades = step > belief.last_step && !order::le(belief.drift_rate, 0);
            let left = left_after(ar, belief.drift_rate, step - belief.last_step);
            &&& after.drift_rate == belief.drift_rate
            &&& after.last_step == belief.last_step
            &&& !fades ==> after == belief
            &&& fades ==> after.alpha == ar(
                Op::Add,
                ar(Op::Mul, belief.alpha, left, 0),
                ar(Op::Sub, 0x3f80_0000, left, 0),
                0,
            )
            &&& fades ==> after.beta == ar(
                Op::Add,
                ar(Op::Mul, belief.beta, left, 0),
                ar(Op::Sub, 0x3f80_0000, left, 0),
                0,
            )
        }),
{
}

/// A reward between zero and one adds to the successes, and what it lacks to
/// one adds to the failures; a reward beyond counts as the nearer end.
pub proof fn rewards_add_to_beliefs(ar: Arith, belief: RegionBelief, reward: u32, step: u64)
    ensures
        ({
            let after = belief.updated(ar, reward, step);
            let counted = if order::lt(reward, 0) {
                0
            } else if order::lt(0x3f80_0000, reward) {
                0x3f80_0000
            } else {
                reward
            };
            &&& after.alpha == ar(Op::Add, belief.alpha, counted, 0)
            &&& after.beta == ar(
                Op::Add,
                belief.beta,
                ar(Op::Sub, 0x3f80_0000, counted, 0),
                0,
            )
            &&& after.last_step == step
            &&& after.drift_rate == belief.drift_rate
        }),
{
}

/// An observation lets the belief of its record fade up to the step, and then
/// adds the reward; no other belief changes.
pub proof fn observations_fade_first(
    ar: Arith,
    r: Region,
    path: Seq<usize>,
    reward: u32,
    step: u64,
    q: Seq<usize>,
)
    requires
        r.leads(path),
        r.leads(q),
    ensures
        r.at(path) is Leaf,
        r.observed(ar, path, reward, step).at(q) == if q == path {
            Region::Leaf(
                r.at(path)->Leaf_0,
                r.at(path)->Leaf_1.predicted(ar, step).updated(ar, reward, step),
            )
        } else {
            r.at(q)
        },
{
    bandit::observations_are_local(ar, r, path, reward, step, q);
}

/// The counts of the children of a region.
pub open spec fn successes(c: Seq<Region>) -> Seq<u32> {
    Seq::new(c.len(), |i: int| c[i].params().0)
}

/// The counts of the children of a region.
pub open spec fn failures(c: Seq<Region>) -> Seq<u32> {
    Seq::new(c.len(), |i: int| c[i].params().1)
}

/// What `counts` have beyond one each, beyond one; not below one.
pub open spec fn beyond_one(ar: Arith, counts: Seq<u32>) -> u32 {
    let x = ar(
        Op::Add,
        ar(Op::Sub, total(ar, counts), number(ar, counts.len() as int), 0),
        0x3f80_0000,
        0,
    );
    if order::le(0x3f80_0000, x) {
        x
    } else {
        0x3f80_0000
    }
}

proof fn lemma_count_sums(ar: Arith, c: Seq<Region>, n: int)
    requires
        0 <= n <= c.len(),
    ensures
        bandit::alpha_sum(ar, c, n) == total(ar, successes(c).take(n)),
        bandit::beta_sum(ar, c, n) == total(ar, failures(c).take(n)),
    decreases n,
{
    if n > 0 {
        lemma_count_sums(ar, c, n - 1);
        lemma_total_take(ar, successes(c), n);
        lemma_total_take(ar, failures(c), n);
    } else {
        lemma_total_none(ar, successes(c));
        lemma_total_none(ar, failures(c));
    }
}

/// A region pools its parts: its counts are what those of its parts have
/// beyond one each, beyond one.
pub proof fn regions_pool_their_parts(ar: Arith, c: Seq<Region>)
    ensures
        bandit::pooled(ar, c).children() == c,
        bandit::pooled(ar, c).params().0 == beyond_one(ar, successes(c)),
        bandit::pooled(ar, c).params().1 == beyond_one(ar, failures(c)),
{
    let n = c.len() as int;
    lemma_count_sums(ar, c, n);
    assert(successes(c).take(n) =~= successes(c));
    assert(failures(c).take(n) =~= failures(c));
}

proof fn lemma_champion(d: Seq<u32>, n: int)
    requires
        0 <= n <= d.len(),
    ensures
        forall|i: int| 0 <= i < n ==> !order::lt(bandit::champion(d, n).1, #[trigger] d[i]),
        bandit::champion(d, n).1 == 0xff80_0000 || (0 <= bandit::champion(d, n).0 < n
            && bandit::champion(d, n).1 == d[bandit::champion(d, n).0]),
        forall|i: int|
            0 <= i < bandit::champion(d, n).0 && i < n ==> !order::le(
                bandit::champion(d, n).1,
                #[trigger] d[i],
            ),
        bandit::champion(d, n).0 == 0 || 0 <= bandit::champion(d, n).0 < n,
        bandit::champion(d, n).0 > 0 ==> bandit::champion(d, n).1 == d[bandit::champion(d, n).0],
        !order::nan(bandit::champion(d, n).1),
    decreases n,
{
    if n > 0 {
        lemma_champion(d, n - 1);
    }
}

/// The part with the highest draw is sampled from; of equal draws the first.
/// Each part draws from its own belief, one after the other, and the next level
/// goes on where the draws of this one end.
pub proof fn samples_follow_the_highest_draw(
    ar: Arith,
    u: Noise,
    seed: u64,
    c: Seq<Region>,
    alpha: u32,
    beta: u32,
    at: int,
) -> (k: int)
    requires
        c.len() > 0,
    ensures
        ({
            let (d, next) = bandit::draws_for(ar, u, seed, c, at, c.len() as int);
            &&& d.len() == c.len()
            &&& 0 <= k < c.len()
            &&& forall|i: int|
                0 <= i < d.len() && order::lt(0xff80_0000, #[trigger] d[i]) ==> order::le(
                    d[i],
                    d[k],
                ) && (i < k ==> order::lt(d[i], d[k]))
            &&& bandit::sampled(ar, u, seed, Region::Inner(c, alpha, beta), at)
                == bandit::sampled(ar, u, seed, c[k], next)
        }),
{
    let n = c.len() as int;
    let (d, next) = bandit::draws_for(ar, u, seed, c, at, n);
    lemma_draws(ar, u, seed, c, at, n, 0);
    lemma_champion(d, n);
    bandit::champion(d, n).0
}

/// Where the draws of the first `n` parts end.
pub open spec fn draws_end(
    ar: Arith,
    u: Noise,
    seed: u64,
    c: Seq<Region>,
    at: int,
    n: int,
) -> int {
    bandit::draws_for(ar, u, seed, c, at, n).1
}

proof fn lemma_draws(ar: Arith, u: Noise, seed: u64, c: Seq<Region>, at: int, n: int, i: int)
    requires
        0 <= i < n <= c.len(),
    ensures
        ({
            let d = bandit::draws_for(ar, u, seed, c, at, n).0;
            let drawn = sampling::beta(
                ar,
                u,
                seed,
                c[i].params().0,
                c[i].params().1,
                draws_end(ar, u, seed, c, at, i),
            );
            &&& d.len() == n
            &&& d[i] == drawn.0
            &&& draws_end(ar, u, seed, c, at, i + 1) == drawn.1
        }),
    decreases n,
{
    if i < n - 1 {
        lemma_draws(ar, u, seed, c, at, n - 1, i);
    } else if n > 1 {
        lemma_draws(ar, u, seed, c, at, n - 1, 0);
    } else {
        assert(bandit::draws_for(ar, u, seed, c, at, 0) == (Seq::<u32>::empty(), at));
    }
}

/// A part draws from the beta distribution of its own counts, where the draws
/// of the part before it end.
pub proof fn parts_draw_in_turn(
    ar: Arith,
    u: Noise,
    seed: u64,
    c: Seq<Region>,
    at: int,
    i: int,
)
    requires
        0 <= i < c.len(),
    ensures
        draws_end(ar, u, seed, c, at, 0) == at,
        bandit::draws_for(ar, u, seed, c, at, c.len() as int).0[i] == sampling::beta(
            ar,
            u,
            seed,
            c[i].params().0,
            c[i].params().1,
            draws_end(ar, u, seed, c, at, i),
        ).0,
        draws_end(ar, u, seed, c, at, i + 1) == sampling::beta(
            ar,
            u,
            seed,
            c[i].params().0,
            c[i].params().1,
            draws_end(ar, u, seed, c, at, i),
        ).1,
{
    lemma_draws(ar, u, seed, c, at, c.len() as int, i);
}

/// The place after `at`, as far as there is one.
pub open spec fn following(at: int) -> int {
    if at < 0xffff_ffff_ffff_ffff {
        at + 1
    } else {
        at
    }
}

/// `x` is within the accuracy of numbers of one.
pub open spec fn nearly_one(ar: Arith, x: u32) -> bool {
    order::lt((ar(Op::Sub, x, 0x3f80_0000, 0) % 0x8000_0000) as u32, 0x3400_0000)
}

/// A beta number is one gamma number over the sum of two, one of each shape; if
/// both shapes are one it is a uniform number.
pub proof fn beta_numbers_are_shares_of_gamma_numbers(
    ar: Arith,
    u: Noise,
    seed: u64,
    alpha: u32,
    beta: u32,
    at: int,
)
    requires
        0 <= at <= 0xffff_ffff_ffff_ffff,
    ensures
        nearly_one(ar, alpha) && nearly_one(ar, beta) ==> sampling::beta(
            ar,
            u,
            seed,
            alpha,
            beta,
            at,
        ) == (u(seed, at as u64), following(at)),
        !(nearly_one(ar, alpha) && nearly_one(ar, beta)) ==> ({
            let x = sampling::gamma(ar, u, seed, alpha, at);
            let y = sampling::gamma(ar, u, seed, beta, x.1);
            sampling::beta(ar, u, seed, alpha, beta, at) == (
                ar(Op::Div, x.0, ar(Op::Add, x.0, y.0, 0), 0),
                y.1,
            )
        }),
{
    assert(order::abs(ar(Op::Sub, alpha, 0x3f80_0000, 0)) == ar(Op::Sub, alpha, 0x3f80_0000, 0)
        % 0x8000_0000);
    assert(order::abs(ar(Op::Sub, beta, 0x3f80_0000, 0)) == ar(Op::Sub, beta, 0x3f80_0000, 0)
        % 0x8000_0000);
}

/// A uniform number, kept off zero.
pub open spec fn off_zero(x: u32) -> u32 {
    if order::le(0x3400_0000, x) {
        x
    } else {
        0x3400_0000
    }
}

/// A normal number from the two uniform ones at `at`.
pub open spec fn bell(ar: Arith, u: Noise, seed: u64, at: int) -> u32 {
    let a = off_zero(u(seed, at as u64));
    let b = u(seed, (at + 1) as u64);
    ar(
        Op::Mul,
        ar(Op::Sqrt, ar(Op::Mul, 0xc000_0000, ar(Op::Ln, a, 0, 0), 0), 0, 0),
        ar(Op::Cos, ar(Op::Mul, 0x40c9_0fdb, b, 0), 0, 0),
        0,
    )
}

/// The cube of `v`.
pub open spec fn cube(ar: Arith, v: u32) -> u32 {
    ar(Op::Mul, ar(Op::Mul, v, v, 0), v, 0)
}

/// Whether the numbers at `at` are accepted for a gamma number: the cubed one
/// is above zero, and the uniform one is below one of the two bounds.
pub open spec fn suits(ar: Arith, u: Noise, seed: u64, d: u32, c: u32, at: int) -> bool {
    let x = bell(ar, u, seed, at);
    let v = ar(Op::Add, 0x3f80_0000, ar(Op::Mul, c, x, 0), 0);
    let w = off_zero(u(seed, (at + 2) as u64));
    let squeeze = ar(
        Op::Sub,
        0x3f80_0000,
        ar(Op::Mul, 0x3d07_93de, ar(Op::Powi, x, 4, 0), 0),
        0,
    );
    let bound = ar(
        Op::Add,
        ar(Op::Mul, ar(Op::Mul, 0x3f00_0000, x, 0), x, 0),
        ar(
            Op::Mul,
            d,
            ar(
                Op::Add,
                ar(Op::Sub, 0x3f80_0000, cube(ar, v), 0),
                ar(Op::Ln, cube(ar, v), 0, 0),
                0,
            ),
            0,
        ),
        0,
    );
    !order::le(v, 0) && (order::lt(w, squeeze) || order::lt(ar(Op::Ln, w, 0, 0), bound))
}

/// The numbers at the end of `tries` are the first that are accepted: at
/// every one before, they were refused, and the next try came two or three
/// numbers later.
pub open spec fn tries_until(
    ar: Arith,
    u: Noise,
    seed: u64,
    d: u32,
    c: u32,
    tries: Seq<int>,
) -> bool {
    &&& tries.len() > 0
    &&& suits(ar, u, seed, d, c, tries.last())
    &&& forall|i: int|
        #![trigger tries[i]]
        0 <= i < tries.len() - 1 ==> !suits(ar, u, seed, d, c, tries[i]) && tries[i + 1] == (
        if order::le(
            ar(Op::Add, 0x3f80_0000, ar(Op::Mul, c, bell(ar, u, seed, tries[i]), 0), 0),
            0,
        ) {
            tries[i] + 2
        } else {
            tries[i] + 3
        })
}

/// What the numbers at `at` make: the scale times the cube.
pub open spec fn makes(ar: Arith, u: Noise, seed: u64, d: u32, c: u32, at: int) -> u32 {
    let v = ar(
        Op::Add,
        0x3f80_0000,
        ar(Op::Mul, c, bell(ar, u, seed, at), 0),
        0,
    );
    ar(Op::Mul, d, cube(ar, v), 0)
}

proof fn lemma_accepted(ar: Arith, u: Noise, seed: u64, d: u32, c: u32, at: int) -> (tries: Seq<int>)
    requires
        0 <= at,
        sampling::accepted(ar, u, seed, d, c, at).1 < u64::MAX,
    ensures
        tries.len() > 0,
        tries[0] == at,
        tries_until(ar, u, seed, d, c, tries),
        sampling::accepted(ar, u, seed, d, c, at) == (
            makes(ar, u, seed, d, c, tries.last()),
            tries.last() + 3,
        ),
    decreases u64::MAX - at,
{
    let x = bell(ar, u, seed, at);
    assert(sampling::normal_at(ar, u, seed, at) == x);
    let v = ar(Op::Add, 0x3f80_0000, ar(Op::Mul, c, x, 0), 0);
    if suits(ar, u, seed, d, c, at) {
        seq![at]
    } else {
        let step = if order::le(v, 0) {
            2
        } else {
            3int
        };
        let rest = lemma_accepted(ar, u, seed, d, c, at + step);
        let tries = seq![at] + rest;
        assert(tries.last() == rest.last());
        assert forall|i: int| #![trigger tries[i]] 0 <= i < tries.len() - 1 implies !suits(
            ar,
            u,
            seed,
            d,
            c,
            tries[i],
        ) && tries[i + 1] == (if order::le(
            ar(Op::Add, 0x3f80_0000, ar(Op::Mul, c, bell(ar, u, seed, tries[i]), 0), 0),
            0,
        ) {
            tries[i] + 2
        } else {
            tries[i] + 3
        }) by {
            if i > 0 {
                assert(tries[i] == rest[i - 1]);
                assert(tries[i + 1] == rest[i]);
            } else {
                assert(tries[1] == rest[0]);
            }
        }
        tries
    }
}

/// A gamma number of a shape of at least one is the scale, the shape less a
/// third, times the cube of one and a scaled normal number, for the first
/// numbers that are accepted, unless the source runs out of places first.
pub proof fn gamma_numbers_are_accepted_cubes(
    ar: Arith,
    u: Noise,
    seed: u64,
    shape: u32,
    at: int,
) -> (tries: Seq<int>)
    requires
        0 <= at,
        !order::lt(shape, 0x3f80_0000),
        sampling::gamma(ar, u, seed, shape, at).1 < u64::MAX,
    ensures
        ({
            let d = ar(Op::Sub, shape, 0x3eaa_aaab, 0);
            let c = ar(
                Op::Div,
                0x3f80_0000,
                ar(Op::Sqrt, ar(Op::Mul, 0x4110_0000, d, 0), 0, 0),
                0,
            );
            &&& tries.len() > 0
            &&& tries[0] == at
            &&& tries_until(ar, u, seed, d, c, tries)
            &&& sampling::gamma(ar, u, seed, shape, at) == (
                makes(ar, u, seed, d, c, tries.last()),
                tries.last() + 3,
            )
        }),
{
    let d = ar(Op::Sub, shape, 0x3eaa_aaab, 0);
    let c = ar(Op::Div, 0x3f80_0000, ar(Op::Sqrt, ar(Op::Mul, 0x4110_0000, d, 0), 0, 0), 0);
    lemma_accepted(ar, u, seed, d, c, at)
}

/// A gamma number of a shape below one comes from one of the shape plus one,
/// times a uniform number to the power of one over the shape.
pub proof fn small_shapes_are_lifted(ar: Arith, u: Noise, seed: u64, shape: u32, at: int)
    requires
        order::lt(shape, 0x3f80_0000),
        !order::lt(ar(Op::Add, shape, 0x3f80_0000, 0), 0x3f80_0000),
        0 <= sampling::gamma(ar, u, seed, ar(Op::Add, shape, 0x3f80_0000, 0), at).1
            <= 0xffff_ffff_ffff_ffff,
    ensures
        ({
            let g = sampling::gamma(ar, u, seed, ar(Op::Add, shape, 0x3f80_0000, 0), at);
            let w = off_zero(u(seed, g.1 as u64));
            sampling::gamma(ar, u, seed, shape, at) == (
                ar(Op::Mul, g.0, ar(Op::Powf, w, ar(Op::Div, 0x3f80_0000, shape, 0), 0), 0),
                following(g.1),
            )
        }),
{
    let higher = ar(Op::Add, shape, 0x3f80_0000, 0);
    assert(sampling::lifted(ar, u, seed, higher, at, u64::MAX - 1) == sampling::gamma(
        ar,
        u,
        seed,
        higher,
        at,
    ));
}

} // verus!
