//! Samples of the beta distribution, by way of the gamma distribution.

use vstd::prelude::*;

use crate::arith;
use crate::arith::Arith;
use crate::arith::Noise;
use crate::arith::Op;
use crate::order;
use crate::projector;

verus! {

/// The bit pattern of the distance from one to the next number.
pub const EPSILON: u32 = 0x3400_0000;

/// The bit pattern of one third.
pub const THIRD: u32 = 0x3eaa_aaab;

/// The bit pattern of `9.0`.
pub const NINE: u32 = 0x4110_0000;

/// The bit pattern of `0.0331`.
pub const SQUEEZE: u32 = 0x3d07_93de;

/// The bit pattern of `0.5`.
pub const HALF: u32 = 0x3f00_0000;

/// The normal number that the draws `at` and `at + 1` give.
pub open spec fn normal_at(ar: Arith, u: Noise, seed: u64, at: int) -> u32 {
    projector::normal(
        ar,
        order::raised(u(seed, at as u64), EPSILON),
        u(seed, (at + 1) as u64),
    )
}

/// Whether the candidate with the normal number `x`, the cubed factor `v3`
/// and the uniform number `w` is taken.
pub open spec fn taken(ar: Arith, d: u32, x: u32, v3: u32, w: u32) -> bool {
    let quick = ar(
        Op::Sub,
        order::ONE,
        ar(Op::Mul, SQUEEZE, ar(Op::Powi, x, 4, 0), 0),
        0,
    );
    let slow = ar(
        Op::Add,
        ar(Op::Mul, ar(Op::Mul, HALF, x, 0), x, 0),
        ar(
            Op::Mul,
            d,
            ar(Op::Add, ar(Op::Sub, order::ONE, v3, 0), ar(Op::Ln, v3, 0, 0), 0),
            0,
        ),
        0,
    );
    order::lt(w, quick) || order::lt(ar(Op::Ln, w, 0, 0), slow)
}

/// The first candidate that is taken, looking from draw `at` on, and the
/// number of draws made by then; zero should the generator be used up.
pub open spec fn accepted(ar: Arith, u: Noise, seed: u64, d: u32, c: u32, at: int) -> (u32, int)
    decreases u64::MAX - at,
{
    if at > u64::MAX - 3 {
        (order::ZERO, u64::MAX as int)
    } else {
        let x = normal_at(ar, u, seed, at);
        let v = ar(Op::Add, order::ONE, ar(Op::Mul, c, x, 0), 0);
        if order::le(v, order::ZERO) {
            accepted(ar, u, seed, d, c, at + 2)
        } else {
            let v3 = ar(Op::Mul, ar(Op::Mul, v, v, 0), v, 0);
            let w = order::raised(u(seed, (at + 2) as u64), EPSILON);
            if taken(ar, d, x, v3, w) {
                (ar(Op::Mul, d, v3, 0), at + 3)
            } else {
                accepted(ar, u, seed, d, c, at + 3)
            }
        }
    }
}

/// A sample for a shape of at least one, from draw `at` on.
pub open spec fn gamma_from_one(ar: Arith, u: Noise, seed: u64, shape: u32, at: int) -> (u32, int) {
    let d = ar(Op::Sub, shape, THIRD, 0);
    let c = ar(Op::Div, order::ONE, ar(Op::Sqrt, ar(Op::Mul, NINE, d, 0), 0, 0), 0);
    accepted(ar, u, seed, d, c, at)
}

/// A sample of the gamma distribution, from draw `at` on. One for a shape
/// below one comes from a sample for one more, and so on, `lifts` times at
/// most.
pub open spec fn lifted(ar: Arith, u: Noise, seed: u64, shape: u32, at: int, lifts: int) -> (u32, int)
    decreases lifts,
{
    if order::lt(shape, order::ONE) && lifts > 0 {
        let (g, next) = lifted(ar, u, seed, ar(Op::Add, shape, order::ONE, 0), at, lifts - 1);
        let w = order::raised(u(seed, next as u64), EPSILON);
        (
            ar(Op::Mul, g, ar(Op::Powf, w, ar(Op::Div, order::ONE, shape, 0), 0), 0),
            after(next),
        )
    } else {
        gamma_from_one(ar, u, seed, shape, at)
    }
}

/// A sample of the gamma distribution, from draw `at` on. Every shape below
/// one is lifted above it, with one draw for each step; there are no more
/// steps than draws.
pub open spec fn gamma(ar: Arith, u: Noise, seed: u64, shape: u32, at: int) -> (u32, int) {
    lifted(ar, u, seed, shape, at, u64::MAX as int)
}

/// One draw on; the last one stays the last.
pub open spec fn after(at: int) -> int {
    if at < u64::MAX {
        at + 1
    } else {
        u64::MAX as int
    }
}

/// Whether `x` is one, as far as can be told.
pub open spec fn about_one(ar: Arith, x: u32) -> bool {
    order::lt(order::abs(ar(Op::Sub, x, order::ONE, 0)), EPSILON)
}

/// A sample of the beta distribution, from draw `at` on.
pub open spec fn beta(ar: Arith, u: Noise, seed: u64, alpha: u32, beta: u32, at: int) -> (u32, int) {
    if about_one(ar, alpha) && about_one(ar, beta) {
        (u(seed, at as u64), after(at))
    } else {
        let (x, next) = gamma(ar, u, seed, alpha, at);
        let (y, end) = gamma(ar, u, seed, beta, next);
        (ar(Op::Div, x, ar(Op::Add, x, y, 0), 0), end)
    }
}

fn is_taken<F: Fn(Op, u32, u32, u32) -> u32>(fpu: &F, d: u32, x: u32, v3: u32, w: u32) -> (r: bool)
    requires
        arith::is_unit(*fpu),
    ensures
        r == taken(arith::arith(*fpu), d, x, v3, w),
{
    let fourth: u32 = arith::binary(fpu, Op::Powi, x, 4);
    let squeezed: u32 = arith::binary(fpu, Op::Mul, SQUEEZE, fourth);
    let quick: u32 = arith::binary(fpu, Op::Sub, order::ONE, squeezed);
    if order::less(w, quick) {
        return true;
    }
    let half: u32 = arith::binary(fpu, Op::Mul, HALF, x);
    let square: u32 = arith::binary(fpu, Op::Mul, half, x);
    let rest: u32 = arith::binary(fpu, Op::Sub, order::ONE, v3);
    let inner: u32 = arith::binary(fpu, Op::Add, rest, arith::unary(fpu, Op::Ln, v3));
    let slow: u32 = arith::binary(fpu, Op::Add, square, arith::binary(fpu, Op::Mul, d, inner));
    order::less(arith::unary(fpu, Op::Ln, w), slow)
}

fn accept<F: Fn(Op, u32, u32, u32) -> u32, U: Fn(u64, u64) -> u32>(
    fpu: &F,
    uniform: &U,
    seed: u64,
    d: u32,
    c: u32,
    start: u64,
) -> (r: (u32, u64))
    requires
        arith::is_unit(*fpu),
        arith::is_source(*uniform),
    ensures
        (r.0, r.1 as int) == accepted(
            arith::arith(*fpu),
            arith::noise(*uniform),
            seed,
            d,
            c,
            start as int,
        ),
{
    let ghost ar = arith::arith(*fpu);
    let ghost u = arith::noise(*uniform);
    let mut at: u64 = start;
    while at <= u64::MAX - 3
        invariant
            arith::is_unit(*fpu),
            arith::is_source(*uniform),
            ar == arith::arith(*fpu),
            u == arith::noise(*uniform),
            accepted(ar, u, seed, d, c, at as int) == accepted(ar, u, seed, d, c, start as int),
        decreases u64::MAX - at,
    {
        let u1: u32 = order::raise(arith::draw(uniform, seed, at), EPSILON);
        let u2: u32 = arith::draw(uniform, seed, at + 1);
        let x: u32 = projector::to_normal(fpu, u1, u2);
        let cx: u32 = arith::binary(fpu, Op::Mul, c, x);
        let v: u32 = arith::binary(fpu, Op::Add, order::ONE, cx);
        if order::at_most(v, order::ZERO) {
            at = at + 2;
        } else {
            let v2: u32 = arith::binary(fpu, Op::Mul, v, v);
            let v3: u32 = arith::binary(fpu, Op::Mul, v2, v);
            let w: u32 = order::raise(arith::draw(uniform, seed, at + 2), EPSILON);
            if is_taken(fpu, d, x, v3, w) {
                return (arith::binary(fpu, Op::Mul, d, v3), at + 3);
            }
            at = at + 3;
        }
    }
    (order::ZERO, u64::MAX)
}

fn sample_gamma_from_one<F: Fn(Op, u32, u32, u32) -> u32, U: Fn(u64, u64) -> u32>(
    fpu: &F,
    uniform: &U,
    seed: u64,
    shape: u32,
    at: u64,
) -> (r: (u32, u64))
    requires
        arith::is_unit(*fpu),
        arith::is_source(*uniform),
    ensures
        (r.0, r.1 as int) == gamma_from_one(
            arith::arith(*fpu),
            arith::noise(*uniform),
            seed,
            shape,
            at as int,
        ),
{
    let d: u32 = arith::binary(fpu, Op::Sub, shape, THIRD);
    let root: u32 = arith::unary(fpu, Op::Sqrt, arith::binary(fpu, Op::Mul, NINE, d));
    let c: u32 = arith::binary(fpu, Op::Div, order::ONE, root);
    accept(fpu, uniform, seed, d, c, at)
}

fn one_on(at: u64) -> (r: u64)
    ensures
        r == after(at as int),
{
    if at < u64::MAX {
        at + 1
    } else {
        u64::MAX
    }
}

/// A sample of the gamma distribution, from draw `at` on, and where the draws
/// go on.
pub fn sample_gamma<F: Fn(Op, u32, u32, u32) -> u32, U: Fn(u64, u64) -> u32>(
    fpu: &F,
    uniform: &U,
    seed: u64,
    shape: u32,
    at: u64,
) -> (r: (u32, u64))
    requires
        arith::is_unit(*fpu),
        arith::is_source(*uniform),
    ensures
        (r.0, r.1 as int) == gamma(
            arith::arith(*fpu),
            arith::noise(*uniform),
            seed,
            shape,
            at as int,
        ),
{
    sample_lifted(fpu, uniform, seed, shape, at, u64::MAX)
}

fn sample_lifted<F: Fn(Op, u32, u32, u32) -> u32, U: Fn(u64, u64) -> u32>(
    fpu: &F,
    uniform: &U,
    seed: u64,
    shape: u32,
    at: u64,
    lifts: u64,
) -> (r: (u32, u64))
    requires
        arith::is_unit(*fpu),
        arith::is_source(*uniform),
    ensures
        (r.0, r.1 as int) == lifted(
            arith::arith(*fpu),
            arith::noise(*uniform),
            seed,
            shape,
            at as int,
            lifts as int,
        ),
    decreases lifts,
{
    if order::less(shape, order::ONE) && lifts > 0 {
        let more: u32 = arith::binary(fpu, Op::Add, shape, order::ONE);
        let (g, next) = sample_lifted(fpu, uniform, seed, more, at, lifts - 1);
        let w: u32 = order::raise(arith::draw(uniform, seed, next), EPSILON);
        let exponent: u32 = arith::binary(fpu, Op::Div, order::ONE, shape);
        let power: u32 = arith::binary(fpu, Op::Powf, w, exponent);
        (arith::binary(fpu, Op::Mul, g, power), one_on(next))
    } else {
        sample_gamma_from_one(fpu, uniform, seed, shape, at)
    }
}

/// A sample of the beta distribution, from draw `at` on, and where the draws
/// go on. Draws of `uniform` lie from zero to below one.
pub fn sample_beta<F: Fn(Op, u32, u32, u32) -> u32, U: Fn(u64, u64) -> u32>(
    fpu: &F,
    uniform: &U,
    seed: u64,
    alpha: u32,
    beta_: u32,
    at: u64,
) -> (r: (u32, u64))
    requires
        arith::is_unit(*fpu),
        arith::is_source(*uniform),
    ensures
        (r.0, r.1 as int) == beta(
            arith::arith(*fpu),
            arith::noise(*uniform),
            seed,
            alpha,
            beta_,
            at as int,
        ),
{
    let off_alpha: u32 = order::absolute(arith::binary(fpu, Op::Sub, alpha, order::ONE));
    let off_beta: u32 = order::absolute(arith::binary(fpu, Op::Sub, beta_, order::ONE));
    if order::less(off_alpha, EPSILON) && order::less(off_beta, EPSILON) {
        return (arith::draw(uniform, seed, at), one_on(at));
    }
    let (x, next) = sample_gamma(fpu, uniform, seed, alpha, at);
    let (y, end) = sample_gamma(fpu, uniform, seed, beta_, next);
    let sum: u32 = arith::binary(fpu, Op::Add, x, y);
    (arith::binary(fpu, Op::Div, x, sum), end)
}

} // verus!
