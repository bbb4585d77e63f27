//! Arithmetic on single-precision numbers, handed in by the caller.
//!
//! The crate holds numbers as bit patterns and does not compute with them
//! itself. Every function that needs a sum, a product or a root takes an
//! *arithmetic unit*: one function that performs the elementary operations.
//! Everything above that, from dot products to clustering, is written and
//! proved here in terms of those operations, in the order in which they are
//! performed.

use vstd::prelude::*;

verus! {

/// The elementary operations.
#[derive(Clone, Copy, Debug, PartialEq, Eq, Structural)]
pub enum Op {
    /// `a + b`.
    Add,
    /// `a - b`.
    Sub,
    /// `a * b`.
    Mul,
    /// `a / b`.
    Div,
    /// `a * b + c`, rounded once.
    Fma,
    /// The square root of `a`.
    Sqrt,
    /// The natural logarithm of `a`.
    Ln,
    /// The cosine of `a`.
    Cos,
    /// The arc cosine of `a`.
    Acos,
    /// `a` raised to the power `b`.
    Powf,
    /// `a` raised to the integer that the bits of `b` spell in two's
    /// complement.
    Powi,
    /// The integer `a + 2^32 * b`, rounded to a number.
    Count,
}

/// What an arithmetic unit computes.
pub type Arith = spec_fn(Op, u32, u32, u32) -> u32;

/// `f` takes all operands and has one result on each.
pub open spec fn is_unit<F: Fn(Op, u32, u32, u32) -> u32>(f: F) -> bool {
    &&& forall|o: Op, a: u32, b: u32, c: u32| #[trigger] call_requires(f, (o, a, b, c))
    &&& forall|o: Op, a: u32, b: u32, c: u32, r: u32, s: u32|
        #[trigger] call_ensures(f, (o, a, b, c), r) && #[trigger] call_ensures(f, (o, a, b, c), s)
            ==> r == s
}

/// What `f` computes.
pub open spec fn arith<F: Fn(Op, u32, u32, u32) -> u32>(f: F) -> Arith {
    |o: Op, a: u32, b: u32, c: u32| choose|r: u32| call_ensures(f, (o, a, b, c), r)
}

/// Performs an operation.
pub fn compute<F: Fn(Op, u32, u32, u32) -> u32>(f: &F, o: Op, a: u32, b: u32, c: u32) -> (r: u32)
    requires
        is_unit(*f),
    ensures
        r == arith(*f)(o, a, b, c),
{
    f(o, a, b, c)
}

/// Performs an operation on two operands.
pub fn binary<F: Fn(Op, u32, u32, u32) -> u32>(f: &F, o: Op, a: u32, b: u32) -> (r: u32)
    requires
        is_unit(*f),
    ensures
        r == arith(*f)(o, a, b, 0),
{
    compute(f, o, a, b, 0)
}

/// Performs an operation on one operand.
pub fn unary<F: Fn(Op, u32, u32, u32) -> u32>(f: &F, o: Op, a: u32) -> (r: u32)
    requires
        is_unit(*f),
    ensures
        r == arith(*f)(o, a, 0, 0),
{
    compute(f, o, a, 0, 0)
}

/// The number of the integer `n`.
pub open spec fn counted(ar: Arith, n: int) -> u32 {
    ar(Op::Count, (n % 0x1_0000_0000) as u32, (n / 0x1_0000_0000) as u32, 0)
}

/// The number of the integer `n`.
pub fn count<F: Fn(Op, u32, u32, u32) -> u32>(f: &F, n: usize) -> (r: u32)
    requires
        is_unit(*f),
    ensures
        r == counted(arith(*f), n as int),
{
    let wide: u64 = n as u64;
    compute(f, Op::Count, (wide % 0x1_0000_0000) as u32, (wide / 0x1_0000_0000) as u32, 0)
}

/// What a source of random numbers gives: draw number `i` after a seed.
pub type Noise = spec_fn(u64, u64) -> u32;

/// `u` has one number for each seed and place.
pub open spec fn is_source<U: Fn(u64, u64) -> u32>(u: U) -> bool {
    &&& forall|seed: u64, i: u64| #[trigger] call_requires(u, (seed, i))
    &&& forall|seed: u64, i: u64, r: u32, s: u32|
        #[trigger] call_ensures(u, (seed, i), r) && #[trigger] call_ensures(u, (seed, i), s) ==> r
            == s
}

/// What `u` gives.
pub open spec fn noise<U: Fn(u64, u64) -> u32>(u: U) -> Noise {
    |seed: u64, i: u64| choose|r: u32| call_ensures(u, (seed, i), r)
}

/// Takes draw number `i` after `seed`.
pub fn draw<U: Fn(u64, u64) -> u32>(u: &U, seed: u64, i: u64) -> (r: u32)
    requires
        is_source(*u),
    ensures
        r == noise(*u)(seed, i),
{
    u(seed, i)
}

} // verus!
