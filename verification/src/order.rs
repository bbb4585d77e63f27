//! The order of single-precision numbers, read off their bit patterns.
//!
//! The crate stores every coordinate, score and distance as the 32 bits of an
//! IEEE 754 single-precision number and never computes with one. What it does
//! need is to compare them, and that takes no arithmetic: a bit pattern is a
//! sign and a magnitude, and two patterns that are not NaN compare as the
//! signed integers that they spell.

use vstd::prelude::*;

verus! {

/// The bit pattern of `1.0`.
pub const ONE: u32 = 0x3f80_0000;

/// The bit pattern of `0.0`.
pub const ZERO: u32 = 0;

/// The bit pattern of the largest finite number.
pub const LARGEST: u32 = 0x7f7f_ffff;

/// The bit pattern of positive infinity.
pub const INFINITY: u32 = 0x7f80_0000;

/// The bit pattern of negative infinity.
pub const NEG_INFINITY: u32 = 0xff80_0000;

/// The weight of the sign bit.
pub const SIGN: u32 = 0x8000_0000;

/// Whether the sign bit is set.
pub open spec fn negative(b: u32) -> bool {
    b >= SIGN
}

/// The bits below the sign, as a number.
pub open spec fn magnitude(b: u32) -> int {
    if negative(b) {
        b - SIGN
    } else {
        b as int
    }
}

/// Whether `b` is the pattern of a NaN: its magnitude lies beyond infinity.
pub open spec fn nan(b: u32) -> bool {
    magnitude(b) > INFINITY
}

/// The signed integer whose order is the order of the numbers; both zeros
/// read as `0`.
pub open spec fn value(b: u32) -> int {
    if negative(b) {
        -magnitude(b)
    } else {
        magnitude(b)
    }
}

/// The position of `b` in the total order of all bit patterns: by value, with
/// `-0.0` below `0.0` and the NaNs at the two ends.
pub open spec fn position(b: u32) -> int {
    if negative(b) {
        -magnitude(b) - 1
    } else {
        magnitude(b)
    }
}

/// The numbers of `a` and `b` compare as `a < b`; false if either is NaN.
pub open spec fn lt(a: u32, b: u32) -> bool {
    !nan(a) && !nan(b) && value(a) < value(b)
}

/// The numbers of `a` and `b` compare as `a <= b`; false if either is NaN.
pub open spec fn le(a: u32, b: u32) -> bool {
    !nan(a) && !nan(b) && value(a) <= value(b)
}

/// `value`, moved up so that it is never negative: a key to sort by where no
/// pattern is NaN.
pub open spec fn value_key(b: u32) -> int {
    value(b) + SIGN
}

/// `position`, moved up so that it is never negative: a key to sort by.
pub open spec fn position_key(b: u32) -> int {
    position(b) + SIGN
}

/// A key that puts numbers in rising order, equal ones level and NaN last.
pub open spec fn rising_key(b: u32) -> int {
    if nan(b) {
        0x2_0000_0000
    } else {
        value_key(b)
    }
}

/// A key that puts numbers in falling order, equal ones level and NaN last.
pub open spec fn falling_key(b: u32) -> int {
    if nan(b) {
        0x2_0000_0000
    } else {
        0x1_0000_0000 - value_key(b)
    }
}

/// The key for rising order.
pub fn key_rising(b: u32) -> (r: u64)
    ensures
        r == rising_key(b),
{
    if is_nan(b) {
        0x2_0000_0000
    } else {
        key_of_value(b)
    }
}

/// The key for falling order.
pub fn key_falling(b: u32) -> (r: u64)
    ensures
        r == falling_key(b),
{
    if is_nan(b) {
        0x2_0000_0000
    } else {
        0x1_0000_0000 - key_of_value(b)
    }
}

/// The pattern of the absolute value.
pub open spec fn abs(b: u32) -> u32 {
    magnitude(b) as u32
}

/// The pattern of the absolute value.
pub fn absolute(b: u32) -> (r: u32)
    ensures
        r == abs(b),
{
    if b >= SIGN {
        b - SIGN
    } else {
        b
    }
}

/// `b`, but no less than `low` and no more than `high`; a NaN stays one.
pub open spec fn clamped(b: u32, low: u32, high: u32) -> u32 {
    if lt(b, low) {
        low
    } else if lt(high, b) {
        high
    } else {
        b
    }
}

/// `b`, but no less than `low` and no more than `high`.
pub fn clamp(b: u32, low: u32, high: u32) -> (r: u32)
    ensures
        r == clamped(b, low, high),
{
    if less(b, low) {
        low
    } else if less(high, b) {
        high
    } else {
        b
    }
}

/// `b`, but `low` if it is below that or a NaN.
pub open spec fn raised(b: u32, low: u32) -> u32 {
    if le(low, b) {
        b
    } else {
        low
    }
}

/// `b`, but `low` if it is below that or a NaN.
pub fn raise(b: u32, low: u32) -> (r: u32)
    ensures
        r == raised(b, low),
{
    if at_most(low, b) {
        b
    } else {
        low
    }
}

/// Whether `b` is the pattern of a NaN.
pub fn is_nan(b: u32) -> (r: bool)
    ensures
        r == nan(b),
{
    if b >= SIGN {
        b - SIGN > INFINITY
    } else {
        b > INFINITY
    }
}

/// The key that orders patterns by value.
pub fn key_of_value(b: u32) -> (r: u64)
    ensures
        r == value_key(b),
{
    if b >= SIGN {
        SIGN as u64 - (b - SIGN) as u64
    } else {
        SIGN as u64 + b as u64
    }
}

/// The key that orders all patterns totally.
pub fn key_of_position(b: u32) -> (r: u64)
    ensures
        r == position_key(b),
{
    if b >= SIGN {
        SIGN as u64 - 1 - (b - SIGN) as u64
    } else {
        SIGN as u64 + b as u64
    }
}

/// Whether `a < b` as numbers.
pub fn less(a: u32, b: u32) -> (r: bool)
    ensures
        r == lt(a, b),
{
    !is_nan(a) && !is_nan(b) && key_of_value(a) < key_of_value(b)
}

/// Whether `a <= b` as numbers.
pub fn at_most(a: u32, b: u32) -> (r: bool)
    ensures
        r == le(a, b),
{
    !is_nan(a) && !is_nan(b) && key_of_value(a) <= key_of_value(b)
}

/// The keys order numbers as `<` does.
pub proof fn keys_follow_order(a: u32, b: u32)
    requires
        !nan(a),
        !nan(b),
    ensures
        lt(a, b) <==> rising_key(a) < rising_key(b),
        lt(a, b) <==> falling_key(b) < falling_key(a),
{
}

/// The total order of bit patterns tells any two patterns apart and agrees
/// with `<` on numbers.
pub proof fn position_is_total(a: u32, b: u32)
    ensures
        position(a) == position(b) <==> a == b,
        lt(a, b) ==> position(a) < position(b),
        0 <= position_key(a) <= u32::MAX,
{
}

} // verus!
