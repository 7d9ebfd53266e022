//! Order on floating-point bit patterns.
//!
//! Images and bin positions enter the library as IEEE 754 bit patterns. Only
//! their order matters to its decisions, and that is a matter of integers: a
//! pattern is a sign bit and a magnitude, patterns of one sign are ordered as
//! their magnitudes, both zeros are equal, and a NaN compares as false with
//! everything.

use vstd::prelude::*;

verus! {

/// The single-precision pattern of `1.0`.
pub const ONE: u32 = 0x3f80_0000;

/// The single-precision pattern of `-1.0`.
pub const MINUS_ONE: u32 = 0xbf80_0000;

/// The pattern without its sign bit.
pub open spec fn magnitude(x: u32) -> int {
    if x >= 0x8000_0000 {
        x - 0x8000_0000
    } else {
        x as int
    }
}

/// The pattern is not a number.
pub open spec fn is_nan(x: u32) -> bool {
    magnitude(x) > 0x7f80_0000
}

/// The place of a pattern in the order of numbers.
pub open spec fn rank(x: u32) -> int {
    if x >= 0x8000_0000 {
        -magnitude(x)
    } else {
        magnitude(x)
    }
}

/// `x > y` on the numbers that the patterns stand for.
pub open spec fn gt(x: u32, y: u32) -> bool {
    !is_nan(x) && !is_nan(y) && rank(x) > rank(y)
}

/// `x >= y` on the numbers that the patterns stand for.
pub open spec fn ge(x: u32, y: u32) -> bool {
    !is_nan(x) && !is_nan(y) && rank(x) >= rank(y)
}

/// The value of [`magnitude`].
fn magnitude_of(x: u32) -> (m: u32)
    ensures
        m == magnitude(x),
{
    if x >= 0x8000_0000 {
        x - 0x8000_0000
    } else {
        x
    }
}

/// Tests for a NaN.
pub fn nan(x: u32) -> (b: bool)
    ensures
        b == is_nan(x),
{
    magnitude_of(x) > 0x7f80_0000
}

/// The pattern stands for a finite number.
pub open spec fn is_finite(x: u32) -> bool {
    magnitude(x) < 0x7f80_0000
}

/// Tests for a finite number.
pub fn finite(x: u32) -> (b: bool)
    ensures
        b == is_finite(x),
{
    magnitude_of(x) < 0x7f80_0000
}

/// Tests for a zero of either sign.
pub fn zero(x: u32) -> (b: bool)
    ensures
        b == (magnitude(x) == 0),
{
    magnitude_of(x) == 0
}

/// The value of [`rank`].
pub fn rank_of(x: u32) -> (r: i64)
    ensures
        r == rank(x),
{
    if x >= 0x8000_0000 {
        -(magnitude_of(x) as i64)
    } else {
        magnitude_of(x) as i64
    }
}

/// Tests `x > y`.
pub fn greater(x: u32, y: u32) -> (b: bool)
    ensures
        b == gt(x, y),
{
    !nan(x) && !nan(y) && rank_of(x) > rank_of(y)
}

/// Tests `x >= y`.
pub fn at_least(x: u32, y: u32) -> (b: bool)
    ensures
        b == ge(x, y),
{
    !nan(x) && !nan(y) && rank_of(x) >= rank_of(y)
}

/// Tests whether the patterns stand for the same number.
pub fn same_number(x: u32, y: u32) -> (b: bool)
    ensures
        b == (!is_nan(x) && !is_nan(y) && rank(x) == rank(y)),
{
    !nan(x) && !nan(y) && rank_of(x) == rank_of(y)
}

/// The order of numbers, by their patterns: patterns without the sign bit are in the order
/// of the numbers, those with it in the opposite order and below them, and both zeros are
/// one number. Nothing is greater than a NaN, nor is a NaN greater than anything.
pub proof fn lemma_order(x: u32, y: u32)
    ensures
        x < 0x8000_0000 && y < 0x8000_0000 && !is_nan(x) && !is_nan(y) ==> (gt(x, y) <==> x > y),
        x >= 0x8000_0000 && y >= 0x8000_0000 && !is_nan(x) && !is_nan(y) ==> (gt(x, y) <==> x < y),
        x < 0x8000_0000 && y >= 0x8000_0000 && !is_nan(x) && !is_nan(y) ==> (gt(x, y) <==> x != 0
            || y != 0x8000_0000) && !gt(y, x),
        is_nan(x) ==> !gt(x, y) && !gt(y, x),
        !is_nan(x) && !is_nan(y) ==> (ge(x, y) <==> !gt(y, x)),
        is_nan(x) ==> !ge(x, y) && !ge(y, x),
        is_nan(x) <==> 0x7f80_0000 < x < 0x8000_0000 || 0xff80_0000 < x,
        is_finite(x) <==> x < 0x7f80_0000 || 0x8000_0000 <= x < 0xff80_0000,
        magnitude(x) == 0 <==> x == 0 || x == 0x8000_0000,
{
}

} // verus!
