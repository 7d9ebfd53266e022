//! Order on double-precision bit patterns, see [`crate::ieee`].

use vstd::prelude::*;

verus! {

/// The pattern of plus infinity.
pub const INFINITY: u64 = 0x7ff0_0000_0000_0000;

/// The pattern of minus infinity.
pub const NEG_INFINITY: u64 = 0xfff0_0000_0000_0000;

/// The pattern of `0.0`.
pub const ZERO: u64 = 0;

/// The pattern without its sign bit.
pub open spec fn magnitude(x: u64) -> int {
    if x >= 0x8000_0000_0000_0000 {
        x - 0x8000_0000_0000_0000
    } else {
        x as int
    }
}

/// The pattern is not a number.
pub open spec fn is_nan(x: u64) -> bool {
    magnitude(x) > 0x7ff0_0000_0000_0000
}

/// The pattern stands for a finite number.
pub open spec fn is_finite(x: u64) -> bool {
    magnitude(x) < 0x7ff0_0000_0000_0000
}

/// The place of a pattern in the order of numbers.
pub open spec fn rank(x: u64) -> int {
    if x >= 0x8000_0000_0000_0000 {
        -magnitude(x)
    } else {
        magnitude(x)
    }
}

/// `x > y` on the numbers that the patterns stand for.
pub open spec fn gt(x: u64, y: u64) -> bool {
    !is_nan(x) && !is_nan(y) && rank(x) > rank(y)
}

/// Tests for a NaN.
pub fn nan(x: u64) -> (b: bool)
    ensures
        b == is_nan(x),
{
    if x >= 0x8000_0000_0000_0000 {
        x - 0x8000_0000_0000_0000 > 0x7ff0_0000_0000_0000
    } else {
        x > 0x7ff0_0000_0000_0000
    }
}

/// The value of [`rank`].
pub fn rank_of(x: u64) -> (r: i64)
    ensures
        r == rank(x),
{
    if x >= 0x8000_0000_0000_0000 {
        -((x - 0x8000_0000_0000_0000) as i64)
    } else {
        x as i64
    }
}

/// Tests `x > y`.
pub fn greater(x: u64, y: u64) -> (b: bool)
    ensures
        b == gt(x, y),
{
    !nan(x) && !nan(y) && rank_of(x) > rank_of(y)
}

/// Tests whether the patterns stand for the same number.
pub fn same_number(x: u64, y: u64) -> (b: bool)
    ensures
        b == (!is_nan(x) && !is_nan(y) && rank(x) == rank(y)),
{
    !nan(x) && !nan(y) && rank_of(x) == rank_of(y)
}

/// The greater of two numbers; the other one where one is a NaN.
pub open spec fn max_of(x: u64, y: u64) -> u64 {
    if is_nan(x) || gt(y, x) {
        y
    } else {
        x
    }
}

/// The smaller of two numbers; the other one where one is a NaN.
pub open spec fn min_of(x: u64, y: u64) -> u64 {
    if is_nan(x) || gt(x, y) {
        y
    } else {
        x
    }
}

/// The value of [`max_of`].
pub fn max(x: u64, y: u64) -> (m: u64)
    ensures
        m == max_of(x, y),
{
    if nan(x) || greater(y, x) {
        y
    } else {
        x
    }
}

/// The value of [`min_of`].
pub fn min(x: u64, y: u64) -> (m: u64)
    ensures
        m == min_of(x, y),
{
    if nan(x) || greater(x, y) {
        y
    } else {
        x
    }
}

/// `hi` is the largest of the values that take part, NaNs left out; minus infinity
/// where there is none.
pub open spec fn is_largest(values: Seq<u64>, takes_part: spec_fn(int) -> bool, hi: u64) -> bool {
    &&& !is_nan(hi)
    &&& forall|k: int|
        0 <= k < values.len() && takes_part(k) ==> is_nan(#[trigger] values[k]) || rank(values[k])
            <= rank(hi)
    &&& hi == NEG_INFINITY || exists|k: int|
        0 <= k < values.len() && takes_part(k) && #[trigger] values[k] == hi
}

/// `lo` is the smallest of the values that take part, NaNs left out; plus infinity
/// where there is none.
pub open spec fn is_smallest(values: Seq<u64>, takes_part: spec_fn(int) -> bool, lo: u64) -> bool {
    &&& !is_nan(lo)
    &&& forall|k: int|
        0 <= k < values.len() && takes_part(k) ==> is_nan(#[trigger] values[k]) || rank(values[k])
            >= rank(lo)
    &&& lo == INFINITY || exists|k: int|
        0 <= k < values.len() && takes_part(k) && #[trigger] values[k] == lo
}

/// The largest of the values is determined, up to the sign of a zero.
pub proof fn lemma_largest_unique(
    values: Seq<u64>,
    takes_part: spec_fn(int) -> bool,
    a: u64,
    b: u64,
)
    requires
        is_largest(values, takes_part, a),
        is_largest(values, takes_part, b),
    ensures
        rank(a) == rank(b),
{
    if a != NEG_INFINITY {
        let k = choose|k: int| 0 <= k < values.len() && takes_part(k) && #[trigger] values[k] == a;
        assert(rank(values[k]) <= rank(b));
    }
    if b != NEG_INFINITY {
        let k = choose|k: int| 0 <= k < values.len() && takes_part(k) && #[trigger] values[k] == b;
        assert(rank(values[k]) <= rank(a));
    }
}

/// The smallest of the values is determined, up to the sign of a zero.
pub proof fn lemma_smallest_unique(
    values: Seq<u64>,
    takes_part: spec_fn(int) -> bool,
    a: u64,
    b: u64,
)
    requires
        is_smallest(values, takes_part, a),
        is_smallest(values, takes_part, b),
    ensures
        rank(a) == rank(b),
{
    if a != INFINITY {
        let k = choose|k: int| 0 <= k < values.len() && takes_part(k) && #[trigger] values[k] == a;
        assert(rank(values[k]) >= rank(b));
    }
    if b != INFINITY {
        let k = choose|k: int| 0 <= k < values.len() && takes_part(k) && #[trigger] values[k] == b;
        assert(rank(values[k]) >= rank(a));
    }
}

/// The order of numbers, by their patterns: patterns without the sign bit are in the order
/// of the numbers, those with it in the opposite order and below them, and both zeros are
/// one number. Nothing is greater than a NaN, nor is a NaN greater than anything.
pub proof fn lemma_order(x: u64, y: u64)
    ensures
        x < 0x8000_0000_0000_0000 && y < 0x8000_0000_0000_0000 && !is_nan(x) && !is_nan(y) ==> (gt(
            x,
            y,
        ) <==> x > y),
        x >= 0x8000_0000_0000_0000 && y >= 0x8000_0000_0000_0000 && !is_nan(x) && !is_nan(y) ==> (gt(
            x,
            y,
        ) <==> x < y),
        x < 0x8000_0000_0000_0000 && y >= 0x8000_0000_0000_0000 && !is_nan(x) && !is_nan(y) ==> (gt(
            x,
            y,
        ) <==> x != 0 || y != 0x8000_0000_0000_0000) && !gt(y, x),
        is_nan(x) ==> !gt(x, y) && !gt(y, x),
        is_nan(x) <==> 0x7ff0_0000_0000_0000 < x < 0x8000_0000_0000_0000 || 0xfff0_0000_0000_0000
            < x,
{
}

/// The larger and the smaller of two numbers are the two numbers, in order; of a NaN and a
/// number both are the number.
pub proof fn lemma_larger_and_smaller(x: u64, y: u64)
    ensures
        !is_nan(x) && !is_nan(y) ==> rank(min_of(x, y)) <= rank(max_of(x, y)) && ((min_of(x, y)
            == x && max_of(x, y) == y) || (min_of(x, y) == y && max_of(x, y) == x) || (min_of(x, y)
            == x && max_of(x, y) == x && rank(x) == rank(y))),
        is_nan(x) ==> max_of(x, y) == y && min_of(x, y) == y,
        is_nan(y) && !is_nan(x) ==> max_of(x, y) == x && min_of(x, y) == x,
{
}

} // verus!
