//! Floating point numbers as IEEE 754 bit patterns, and their order.
//!
//! The library carries such numbers and compares them; it computes with none.

use vstd::prelude::*;

verus! {

/// The bits of the double 0.
pub const ZERO: u64 = 0;

/// The bits of the double 1/2.
pub const HALF: u64 = 0x3fe0_0000_0000_0000;

/// The bits of the double 1.
pub const ONE: u64 = 0x3ff0_0000_0000_0000;

/// The bits of infinity.
pub const INFINITY: u64 = 0x7ff0_0000_0000_0000;

/// The bits of negative infinity as a double.
pub const NEG_INFINITY: u64 = 0xfff0_0000_0000_0000;

/// The value without its sign bit.
pub open spec fn magnitude(b: u64) -> int {
    if b < 0x8000_0000_0000_0000 {
        b as int
    } else {
        b - 0x8000_0000_0000_0000
    }
}

/// The pattern stands for no number.
pub open spec fn is_nan(b: u64) -> bool {
    magnitude(b) > 0x7ff0_0000_0000_0000
}

/// An integer that orders doubles as their values do; both zeros have rank 0.
pub open spec fn rank(b: u64) -> int {
    if b < 0x8000_0000_0000_0000 {
        magnitude(b)
    } else {
        -magnitude(b)
    }
}

/// `a < b` on doubles: false as soon as one is not a number.
pub open spec fn less(a: u64, b: u64) -> bool {
    !is_nan(a) && !is_nan(b) && rank(a) < rank(b)
}

/// `a <= b` on doubles: false as soon as one is not a number.
pub open spec fn less_eq(a: u64, b: u64) -> bool {
    !is_nan(a) && !is_nan(b) && rank(a) <= rank(b)
}

/// `a == b` on doubles: false as soon as one is not a number.
pub open spec fn same(a: u64, b: u64) -> bool {
    !is_nan(a) && !is_nan(b) && rank(a) == rank(b)
}

/// Tells whether the pattern stands for no number.
pub fn not_a_number(b: u64) -> (r: bool)
    ensures
        r == is_nan(b),
{
    if b < 0x8000_0000_0000_0000 {
        b > 0x7ff0_0000_0000_0000
    } else {
        b - 0x8000_0000_0000_0000 > 0x7ff0_0000_0000_0000
    }
}

/// The rank of a double as a machine number.
pub fn rank_of(b: u64) -> (r: i128)
    ensures
        r == rank(b),
{
    if b < 0x8000_0000_0000_0000 {
        b as i128
    } else {
        -((b - 0x8000_0000_0000_0000) as i128)
    }
}

/// Compares two doubles with `<`.
pub fn is_less(a: u64, b: u64) -> (r: bool)
    ensures
        r == less(a, b),
{
    !not_a_number(a) && !not_a_number(b) && rank_of(a) < rank_of(b)
}

/// Compares two doubles with `<=`.
pub fn is_less_eq(a: u64, b: u64) -> (r: bool)
    ensures
        r == less_eq(a, b),
{
    !not_a_number(a) && !not_a_number(b) && rank_of(a) <= rank_of(b)
}

/// Compares two doubles with `==`.
pub fn is_same(a: u64, b: u64) -> (r: bool)
    ensures
        r == same(a, b),
{
    !not_a_number(a) && !not_a_number(b) && rank_of(a) == rank_of(b)
}

/// The order that puts every single precision pattern in its place, numbers or
/// not: negative ones below positive ones, each by growing magnitude away from
/// the zeros, and the two zeros apart.
pub open spec fn total_rank(b: u32) -> int {
    if b < 0x8000_0000 {
        b as int
    } else {
        -(b - 0x8000_0000) - 1
    }
}

/// The single precision pattern stands for no number.
pub open spec fn is_nan_single(b: u32) -> bool {
    if b < 0x8000_0000 {
        b > 0x7f80_0000
    } else {
        b - 0x8000_0000 > 0x7f80_0000
    }
}

/// An integer that orders single precision numbers as their values do.
pub open spec fn rank_single(b: u32) -> int {
    if b < 0x8000_0000 {
        b as int
    } else {
        -(b - 0x8000_0000)
    }
}

/// `a <= b` on single precision numbers.
pub open spec fn less_eq_single(a: u32, b: u32) -> bool {
    !is_nan_single(a) && !is_nan_single(b) && rank_single(a) <= rank_single(b)
}

/// The place of a single precision pattern in the total order.
pub fn total_rank_of(b: u32) -> (r: i64)
    ensures
        r == total_rank(b),
{
    if b < 0x8000_0000 {
        b as i64
    } else {
        -((b - 0x8000_0000) as i64) - 1
    }
}

/// Compares two single precision numbers with `<=`.
pub fn is_less_eq_single(a: u32, b: u32) -> (r: bool)
    ensures
        r == less_eq_single(a, b),
{
    let nan_a: bool = if a < 0x8000_0000 { a > 0x7f80_0000 } else { a - 0x8000_0000 > 0x7f80_0000 };
    let nan_b: bool = if b < 0x8000_0000 { b > 0x7f80_0000 } else { b - 0x8000_0000 > 0x7f80_0000 };
    let rank_a: i64 = if a < 0x8000_0000 { a as i64 } else { -((a - 0x8000_0000) as i64) };
    let rank_b: i64 = if b < 0x8000_0000 { b as i64 } else { -((b - 0x8000_0000) as i64) };
    !nan_a && !nan_b && rank_a <= rank_b
}

/// The bits of the double -1.
pub const MINUS_ONE: u64 = 0xbff0_0000_0000_0000;

/// A double brought into the range from -1 to 1; what is no number stays so.
pub open spec fn clamped(b: u64) -> u64 {
    if less(b, MINUS_ONE) {
        MINUS_ONE
    } else if less(ONE, b) {
        ONE
    } else {
        b
    }
}

/// Brings a double into the range from -1 to 1.
pub fn clamp_unit(b: u64) -> (r: u64)
    ensures
        r == clamped(b),
{
    if is_less(b, MINUS_ONE) {
        MINUS_ONE
    } else if is_less(ONE, b) {
        ONE
    } else {
        b
    }
}

} // verus!
