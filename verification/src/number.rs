//! Numbers, as the bit patterns of IEEE 754 binary64 values.
//!
//! A pattern is a sign bit over 63 bits of magnitude.  Among patterns that
//! are not NaN, a larger magnitude is a value further from zero, so order
//! and equality of values can be read off the patterns; sums, products and
//! the like cannot, and are left to the host.

use vstd::prelude::*;

verus! {

pub const SIGN_BIT: u64 = 0x8000_0000_0000_0000;

pub const MAGNITUDE_BITS: u64 = 0x7fff_ffff_ffff_ffff;

/// The magnitude of positive and negative infinity: every larger magnitude
/// is a NaN.
pub const INFINITY: u64 = 0x7ff0_0000_0000_0000;

pub open spec fn magnitude(bits: u64) -> u64 {
    bits & MAGNITUDE_BITS
}

pub open spec fn is_negative(bits: u64) -> bool {
    bits & SIGN_BIT != 0
}

pub open spec fn is_nan(bits: u64) -> bool {
    magnitude(bits) > INFINITY
}

/// The place of a number that is not a NaN among all such numbers: its
/// magnitude, counted downwards from zero for negative numbers.  The two
/// zeros share a place.
pub open spec fn ordinal(bits: u64) -> int {
    if is_negative(bits) {
        -(magnitude(bits) as int)
    } else {
        magnitude(bits) as int
    }
}

/// The number with the opposite sign.
pub open spec fn negated(bits: u64) -> u64 {
    bits ^ SIGN_BIT
}

/// Equality of numbers: a NaN equals nothing, itself included, and the two
/// zeros are equal.
pub open spec fn equal(left: u64, right: u64) -> bool {
    !is_nan(left) && !is_nan(right) && ordinal(left) == ordinal(right)
}

/// Whether `left` is less than `right`; never so where either is a NaN.
pub open spec fn less(left: u64, right: u64) -> bool {
    !is_nan(left) && !is_nan(right) && ordinal(left) < ordinal(right)
}

/// Whether `left` is at most `right`; never so where either is a NaN.
pub open spec fn less_or_equal(left: u64, right: u64) -> bool {
    !is_nan(left) && !is_nan(right) && ordinal(left) <= ordinal(right)
}

pub fn negate(bits: u64) -> (result: u64)
    ensures
        result == negated(bits),
{
    bits ^ SIGN_BIT
}

pub fn nan(bits: u64) -> (result: bool)
    ensures
        result == is_nan(bits),
{
    bits & MAGNITUDE_BITS > INFINITY
}

fn place(bits: u64) -> (result: i128)
    ensures
        result == ordinal(bits),
{
    let size: u64 = bits & MAGNITUDE_BITS;
    if bits & SIGN_BIT != 0 {
        -(size as i128)
    } else {
        size as i128
    }
}

pub fn equals(left: u64, right: u64) -> (result: bool)
    ensures
        result == equal(left, right),
{
    !nan(left) && !nan(right) && place(left) == place(right)
}

pub fn is_less(left: u64, right: u64) -> (result: bool)
    ensures
        result == less(left, right),
{
    !nan(left) && !nan(right) && place(left) < place(right)
}

pub fn is_less_or_equal(left: u64, right: u64) -> (result: bool)
    ensures
        result == less_or_equal(left, right),
{
    !nan(left) && !nan(right) && place(left) <= place(right)
}

} // verus!
