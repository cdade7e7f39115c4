//! IEEE-754 single-precision values carried as their bit patterns.
//!
//! The library never does floating-point arithmetic itself: times and
//! coordinates travel through it as `u32` bit patterns, exactly as they sit
//! in the files. Ordering and equality of such values are a few lines of
//! integer arithmetic on the pattern, stated and implemented here.
use vstd::prelude::*;

verus! {

/// Bit pattern of 1.0.
pub const ONE: u32 = 0x3F80_0000;

/// Bit pattern of 5.0.
pub const FIVE: u32 = 0x40A0_0000;

/// Bit pattern of 5280.0.
pub const MILE: u32 = 0x45A5_0000;

/// Bit pattern of negative infinity.
pub const NEG_INFINITY: u32 = 0xFF80_0000;

/// Bit pattern of positive infinity.
pub const INFINITY: u32 = 0x7F80_0000;

/// Bit pattern of +0.0.
pub const ZERO: u32 = 0;

/// Sign bit cleared: exponent and mantissa.
pub open spec fn magnitude(b: u32) -> int {
    if b >= 0x8000_0000 { b - 0x8000_0000 } else { b as int }
}

/// The pattern is a NaN: all exponent bits set and a non-zero mantissa.
pub open spec fn is_nan(b: u32) -> bool {
    magnitude(b) > 0x7F80_0000
}

/// For patterns that are not NaN, ordering by this integer is ordering by
/// value; both zeros map to 0.
pub open spec fn ordinal(b: u32) -> int {
    if b >= 0x8000_0000 { -magnitude(b) } else { magnitude(b) }
}

/// `a < b` on the values the patterns encode.
pub open spec fn lt(a: u32, b: u32) -> bool {
    !is_nan(a) && !is_nan(b) && ordinal(a) < ordinal(b)
}

/// `a == b` on the values the patterns encode (NaN equals nothing, and
/// the two zeros are equal).
pub open spec fn eq(a: u32, b: u32) -> bool {
    !is_nan(a) && !is_nan(b) && ordinal(a) == ordinal(b)
}

/// A key whose integer order is a total order on patterns that agrees with
/// `lt` wherever `lt` holds.
pub open spec fn total_key(b: u32) -> u32 {
    if b >= 0x8000_0000 { (0xFFFF_FFFF - b) as u32 } else { (b + 0x8000_0000) as u32 }
}

pub fn is_nan_bits(b: u32) -> (r: bool)
    ensures
        r == is_nan(b),
{
    let m: u32 = if b >= 0x8000_0000 { b - 0x8000_0000 } else { b };
    m > 0x7F80_0000
}

/// Float `<` on bit patterns.
pub fn less_than(a: u32, b: u32) -> (r: bool)
    ensures
        r == lt(a, b),
{
    if is_nan_bits(a) || is_nan_bits(b) {
        return false;
    }
    let a_neg = a >= 0x8000_0000;
    let b_neg = b >= 0x8000_0000;
    if a_neg && b_neg {
        a > b
    } else if a_neg {
        // -0 < +0 does not hold
        !(a == 0x8000_0000 && b == 0)
    } else if b_neg {
        false
    } else {
        a < b
    }
}

/// Float `==` on bit patterns.
pub fn equals(a: u32, b: u32) -> (r: bool)
    ensures
        r == eq(a, b),
{
    if is_nan_bits(a) || is_nan_bits(b) {
        false
    } else if a == b {
        true
    } else {
        (a == 0 && b == 0x8000_0000) || (a == 0x8000_0000 && b == 0)
    }
}

pub fn total_order_key(b: u32) -> (r: u32)
    ensures
        r == total_key(b),
{
    if b >= 0x8000_0000 { 0xFFFF_FFFF - b } else { b + 0x8000_0000 }
}

/// The total key never orders two values against their float order.
pub proof fn lemma_total_key_respects_lt(a: u32, b: u32)
    requires
        total_key(a) <= total_key(b),
    ensures
        !lt(b, a),
{
}

} // verus!
