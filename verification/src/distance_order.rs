//! The total order on bit-encoded distances.
//!
//! A distance reaches the library as the raw bit pattern of an IEEE 754
//! double (a `u64`). This module defines the order the ranking sorts by:
//! ascending numeric value, the two encodings of zero equal, and every
//! not-a-number pattern after all numeric values, all not-a-number patterns
//! tied with one another.

use vstd::prelude::*;

verus! {

/// Exponent bits of an IEEE 754 double.
pub const EXPONENT_MASK: u64 = 0x7ff0_0000_0000_0000;

/// Fraction bits of an IEEE 754 double.
pub const FRACTION_MASK: u64 = 0x000f_ffff_ffff_ffff;

/// Sign bit of an IEEE 754 double.
pub const SIGN_MASK: u64 = 0x8000_0000_0000_0000;

/// A pattern encodes a not-a-number value exactly when every exponent bit
/// is set and the fraction is not zero.
pub open spec fn is_nan_bits(bits: u64) -> bool {
    bits & EXPONENT_MASK == EXPONENT_MASK && bits & FRACTION_MASK != 0
}

/// The encoding of negative zero, folded onto positive zero so that the two
/// encodings of the number zero compare as equal.
pub open spec fn normalize_zero(bits: u64) -> u64 {
    if bits == SIGN_MASK {
        0u64
    } else {
        bits
    }
}

/// A key whose unsigned order agrees with the numeric order of the encoded
/// doubles: patterns with the sign bit set (negative values, larger pattern
/// meaning smaller value) are complemented, the rest are moved above them by
/// setting the top bit.
pub open spec fn order_key(bits: u64) -> u64 {
    let n = normalize_zero(bits);
    if n & SIGN_MASK == SIGN_MASK {
        !n
    } else {
        n | SIGN_MASK
    }
}

/// The ranking order on encoded distances: numeric values ascending by
/// their key, every not-a-number pattern after them, and all not-a-number
/// patterns equal to one another.
pub open spec fn dist_le(a: u64, b: u64) -> bool {
    if is_nan_bits(a) {
        is_nan_bits(b)
    } else if is_nan_bits(b) {
        true
    } else {
        order_key(a) <= order_key(b)
    }
}

/// Two encoded distances tie exactly when each precedes the other.
pub open spec fn dist_eq(a: u64, b: u64) -> bool {
    dist_le(a, b) && dist_le(b, a)
}

/// The order is total: of any two encoded distances, one precedes the other.
pub proof fn lemma_dist_le_total(a: u64, b: u64)
    ensures
        dist_le(a, b) || dist_le(b, a),
{
}

/// The order is transitive.
pub proof fn lemma_dist_le_transitive(a: u64, b: u64, c: u64)
    requires
        dist_le(a, b),
        dist_le(b, c),
    ensures
        dist_le(a, c),
{
}

/// Decides whether a bit pattern encodes a not-a-number value.
pub fn is_nan(bits: u64) -> (r: bool)
    ensures
        r == is_nan_bits(bits),
{
    bits & EXPONENT_MASK == EXPONENT_MASK && bits & FRACTION_MASK != 0
}

/// Computes the order key of a bit pattern.
fn sort_key(bits: u64) -> (r: u64)
    ensures
        r == order_key(bits),
{
    let n = if bits == SIGN_MASK {
        0u64
    } else {
        bits
    };
    if n & SIGN_MASK == SIGN_MASK {
        !n
    } else {
        n | SIGN_MASK
    }
}

/// Decides the ranking order on two encoded distances.
pub fn distance_le(a: u64, b: u64) -> (r: bool)
    ensures
        r == dist_le(a, b),
{
    if is_nan(a) {
        is_nan(b)
    } else if is_nan(b) {
        true
    } else {
        sort_key(a) <= sort_key(b)
    }
}

} // verus!
