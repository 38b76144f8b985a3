//! Densities are carried as the bit patterns of IEEE-754 binary32 numbers. This module
//! orders such bit patterns the way the numbers they encode are ordered, using integer
//! arithmetic only.

use vstd::prelude::*;

verus! {

/// The bit that holds the sign.
pub const SIGN_BIT: u32 = 0x8000_0000;

/// The magnitude bits of an infinity: every exponent bit set, no fraction bit set.
pub const INFINITY_MAGNITUDE: u32 = 0x7f80_0000;

/// The bit pattern without its sign bit.
pub open spec fn magnitude(bits: u32) -> int {
    if bits >= SIGN_BIT {
        bits - SIGN_BIT
    } else {
        bits as int
    }
}

/// The pattern encodes no number: all exponent bits set and some fraction bit set.
pub open spec fn is_nan(bits: u32) -> bool {
    magnitude(bits) > INFINITY_MAGNITUDE
}

/// The pattern encodes a number that is neither an infinity nor a NaN.
pub open spec fn is_finite(bits: u32) -> bool {
    magnitude(bits) < INFINITY_MAGNITUDE
}

/// An integer that grows exactly as the encoded number grows. Both zeros get rank 0.
///
/// Among patterns with the sign bit clear a larger magnitude encodes a larger number;
/// with the sign bit set the number is the negation of what the magnitude encodes.
pub open spec fn rank(bits: u32) -> int {
    if bits >= SIGN_BIT {
        -magnitude(bits)
    } else {
        magnitude(bits)
    }
}

/// `a >= b` on the encoded numbers: false whenever either is a NaN.
pub open spec fn spec_ge(a: u32, b: u32) -> bool {
    !is_nan(a) && !is_nan(b) && rank(a) >= rank(b)
}

/// `a == b` on the encoded numbers: false whenever either is a NaN, true for the two zeros.
pub open spec fn spec_same(a: u32, b: u32) -> bool {
    !is_nan(a) && !is_nan(b) && rank(a) == rank(b)
}

/// Two finite, different numbers: the only pairs between which a position can be
/// interpolated by dividing by their difference.
pub open spec fn spec_interpolable(a: u32, b: u32) -> bool {
    is_finite(a) && is_finite(b) && rank(a) != rank(b)
}

fn magnitude_of(bits: u32) -> (m: u32)
    ensures
        m == magnitude(bits),
{
    if bits >= SIGN_BIT {
        bits - SIGN_BIT
    } else {
        bits
    }
}

fn rank_of(bits: u32) -> (r: i64)
    ensures
        r == rank(bits),
{
    let m: u32 = magnitude_of(bits);
    if bits >= SIGN_BIT {
        -(m as i64)
    } else {
        m as i64
    }
}

/// Whether the pattern encodes a NaN.
pub fn weight_is_nan(bits: u32) -> (r: bool)
    ensures
        r == is_nan(bits),
{
    magnitude_of(bits) > INFINITY_MAGNITUDE
}

/// Whether the pattern encodes a finite number.
pub fn weight_is_finite(bits: u32) -> (r: bool)
    ensures
        r == is_finite(bits),
{
    magnitude_of(bits) < INFINITY_MAGNITUDE
}

/// Whether the number encoded by `a` is greater than or equal to the one encoded by `b`.
pub fn weight_ge(a: u32, b: u32) -> (r: bool)
    ensures
        r == spec_ge(a, b),
{
    !weight_is_nan(a) && !weight_is_nan(b) && rank_of(a) >= rank_of(b)
}

/// Whether `a` and `b` encode equal numbers.
pub fn weight_same(a: u32, b: u32) -> (r: bool)
    ensures
        r == spec_same(a, b),
{
    !weight_is_nan(a) && !weight_is_nan(b) && rank_of(a) == rank_of(b)
}

/// Whether `a` and `b` encode two finite numbers that differ.
pub fn weight_interpolable(a: u32, b: u32) -> (r: bool)
    ensures
        r == spec_interpolable(a, b),
{
    weight_is_finite(a) && weight_is_finite(b) && rank_of(a) != rank_of(b)
}

/// Comparison is total on numbers: of two patterns that encode numbers, one is greater
/// than or equal to the other, and both directions hold exactly when they are equal.
pub proof fn lemma_ge_total(a: u32, b: u32)
    requires
        !is_nan(a),
        !is_nan(b),
    ensures
        spec_ge(a, b) || spec_ge(b, a),
        spec_ge(a, b) && spec_ge(b, a) <==> spec_same(a, b),
{
}

/// Comparison is transitive.
pub proof fn lemma_ge_transitive(a: u32, b: u32, c: u32)
    requires
        spec_ge(a, b),
        spec_ge(b, c),
    ensures
        spec_ge(a, c),
{
}

} // verus!
