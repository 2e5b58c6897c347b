//! Score ordering with an explicit NaN policy.
//!
//! A candidate's score arrives as a 64-bit floating-point value; the engine
//! carries only its raw bit pattern and defines the order itself, so that the
//! NaN guard is part of the verified logic rather than an implicit default.
//! NaN values rank below every ordered value and tie with one another; all
//! other values follow the usual numeric order (negative zero equals zero).

use vstd::prelude::*;

verus! {

/// Sign bit of an IEEE 754 binary64 bit pattern.
pub const SIGN_MASK: u64 = 0x8000_0000_0000_0000;

/// Exponent field of an IEEE 754 binary64 bit pattern.
pub const EXP_MASK: u64 = 0x7ff0_0000_0000_0000;

/// Fraction field of an IEEE 754 binary64 bit pattern.
pub const FRAC_MASK: u64 = 0x000f_ffff_ffff_ffff;

/// A candidate's score: the raw bits of the caller's 64-bit floating-point
/// value. The boundary layer supplies the bits unchanged; the engine never
/// does floating-point arithmetic on them.
#[derive(Clone, Copy, Debug)]
pub struct Score {
    pub bits: u64,
}

/// A bit pattern denotes NaN when the exponent field is all ones and the
/// fraction field is non-zero.
pub open spec fn is_nan(s: Score) -> bool {
    s.bits & EXP_MASK == EXP_MASK && s.bits & FRAC_MASK != 0
}

/// Order-preserving key of a non-NaN bit pattern: negative values have all
/// bits flipped, non-negative values have the sign bit set, so that unsigned
/// comparison of keys matches the numeric order of the values. Negative zero
/// is first folded onto zero so the two compare as equal.
pub open spec fn order_key(s: Score) -> u64 {
    let b: u64 = if s.bits == SIGN_MASK {
        0
    } else {
        s.bits
    };
    if b & SIGN_MASK == SIGN_MASK {
        !b
    } else {
        b | SIGN_MASK
    }
}

/// Score order, lowest first: NaN ranks at or below everything; two ordered
/// values compare by their keys.
pub open spec fn score_le(a: Score, b: Score) -> bool {
    if is_nan(a) {
        true
    } else if is_nan(b) {
        false
    } else {
        order_key(a) <= order_key(b)
    }
}

/// Two scores tie when each is at or below the other: both NaN, or both
/// ordered with equal keys.
pub open spec fn score_eqv(a: Score, b: Score) -> bool {
    score_le(a, b) && score_le(b, a)
}

/// Runtime NaN test, matching the specification bit for bit.
pub fn score_is_nan(s: Score) -> (r: bool)
    ensures
        r == is_nan(s),
{
    s.bits & EXP_MASK == EXP_MASK && s.bits & FRAC_MASK != 0
}

/// Runtime ordering key, matching the specification bit for bit.
pub fn score_order_key(s: Score) -> (r: u64)
    ensures
        r == order_key(s),
{
    let b: u64 = if s.bits == SIGN_MASK {
        0
    } else {
        s.bits
    };
    if b & SIGN_MASK == SIGN_MASK {
        !b
    } else {
        b | SIGN_MASK
    }
}

/// Runtime score comparison: `a` at or below `b`.
pub fn score_le_exec(a: Score, b: Score) -> (r: bool)
    ensures
        r == score_le(a, b),
{
    if score_is_nan(a) {
        true
    } else if score_is_nan(b) {
        false
    } else {
        score_order_key(a) <= score_order_key(b)
    }
}

} // verus!
