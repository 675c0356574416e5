//! Similarity scores as IEEE 754 single-precision bit patterns.
//!
//! The engine never computes with floating point: a score is carried as the
//! `u32` bit pattern of the `f32` dot product that the application computed.
//! For bit patterns that do not denote a NaN, the signed-magnitude key
//! defined here orders them exactly as the denoted floating-point values
//! (both zeros map to the key 0), so ranking by `score_key` reproduces
//! floating-point comparison without touching floats.

use vstd::prelude::*;

verus! {

/// The sign bit of an IEEE 754 single-precision bit pattern.
pub open spec fn sign_bit(a: u32) -> bool {
    a >= 0x8000_0000
}

/// The pattern with the sign bit cleared: exponent and fraction.
pub open spec fn magnitude(a: u32) -> int {
    if sign_bit(a) {
        a - 0x8000_0000
    } else {
        a as int
    }
}

/// Whether the pattern denotes a NaN: exponent all ones, fraction non-zero.
pub open spec fn is_nan_bits(a: u32) -> bool {
    magnitude(a) > 0x7f80_0000
}

/// No pattern in the sequence denotes a NaN.
pub open spec fn no_nan(s: Seq<u32>) -> bool {
    forall|i: int| 0 <= i < s.len() ==> !is_nan_bits(#[trigger] s[i])
}

/// The signed-magnitude key of a pattern.  For non-NaN patterns, keys are
/// ordered exactly as the denoted single-precision values, with both zeros
/// at key 0.
pub open spec fn score_key(a: u32) -> int {
    if sign_bit(a) {
        -magnitude(a)
    } else {
        magnitude(a)
    }
}

/// Whether the score denoted by `a` is strictly below the one denoted by `b`.
pub fn score_lt(a: u32, b: u32) -> (r: bool)
    ensures
        r == (score_key(a) < score_key(b)),
{
    let a_neg = a >= 0x8000_0000;
    let b_neg = b >= 0x8000_0000;
    let a_mag = if a_neg { a - 0x8000_0000 } else { a };
    let b_mag = if b_neg { b - 0x8000_0000 } else { b };
    if a_neg {
        if b_neg {
            b_mag < a_mag
        } else {
            a_mag > 0 || b_mag > 0
        }
    } else {
        if b_neg {
            false
        } else {
            a_mag < b_mag
        }
    }
}

/// Whether `a` and `b` denote equal scores (equal keys: identical patterns,
/// or the two zeros).
pub fn score_eq(a: u32, b: u32) -> (r: bool)
    ensures
        r == (score_key(a) == score_key(b)),
{
    let a_neg = a >= 0x8000_0000;
    let b_neg = b >= 0x8000_0000;
    let a_mag = if a_neg { a - 0x8000_0000 } else { a };
    let b_mag = if b_neg { b - 0x8000_0000 } else { b };
    if a_neg == b_neg {
        a_mag == b_mag
    } else {
        a_mag == 0 && b_mag == 0
    }
}

} // verus!
