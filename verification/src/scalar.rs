//! Matrix entries as IEEE 754 binary64 bit patterns.
//!
//! Every entry of a matrix is held as the 64-bit pattern of a double. The
//! pivot search and the max-norm only compare magnitudes, and on patterns
//! that is integer work: clearing the sign bit gives the pattern of the
//! absolute value, and among patterns that are not NaN the unsigned integer
//! order is the order of the doubles they encode.

use vstd::prelude::*;

verus! {

/// The sign bit of a pattern.
pub const SIGN_BIT: u64 = 0x8000_0000_0000_0000;

/// Every bit but the sign.
pub const MAGNITUDE_MASK: u64 = 0x7fff_ffff_ffff_ffff;

/// The pattern of positive infinity; a larger magnitude encodes a NaN.
pub const INFINITY_BITS: u64 = 0x7ff0_0000_0000_0000;

/// The pattern of the absolute value of `x`.
pub open spec fn magnitude(x: u64) -> u64 {
    x & MAGNITUDE_MASK
}

/// Whether `x` encodes a NaN.
pub open spec fn is_nan(x: u64) -> bool {
    magnitude(x) > INFINITY_BITS
}

/// The weight by which entries are compared: the magnitude of `x`, and zero
/// for a NaN. A comparison of doubles with a NaN on either side is false, so
/// a NaN never replaces a running maximum that starts at zero; weighing it
/// as zero says the same.
pub open spec fn weight(x: u64) -> u64 {
    if is_nan(x) {
        0
    } else {
        magnitude(x)
    }
}

/// The pattern of `-x`.
pub open spec fn negated(x: u64) -> u64 {
    x ^ SIGN_BIT
}

/// Computes the weight of `x`.
pub fn weigh(x: u64) -> (w: u64)
    ensures
        w == weight(x),
        w <= INFINITY_BITS,
{
    let m = x & MAGNITUDE_MASK;
    if m > INFINITY_BITS {
        0
    } else {
        m
    }
}

/// Flips the sign of `x`.
pub fn negate(x: u64) -> (y: u64)
    ensures
        y == negated(x),
{
    x ^ SIGN_BIT
}

/// A weight is the pattern of a finite or infinite non-negative double.
pub proof fn lemma_weight_bounded(x: u64)
    ensures
        weight(x) <= INFINITY_BITS,
        weight(weight(x)) == weight(x),
{
    let m = x & MAGNITUDE_MASK;
    assert(m & MAGNITUDE_MASK == m) by (bit_vector)
        requires
            m == x & MAGNITUDE_MASK,
    ;
    assert(0u64 & MAGNITUDE_MASK == 0u64) by (bit_vector);
}

} // verus!
