//! Numbers as IEEE-754 binary64 bit patterns.
//!
//! Every number that flows through this crate is a `u64` holding the bit
//! pattern of a double. Sign, magnitude, ordering and the special values are
//! decided here on the pattern itself; everything that rounds (sums,
//! quotients, transcendental functions) is left to the arithmetic unit that
//! callers hand to the evaluator.
use vstd::prelude::*;

verus! {

/// The sign bit alone: the pattern of negative zero.
pub const SIGN_BIT: u64 = 0x8000_0000_0000_0000;

/// Positive infinity. Larger magnitudes are NaNs.
pub const INFINITY: u64 = 0x7FF0_0000_0000_0000;

/// Negative infinity.
pub const NEG_INFINITY: u64 = 0xFFF0_0000_0000_0000;

/// Positive zero.
pub const ZERO: u64 = 0;

/// The number -1.
pub const MINUS_ONE: u64 = 0xBFF0_0000_0000_0000;

/// The number 1/2.
pub const HALF: u64 = 0x3FE0_0000_0000_0000;

/// The number 20.
pub const TWENTY: u64 = 0x4034_0000_0000_0000;

/// The double nearest to the circle constant.
pub const PI: u64 = 0x4009_21FB_5444_2D18;

/// The double nearest to Euler's number.
pub const E: u64 = 0x4005_BF0A_8B14_5769;

/// The pattern with its sign bit cleared.
pub open spec fn magnitude(bits: u64) -> u64 {
    if bits >= SIGN_BIT {
        (bits - SIGN_BIT) as u64
    } else {
        bits
    }
}

/// Whether the pattern is a NaN: all exponent bits set and a non-zero fraction.
pub open spec fn nan(bits: u64) -> bool {
    magnitude(bits) > INFINITY
}

/// The place of a non-NaN pattern on the number line: the magnitude, negated
/// when the sign bit is set. Both zeros share place 0, and a larger number
/// has a larger place.
pub open spec fn rank(bits: u64) -> int {
    if bits >= SIGN_BIT {
        -(magnitude(bits) as int)
    } else {
        bits as int
    }
}

/// The comparison `a <= b` of two doubles: false as soon as either is a NaN.
pub open spec fn at_most(a: u64, b: u64) -> bool {
    !nan(a) && !nan(b) && rank(a) <= rank(b)
}

/// The comparison `a < b` of two doubles: false as soon as either is a NaN.
pub open spec fn below(a: u64, b: u64) -> bool {
    !nan(a) && !nan(b) && rank(a) < rank(b)
}

/// Absolute value: clears the sign bit, of a NaN too.
pub fn abs(bits: u64) -> (r: u64)
    ensures
        r == magnitude(bits),
{
    if bits >= SIGN_BIT {
        bits - SIGN_BIT
    } else {
        bits
    }
}

/// Tells whether the pattern is a NaN.
pub fn is_nan(bits: u64) -> (r: bool)
    ensures
        r == nan(bits),
{
    abs(bits) > INFINITY
}

/// Decides `a <= b` on the patterns.
pub fn le(a: u64, b: u64) -> (r: bool)
    ensures
        r == at_most(a, b),
{
    if is_nan(a) || is_nan(b) {
        false
    } else if a >= SIGN_BIT {
        b < SIGN_BIT || abs(b) <= abs(a)
    } else {
        (b < SIGN_BIT && a <= b) || (a == 0 && b == SIGN_BIT)
    }
}

/// Decides `a < b` on the patterns.
pub fn lt(a: u64, b: u64) -> (r: bool)
    ensures
        r == below(a, b),
{
    if is_nan(a) || is_nan(b) {
        false
    } else if a >= SIGN_BIT {
        (b < SIGN_BIT && (a > SIGN_BIT || b > 0)) || (b >= SIGN_BIT && abs(b) < abs(a))
    } else {
        b < SIGN_BIT && a < b
    }
}

} // verus!
