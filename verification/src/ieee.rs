//! Real numbers as IEEE-754 bit patterns.
//!
//! The library does no arithmetic on real numbers. It carries them as the
//! bit patterns of binary64 and binary32 numbers, tells the patterns that
//! stand for numbers from those that do not, and orders them as the
//! numbers are ordered: by sign and magnitude, with both zeros equal and
//! no pattern of a not-a-number above or below any other.

use vstd::prelude::*;

verus! {

/// The pattern of the binary64 number zero.
pub const ZERO64: u64 = 0;

/// The pattern of the binary64 number one.
pub const ONE64: u64 = 0x3FF0_0000_0000_0000;

/// The pattern of binary64 infinity: every pattern with a larger magnitude
/// is a not-a-number.
pub const INFINITY64: u64 = 0x7FF0_0000_0000_0000;

/// The bits of a binary32 pattern that hold its exponent. A pattern with
/// all of them set is an infinity or a not-a-number.
pub const EXPONENT32: u32 = 0x7F80_0000;

/// The pattern without its sign.
pub open spec fn magnitude64(bits: u64) -> nat {
    (bits % 0x8000_0000_0000_0000) as nat
}

/// Whether the sign of the pattern is set.
pub open spec fn negative64(bits: u64) -> bool {
    bits >= 0x8000_0000_0000_0000
}

/// Whether the pattern stands for no number.
pub open spec fn is_nan64(bits: u64) -> bool {
    magnitude64(bits) > 0x7FF0_0000_0000_0000
}

/// The place of a pattern in the order of the numbers: an integer that is
/// larger exactly where the number is larger. Both zeros have place 0.
pub open spec fn rank64(bits: u64) -> int
    recommends
        !is_nan64(bits),
{
    if negative64(bits) {
        -(magnitude64(bits) as int)
    } else {
        magnitude64(bits) as int
    }
}

/// Whether the number of pattern `a` is greater than that of `b`. It is
/// not where either is a not-a-number.
pub open spec fn gt64(a: u64, b: u64) -> bool {
    !is_nan64(a) && !is_nan64(b) && rank64(a) > rank64(b)
}

/// Whether the number of pattern `a` is at least that of `b`.
pub open spec fn ge64(a: u64, b: u64) -> bool {
    !is_nan64(a) && !is_nan64(b) && rank64(a) >= rank64(b)
}

/// The larger of two numbers. Where one is a not-a-number it is the
/// other, and of two equal numbers it is the first.
pub open spec fn max64(a: u64, b: u64) -> u64 {
    if is_nan64(a) {
        b
    } else if is_nan64(b) {
        a
    } else if rank64(a) >= rank64(b) {
        a
    } else {
        b
    }
}

/// Whether a binary32 pattern stands for a finite number.
pub open spec fn is_finite32(bits: u32) -> bool {
    (bits / 0x80_0000) % 256 != 255
}

/// Whether the pattern stands for no number.
pub fn nan64(bits: u64) -> (b: bool)
    ensures
        b == is_nan64(bits),
{
    bits % 0x8000_0000_0000_0000 > INFINITY64
}

/// Whether the number of pattern `a` is greater than that of `b`.
pub fn greater64(a: u64, b: u64) -> (r: bool)
    ensures
        r == gt64(a, b),
{
    if nan64(a) || nan64(b) {
        return false;
    }
    let ma: u64 = a % 0x8000_0000_0000_0000;
    let mb: u64 = b % 0x8000_0000_0000_0000;
    let na: bool = a >= 0x8000_0000_0000_0000;
    let nb: bool = b >= 0x8000_0000_0000_0000;
    if na && nb {
        ma < mb
    } else if na {
        false
    } else if nb {
        ma > 0 || mb > 0
    } else {
        ma > mb
    }
}

/// The larger of two numbers, by their patterns.
pub fn larger64(a: u64, b: u64) -> (m: u64)
    ensures
        m == max64(a, b),
{
    if nan64(a) {
        b
    } else if nan64(b) {
        a
    } else if greater64(b, a) {
        b
    } else {
        a
    }
}

/// Whether a binary32 pattern stands for a finite number.
pub fn finite32(bits: u32) -> (b: bool)
    ensures
        b == is_finite32(bits),
{
    assert(((bits & 0x7F80_0000) != 0x7F80_0000) == ((bits / 0x80_0000) % 256 != 255))
        by (bit_vector);
    (bits & EXPONENT32) != EXPONENT32
}

/// The order of the numbers is transitive, and no number is above itself.
pub proof fn lemma_gt64_order(a: u64, b: u64, c: u64)
    ensures
        !gt64(a, a),
        gt64(a, b) && gt64(b, c) ==> gt64(a, c),
        ge64(a, b) && gt64(b, c) ==> gt64(a, c),
        gt64(a, b) ==> !gt64(b, a),
{
}

} // verus!
