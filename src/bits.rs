//! Order and NaN tests on IEEE-754 binary64 values held as bit patterns.
use vstd::prelude::*;

verus! {

/// The sign bit of a binary64 value.
pub const SIGN_BIT: u64 = 0x8000_0000_0000_0000;

/// The bit pattern of positive infinity: a larger magnitude is a NaN.
pub const INFINITY_BITS: u64 = 0x7ff0_0000_0000_0000;

/// The bit pattern of negative zero, the neutral element of float addition.
pub const NEG_ZERO_BITS: u64 = 0x8000_0000_0000_0000;

/// The bit pattern of positive zero.
pub const ZERO_BITS: u64 = 0;

pub open spec fn is_negative(b: u64) -> bool {
    b >= SIGN_BIT
}

/// The value's bits without the sign bit.
pub open spec fn magnitude(b: u64) -> int {
    if b >= SIGN_BIT {
        b - SIGN_BIT
    } else {
        b as int
    }
}

pub open spec fn is_nan(b: u64) -> bool {
    magnitude(b) > INFINITY_BITS
}

/// `a < b` on the binary64 values: false where either is a NaN, and the two
/// zeros compare equal.
pub open spec fn less_than(a: u64, b: u64) -> bool {
    if is_nan(a) || is_nan(b) {
        false
    } else if magnitude(a) == 0 && magnitude(b) == 0 {
        false
    } else if is_negative(a) != is_negative(b) {
        is_negative(a)
    } else if is_negative(a) {
        magnitude(a) > magnitude(b)
    } else {
        magnitude(a) < magnitude(b)
    }
}

fn magnitude_of(b: u64) -> (r: u64)
    ensures
        r == magnitude(b),
{
    if b >= SIGN_BIT {
        b - SIGN_BIT
    } else {
        b
    }
}

/// Whether the binary64 value with bits `b` is a NaN.
pub fn bits_is_nan(b: u64) -> (r: bool)
    ensures
        r == is_nan(b),
{
    magnitude_of(b) > INFINITY_BITS
}

/// `a < b` on the binary64 values with bits `a` and `b`.
pub fn bits_less_than(a: u64, b: u64) -> (r: bool)
    ensures
        r == less_than(a, b),
{
    let ma = magnitude_of(a);
    let mb = magnitude_of(b);
    if ma > INFINITY_BITS || mb > INFINITY_BITS {
        false
    } else if ma == 0 && mb == 0 {
        false
    } else if (a >= SIGN_BIT) != (b >= SIGN_BIT) {
        a >= SIGN_BIT
    } else if a >= SIGN_BIT {
        ma > mb
    } else {
        ma < mb
    }
}

} // verus!
