//! Ordering of real values held as IEEE 754 binary64 bit patterns.
//!
//! Parameter values and fitness scores are carried through the library as the
//! bit patterns of doubles. They are compared by a key whose unsigned order is
//! the total order of doubles: negative values by descending magnitude, then
//! positive values by ascending magnitude, with NaNs at both ends.
use vstd::prelude::*;

verus! {

pub const SIGN_BIT: u64 = 0x8000_0000_0000_0000;

pub const EXPONENT_BITS: u64 = 0x7FF0_0000_0000_0000;

pub const MANTISSA_BITS: u64 = 0x000F_FFFF_FFFF_FFFF;

/// The key of `bits` in the total order of doubles.
pub open spec fn order_key(bits: u64) -> u64 {
    if bits >= SIGN_BIT {
        !bits
    } else {
        bits | SIGN_BIT
    }
}

/// Whether `bits` encodes a NaN: all exponent bits set, mantissa not zero.
pub open spec fn is_nan_bits(bits: u64) -> bool {
    (bits & EXPONENT_BITS) == EXPONENT_BITS && (bits & MANTISSA_BITS) != 0
}

/// Whether `a` comes strictly before `b` in the total order of doubles.
pub open spec fn precedes(a: u64, b: u64) -> bool {
    order_key(a) < order_key(b)
}

/// Whether `v` lies in the half-open interval from `low` (included) to `high`
/// (excluded), in the total order of doubles.
pub open spec fn in_domain(v: u64, low: u64, high: u64) -> bool {
    order_key(low) <= order_key(v) && order_key(v) < order_key(high)
}

/// The key of `bits` in the total order of doubles.
pub fn key(bits: u64) -> (r: u64)
    ensures
        r == order_key(bits),
{
    if bits >= SIGN_BIT {
        !bits
    } else {
        bits | SIGN_BIT
    }
}

/// Whether `bits` encodes a NaN.
pub fn is_nan(bits: u64) -> (r: bool)
    ensures
        r == is_nan_bits(bits),
{
    (bits & EXPONENT_BITS) == EXPONENT_BITS && (bits & MANTISSA_BITS) != 0
}

/// Whether `a` comes strictly before `b` in the total order of doubles.
pub fn less(a: u64, b: u64) -> (r: bool)
    ensures
        r == precedes(a, b),
{
    key(a) < key(b)
}

/// Whether `v` lies in the half-open interval from `low` to `high`.
pub fn within(v: u64, low: u64, high: u64) -> (r: bool)
    ensures
        r == in_domain(v, low, high),
{
    let k = key(v);
    key(low) <= k && k < key(high)
}

/// Distinct bit patterns have distinct keys, so the key order is total.
pub proof fn lemma_key_injective(a: u64, b: u64)
    requires
        a != b,
    ensures
        order_key(a) != order_key(b),
{
    assert(a != b ==> (if a >= 0x8000_0000_0000_0000u64 { !a } else { a | 0x8000_0000_0000_0000u64 })
        != (if b >= 0x8000_0000_0000_0000u64 { !b } else { b | 0x8000_0000_0000_0000u64 }))
        by (bit_vector);
}

} // verus!
