//! Order and range operations on IEEE-754 single-precision values, carried
//! as their 32-bit encodings.
//!
//! A field cell or a parameter is a `u32` holding the encoding of a
//! single-precision number: one sign bit, eight exponent bits, twenty-three
//! fraction bits. Everything in this module is decided by comparing
//! encodings as integers; no rounding is involved, so every result is exact.

use vstd::prelude::*;

verus! {

/// Encoding of `+0.0`.
pub const ZERO: u32 = 0;

/// Encoding of `1.0`.
pub const ONE: u32 = 0x3F80_0000;

/// Encoding of `+infinity`; every larger magnitude is a NaN.
pub const INFINITY: u32 = 0x7F80_0000;

/// The sign bit.
pub const SIGN: u32 = 0x8000_0000;

/// The encoding with the sign bit cleared.
pub open spec fn magnitude(b: u32) -> int {
    if b >= SIGN {
        b - SIGN
    } else {
        b as int
    }
}

/// Whether `b` encodes a NaN.
pub open spec fn is_nan(b: u32) -> bool {
    magnitude(b) > INFINITY
}

/// Whether `b` encodes a finite number: neither an infinity nor a NaN.
pub open spec fn is_finite(b: u32) -> bool {
    magnitude(b) < INFINITY
}

/// An integer that orders the encodings of numbers as the numbers
/// themselves are ordered: the magnitude, negated under a set sign bit.
/// Both zeros have rank 0. The rank of a NaN means nothing.
pub open spec fn rank(b: u32) -> int {
    if b >= SIGN {
        -(b - SIGN)
    } else {
        b as int
    }
}

/// `a < b` as numbers: false whenever either side is a NaN.
pub open spec fn less(a: u32, b: u32) -> bool {
    !is_nan(a) && !is_nan(b) && rank(a) < rank(b)
}

/// `a == b` as numbers: false whenever either side is a NaN, true of the
/// two zeros.
pub open spec fn same(a: u32, b: u32) -> bool {
    !is_nan(a) && !is_nan(b) && rank(a) == rank(b)
}

/// Whether `b` is a number in the closed interval `[0, 1]`.
pub open spec fn in_unit(b: u32) -> bool {
    !is_nan(b) && 0 <= rank(b) <= ONE
}

/// Whether `b` is a NaN or a number in `[0, 1]`: what a clamp to the unit
/// interval can return.
pub open spec fn unit_or_nan(b: u32) -> bool {
    is_nan(b) || in_unit(b)
}

/// `v` limited to `[lo, hi]`: `lo` below it, `hi` above it, `v` itself
/// otherwise, a NaN included.
pub open spec fn clamped(v: u32, lo: u32, hi: u32) -> u32 {
    if less(v, lo) {
        lo
    } else if less(hi, v) {
        hi
    } else {
        v
    }
}

/// `v` limited to `[0, 1]`.
pub open spec fn clamped_unit(v: u32) -> u32 {
    clamped(v, ZERO, ONE)
}

/// The larger of two values, a NaN giving way to the other side; on a tie
/// (two equal numbers, or two NaNs) the first.
pub open spec fn larger(a: u32, b: u32) -> u32 {
    if is_nan(a) {
        b
    } else if is_nan(b) {
        a
    } else if less(a, b) {
        b
    } else {
        a
    }
}

/// Tests whether `b` encodes a NaN.
pub fn nan(b: u32) -> (r: bool)
    ensures
        r == is_nan(b),
{
    if b >= SIGN {
        b - SIGN > INFINITY
    } else {
        b > INFINITY
    }
}

/// Tests whether `b` encodes a finite number.
pub fn finite(b: u32) -> (r: bool)
    ensures
        r == is_finite(b),
{
    if b >= SIGN {
        b - SIGN < INFINITY
    } else {
        b < INFINITY
    }
}

/// Tests `a < b` as numbers.
pub fn lt(a: u32, b: u32) -> (r: bool)
    ensures
        r == less(a, b),
{
    if nan(a) || nan(b) {
        false
    } else if a >= SIGN {
        if b >= SIGN {
            // both negative or zero: the larger magnitude is the smaller number
            a > b
        } else {
            // a <= 0 <= b: less unless both are zero
            a > SIGN || b > 0
        }
    } else {
        if b >= SIGN {
            false
        } else {
            a < b
        }
    }
}

/// Tests `a == b` as numbers.
pub fn eq(a: u32, b: u32) -> (r: bool)
    ensures
        r == same(a, b),
{
    if nan(a) || nan(b) {
        false
    } else if a == b {
        true
    } else {
        // distinct encodings are equal numbers only for the two zeros
        (a == ZERO || a == SIGN) && (b == ZERO || b == SIGN)
    }
}

/// Limits `v` to `[lo, hi]`.
pub fn clamp(v: u32, lo: u32, hi: u32) -> (r: u32)
    ensures
        r == clamped(v, lo, hi),
{
    if lt(v, lo) {
        lo
    } else if lt(hi, v) {
        hi
    } else {
        v
    }
}

/// Limits `v` to `[0, 1]`.
pub fn clamp_unit(v: u32) -> (r: u32)
    ensures
        r == clamped_unit(v),
        unit_or_nan(r),
        is_nan(r) <==> is_nan(v),
{
    clamp(v, ZERO, ONE)
}

/// Returns the larger of two values, ignoring a NaN on one side.
pub fn max(a: u32, b: u32) -> (r: u32)
    ensures
        r == larger(a, b),
{
    if nan(a) {
        b
    } else if nan(b) {
        a
    } else if lt(a, b) {
        b
    } else {
        a
    }
}

/// The order of numbers is transitive.
pub proof fn lemma_less_transitive(a: u32, b: u32, c: u32)
    requires
        less(a, b),
        less(b, c),
    ensures
        less(a, c),
{
}

/// Of two numbers exactly one of `a < b`, `a == b`, `b < a` holds.
pub proof fn lemma_less_total(a: u32, b: u32)
    requires
        !is_nan(a),
        !is_nan(b),
    ensures
        less(a, b) || same(a, b) || less(b, a),
        !(less(a, b) && less(b, a)),
        !(less(a, b) && same(a, b)),
{
}

/// A clamp to `[lo, hi]` with `lo <= hi` lands in that interval unless its
/// input is a NaN, and leaves a value of the interval as it is.
pub proof fn lemma_clamped_range(v: u32, lo: u32, hi: u32)
    requires
        !is_nan(lo),
        !is_nan(hi),
        rank(lo) <= rank(hi),
    ensures
        is_nan(v) ==> clamped(v, lo, hi) == v,
        !is_nan(v) ==> !is_nan(clamped(v, lo, hi)) && rank(lo) <= rank(clamped(v, lo, hi)) <= rank(
            hi,
        ),
        !less(v, lo) && !less(hi, v) ==> clamped(v, lo, hi) == v,
        clamped(clamped(v, lo, hi), lo, hi) == clamped(v, lo, hi),
{
}

} // verus!
