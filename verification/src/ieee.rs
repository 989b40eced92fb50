//! Binary64 values carried by their IEEE-754 bit pattern.
//!
//! The library never does floating-point arithmetic; measurements, p-values
//! and thresholds travel through it as the 64-bit encoding of a double, and
//! the decisions it takes on them (finiteness, ordering, absolute value) are
//! integer predicates on that encoding, exactly as IEEE-754 defines them.
use vstd::prelude::*;

verus! {

pub const SIGN_BIT: u64 = 0x8000_0000_0000_0000;

pub const FRAC_MODULUS: u64 = 0x10_0000_0000_0000;

/// The encoding of `1.0`.
pub const ONE_BITS: u64 = 0x3FF0_0000_0000_0000;

/// The encoding of `0.05`.
pub const FIVE_PERCENT_BITS: u64 = 0x3FA9_9999_9999_999A;

/// Biased exponent field (11 bits).
pub open spec fn exponent(b: u64) -> int {
    (b as int / FRAC_MODULUS as int) % 2048
}

/// Fraction field (52 bits).
pub open spec fn fraction(b: u64) -> int {
    b as int % FRAC_MODULUS as int
}

pub open spec fn is_negative(b: u64) -> bool {
    b >= SIGN_BIT
}

/// Everything but the sign bit.
pub open spec fn magnitude(b: u64) -> int {
    b as int % SIGN_BIT as int
}

pub open spec fn is_nan(b: u64) -> bool {
    exponent(b) == 2047 && fraction(b) != 0
}

/// `f64::is_finite`: neither infinite nor NaN.
pub open spec fn is_finite(b: u64) -> bool {
    exponent(b) != 2047
}

/// A key whose integer order is the numeric order of non-NaN doubles; both
/// zeros get key `0`.
pub open spec fn order_key(b: u64) -> int {
    if is_negative(b) {
        -magnitude(b)
    } else {
        magnitude(b)
    }
}

/// `a < b` on doubles.
pub open spec fn lt(a: u64, b: u64) -> bool {
    !is_nan(a) && !is_nan(b) && order_key(a) < order_key(b)
}

/// `a <= b` on doubles.
pub open spec fn le(a: u64, b: u64) -> bool {
    !is_nan(a) && !is_nan(b) && order_key(a) <= order_key(b)
}

/// `a == b` on doubles (so `-0.0 == 0.0` and `NaN != NaN`).
pub open spec fn num_eq(a: u64, b: u64) -> bool {
    !is_nan(a) && !is_nan(b) && order_key(a) == order_key(b)
}

/// `f64::abs`: clears the sign bit.
pub open spec fn abs(b: u64) -> u64 {
    (b as int % SIGN_BIT as int) as u64
}

pub fn is_finite_exec(b: u64) -> (r: bool)
    ensures
        r == is_finite(b),
{
    (b / FRAC_MODULUS) % 2048 != 2047
}

pub fn is_nan_exec(b: u64) -> (r: bool)
    ensures
        r == is_nan(b),
{
    (b / FRAC_MODULUS) % 2048 == 2047 && b % FRAC_MODULUS != 0
}

pub fn abs_exec(b: u64) -> (r: u64)
    ensures
        r == abs(b),
        !is_negative(r),
        magnitude(r) == magnitude(b),
        is_nan(r) == is_nan(b),
{
    let r = b % SIGN_BIT;
    assert(exponent(r) == exponent(b) && fraction(r) == fraction(b)) by {
        assert(b as int == (b as int / SIGN_BIT as int) * SIGN_BIT as int + r as int);
        assert(SIGN_BIT as int == 2048 * FRAC_MODULUS as int);
    }
    r
}

pub fn lt_exec(a: u64, b: u64) -> (r: bool)
    ensures
        r == lt(a, b),
{
    if is_nan_exec(a) || is_nan_exec(b) {
        return false;
    }
    let an = a >= SIGN_BIT;
    let bn = b >= SIGN_BIT;
    let am = a % SIGN_BIT;
    let bm = b % SIGN_BIT;
    if an && bn {
        am > bm
    } else if an {
        !(am == 0 && bm == 0)
    } else if bn {
        false
    } else {
        am < bm
    }
}

pub fn le_exec(a: u64, b: u64) -> (r: bool)
    ensures
        r == le(a, b),
{
    if is_nan_exec(a) || is_nan_exec(b) {
        return false;
    }
    !lt_exec(b, a)
}

} // verus!
