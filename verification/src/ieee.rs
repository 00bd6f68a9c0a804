//! Comparisons of IEEE-754 values given by their bit patterns.
//!
//! A binary32 value is its sign bit (bit 31) followed by the magnitude bits
//! (exponent and fraction). The magnitude bits order the non-NaN values of
//! one sign, so the integer `sign ? -magnitude : magnitude` orders all the
//! non-NaN values the way `<` and `>=` on floats do (both zeros get key 0).
//! A NaN is any pattern whose magnitude exceeds that of infinity; every
//! ordered comparison with a NaN is false. The same holds of binary64.
use vstd::prelude::*;

verus! {

/// Magnitude bits (everything but the sign) of a binary32 pattern.
pub open spec fn f32_magnitude(bits: u32) -> int {
    if bits >= 0x8000_0000 {
        bits - 0x8000_0000
    } else {
        bits as int
    }
}

/// Whether a binary32 pattern is a NaN.
pub open spec fn f32_is_nan(bits: u32) -> bool {
    f32_magnitude(bits) > 0x7f80_0000
}

/// The integer by which non-NaN binary32 patterns are ordered.
pub open spec fn f32_order_key(bits: u32) -> int {
    if bits >= 0x8000_0000 {
        -f32_magnitude(bits)
    } else {
        f32_magnitude(bits)
    }
}

/// `a >= b` on the binary32 values with patterns `a` and `b`.
pub open spec fn f32_ge(a: u32, b: u32) -> bool {
    &&& !f32_is_nan(a)
    &&& !f32_is_nan(b)
    &&& f32_order_key(a) >= f32_order_key(b)
}

/// Magnitude bits of a binary64 pattern.
pub open spec fn f64_magnitude(bits: u64) -> int {
    if bits >= 0x8000_0000_0000_0000 {
        bits - 0x8000_0000_0000_0000
    } else {
        bits as int
    }
}

/// Whether a binary64 pattern is a NaN.
pub open spec fn f64_is_nan(bits: u64) -> bool {
    f64_magnitude(bits) > 0x7ff0_0000_0000_0000
}

/// `a == b` on the binary64 values with patterns `a` and `b`:
/// equal patterns or two zeros, and never a NaN.
pub open spec fn f64_eq(a: u64, b: u64) -> bool {
    &&& !f64_is_nan(a)
    &&& !f64_is_nan(b)
    &&& (a == b || (f64_magnitude(a) == 0 && f64_magnitude(b) == 0))
}

/// The order key of a binary32 pattern, or `None` for a NaN.
pub fn f32_key(bits: u32) -> (key: Option<i64>)
    ensures
        key is None <==> f32_is_nan(bits),
        key matches Some(k) ==> k == f32_order_key(bits),
{
    let negative = bits >= 0x8000_0000;
    let magnitude: u32 = if negative {
        bits - 0x8000_0000
    } else {
        bits
    };
    if magnitude > 0x7f80_0000 {
        None
    } else if negative {
        Some(-(magnitude as i64))
    } else {
        Some(magnitude as i64)
    }
}

/// `a >= b` on binary32 values given by their bit patterns.
pub fn f32_at_least(a: u32, b: u32) -> (res: bool)
    ensures
        res == f32_ge(a, b),
{
    match (f32_key(a), f32_key(b)) {
        (Some(x), Some(y)) => x >= y,
        _ => false,
    }
}

/// `a == b` on binary64 values given by their bit patterns.
pub fn f64_same(a: u64, b: u64) -> (res: bool)
    ensures
        res == f64_eq(a, b),
{
    let mag_a: u64 = if a >= 0x8000_0000_0000_0000 {
        a - 0x8000_0000_0000_0000
    } else {
        a
    };
    let mag_b: u64 = if b >= 0x8000_0000_0000_0000 {
        b - 0x8000_0000_0000_0000
    } else {
        b
    };
    if mag_a > 0x7ff0_0000_0000_0000 || mag_b > 0x7ff0_0000_0000_0000 {
        false
    } else {
        a == b || (mag_a == 0 && mag_b == 0)
    }
}

/// `>=` on non-NaN binary32 values is a total preorder: it is transitive.
pub proof fn lemma_f32_ge_transitive(a: u32, b: u32, c: u32)
    requires
        f32_ge(a, b),
        f32_ge(b, c),
    ensures
        f32_ge(a, c),
{
}

/// Equality on binary64 values is symmetric, and reflexive on every value but a NaN.
pub proof fn lemma_f64_eq_symmetric_reflexive(a: u64, b: u64)
    ensures
        f64_eq(a, b) == f64_eq(b, a),
        !f64_is_nan(a) ==> f64_eq(a, a),
{
}

} // verus!
