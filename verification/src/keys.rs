//! Order keys of IEEE 754 double bit patterns, and the comparisons on them.
//!
//! A key is `None` for a NaN and otherwise the sign-magnitude reading of the
//! double's bit pattern. Every comparison with a `None` key is false, as every
//! comparison with a NaN is. That the sign-magnitude reading of a non-NaN
//! double orders it as doubles compare is a fact of the IEEE 754 encoding,
//! which nothing here can state over doubles; the tests check it on values.
use vstd::prelude::*;

verus! {

/// The order key of a recorded number.
pub type Key = Option<i64>;

/// `a <= b`: false when either is a NaN.
pub open spec fn at_or_before(a: Key, b: Key) -> bool {
    match (a, b) {
        (Some(x), Some(y)) => x <= y,
        _ => false,
    }
}

/// `a < b`: false when either is a NaN.
pub open spec fn before(a: Key, b: Key) -> bool {
    match (a, b) {
        (Some(x), Some(y)) => x < y,
        _ => false,
    }
}

/// `a == b`: false when either is a NaN.
pub open spec fn same(a: Key, b: Key) -> bool {
    match (a, b) {
        (Some(x), Some(y)) => x == y,
        _ => false,
    }
}

/// `a <= b` on keys.
pub fn is_at_or_before(a: Key, b: Key) -> (r: bool)
    ensures
        r == at_or_before(a, b),
{
    match (a, b) {
        (Some(x), Some(y)) => x <= y,
        _ => false,
    }
}

/// `a < b` on keys.
pub fn is_before(a: Key, b: Key) -> (r: bool)
    ensures
        r == before(a, b),
{
    match (a, b) {
        (Some(x), Some(y)) => x < y,
        _ => false,
    }
}

/// `a == b` on keys.
pub fn is_same(a: Key, b: Key) -> (r: bool)
    ensures
        r == same(a, b),
{
    match (a, b) {
        (Some(x), Some(y)) => x == y,
        _ => false,
    }
}

/// The sign bit of a 64-bit pattern.
pub open spec fn sign_bit_set(bits: u64) -> bool {
    bits >= 0x8000_0000_0000_0000
}

/// The 63 bits below the sign bit.
pub open spec fn magnitude(bits: u64) -> int {
    (bits % 0x8000_0000_0000_0000) as int
}

/// The pattern encodes a NaN: all exponent bits set and a fraction that is
/// not zero.
pub open spec fn is_nan_bits(bits: u64) -> bool {
    magnitude(bits) > 0x7FF0_0000_0000_0000
}

/// The sign-magnitude reading of a 64-bit pattern: the magnitude, negated when
/// the sign bit is set (both zeros reading 0).
pub open spec fn sign_magnitude(bits: u64) -> int {
    if sign_bit_set(bits) { -magnitude(bits) } else { magnitude(bits) }
}

/// The order key of a double given by its bit pattern: none for a NaN, else
/// its sign-magnitude reading.
pub fn key_of_bits(bits: u64) -> (k: Key)
    ensures
        k is None <==> is_nan_bits(bits),
        k is None <==> ((bits as int / 0x10_0000_0000_0000) % 0x800 == 0x7FF
            && (bits as int) % 0x10_0000_0000_0000 != 0),
        k matches Some(v) ==> v == sign_magnitude(bits),
        k matches Some(v) ==> v == (if bits < 0x8000_0000_0000_0000 { bits as int }
            else { 0x8000_0000_0000_0000 - bits as int }),
{
    proof {
        law_nan_bits(bits);
    }
    let mag: u64 = bits % 0x8000_0000_0000_0000;
    if mag > 0x7FF0_0000_0000_0000 {
        None
    } else if bits >= 0x8000_0000_0000_0000 {
        Some(-(mag as i64))
    } else {
        Some(mag as i64)
    }
}

/// `at_or_before` is `<=` on the integers of two keys that are not NaNs, and
/// false when either key is a NaN.
pub proof fn law_at_or_before_is_le(a: Key, b: Key)
    ensures
        at_or_before(a, b) <==> (a is Some && b is Some && a->0 <= b->0),
{
}

/// `before` is `<` on the integers of two keys that are not NaNs, and false
/// when either key is a NaN.
pub proof fn law_before_is_lt(a: Key, b: Key)
    ensures
        before(a, b) <==> (a is Some && b is Some && a->0 < b->0),
{
}

/// `same` is `==` on the integers of two keys that are not NaNs, and false
/// when either key is a NaN.
pub proof fn law_same_is_eq(a: Key, b: Key)
    ensures
        same(a, b) <==> (a is Some && b is Some && a->0 == b->0),
{
}

/// A pattern is a NaN exactly when its 11 exponent bits are all ones and its
/// 52 fraction bits are not all zero.
pub proof fn law_nan_bits(bits: u64)
    ensures
        is_nan_bits(bits) <==> (
            (bits as int / 0x10_0000_0000_0000) % 0x800 == 0x7FF
            && (bits as int) % 0x10_0000_0000_0000 != 0),
{
    let b = bits as int;
    let m = b % 0x8000_0000_0000_0000;
    let e = (b / 0x10_0000_0000_0000) % 0x800;
    let f = b % 0x10_0000_0000_0000;
    assert(m == e * 0x10_0000_0000_0000 + f && 0 <= f < 0x10_0000_0000_0000 && 0 <= e < 0x800)
        by (nonlinear_arith)
        requires
            0 <= b < 0x1_0000_0000_0000_0000,
            m == b % 0x8000_0000_0000_0000,
            e == (b / 0x10_0000_0000_0000) % 0x800,
            f == b % 0x10_0000_0000_0000,
    ;
}

/// The key of a pattern that is not a NaN is the pattern itself below the
/// sign bit, negated when the sign bit is set.
pub proof fn law_key_value(bits: u64)
    ensures
        bits < 0x8000_0000_0000_0000 ==> sign_magnitude(bits) == bits as int,
        bits >= 0x8000_0000_0000_0000 ==> sign_magnitude(bits) == 0x8000_0000_0000_0000 - bits as int,
{
}

/// On patterns that are not NaNs, keys are strictly monotone in the
/// sign-magnitude order, and the two zero patterns share one key.
pub proof fn lemma_keys_follow_sign_magnitude(a: u64, b: u64)
    ensures
        sign_magnitude(a) < sign_magnitude(b) <==> (
            (!sign_bit_set(a) && !sign_bit_set(b) && magnitude(a) < magnitude(b))
            || (sign_bit_set(a) && sign_bit_set(b) && magnitude(b) < magnitude(a))
            || (sign_bit_set(a) && !sign_bit_set(b) && (magnitude(a) > 0 || magnitude(b) > 0))),
        sign_magnitude(0) == 0,
        sign_magnitude(0x8000_0000_0000_0000) == 0,
        !is_nan_bits(0) && !is_nan_bits(0x8000_0000_0000_0000),
{
}

} // verus!
