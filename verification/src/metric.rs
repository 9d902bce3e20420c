//! Distance metrics and the integer order key of a distance.
//!
//! Both metrics measure distance in single-precision floating point; the
//! arithmetic itself lives with the caller. What the search logic needs from a
//! distance is only its order, and that is carried by an integer: the key of a
//! distance is computed from the IEEE-754 bit pattern of the `f32` (as given by
//! `f32::to_bits`), and keys compare as the distances do.
use vstd::prelude::*;

verus! {

/// Euclidean (L2) distance: `sqrt(Σ (aᵢ − bᵢ)²)`.
#[derive(Clone, Copy, Debug, PartialEq, Eq, Structural)]
pub struct L2;

/// Cosine distance: `1 − (a·b) / (‖a‖·‖b‖)`; identical direction → 0,
/// orthogonal → 1, opposite → 2, and a zero-norm input → 1.
#[derive(Clone, Copy, Debug, PartialEq, Eq, Structural)]
pub struct Cosine;

/// The sign bit of an IEEE-754 single-precision bit pattern.
pub const SIGN_BIT: u32 = 0x8000_0000u32;

/// The magnitude bits of positive infinity; a larger magnitude is a NaN.
pub const INFINITY_BITS: u32 = 0x7f80_0000u32;

/// The magnitude of a bit pattern: all bits but the sign.
pub open spec fn magnitude(bits: u32) -> int {
    if bits >= SIGN_BIT {
        bits - SIGN_BIT
    } else {
        bits as int
    }
}

/// The bit pattern is a NaN (of either sign).
pub open spec fn is_nan(bits: u32) -> bool {
    magnitude(bits) > INFINITY_BITS
}

/// The value order of a single-precision bit pattern as an integer: the
/// magnitude, negated when the sign bit is set. For two patterns that are not
/// NaN, `a` is a smaller float than `b` exactly when
/// `float_rank(a) < float_rank(b)` (and `+0.0`, `-0.0` share rank 0).
pub open spec fn float_rank(bits: u32) -> int {
    if bits >= SIGN_BIT {
        -magnitude(bits)
    } else {
        magnitude(bits)
    }
}

/// The order key of a bit pattern. Negative values come first (from `-inf`
/// up to `-0.0`, keys `0..=0x7f80_0000`), then non-negative values and
/// positive NaNs (`+0.0` at `0x7f80_0001`, magnitude added), then negative
/// NaNs, which keep their own bits as key.
pub open spec fn key_of_bits(bits: u32) -> u32 {
    if bits < SIGN_BIT {
        (bits + 0x7f80_0001u32) as u32
    } else if bits - SIGN_BIT <= INFINITY_BITS {
        (INFINITY_BITS - (bits - SIGN_BIT)) as u32
    } else {
        bits
    }
}

/// The bit pattern whose order key is `key`.
pub open spec fn bits_of_key(key: u32) -> u32 {
    if key <= INFINITY_BITS {
        (SIGN_BIT + (INFINITY_BITS - key)) as u32
    } else if key <= 0xff80_0000u32 {
        (key - 0x7f80_0001u32) as u32
    } else {
        key
    }
}

/// The order key of an `f32` distance, given by its bit pattern.
pub fn distance_key(bits: u32) -> (key: u32)
    ensures
        key == key_of_bits(bits),
{
    if bits < SIGN_BIT {
        bits + 0x7f80_0001u32
    } else if bits - SIGN_BIT <= INFINITY_BITS {
        INFINITY_BITS - (bits - SIGN_BIT)
    } else {
        bits
    }
}

/// The bit pattern of the `f32` distance whose order key is `key`.
pub fn distance_bits(key: u32) -> (bits: u32)
    ensures
        bits == bits_of_key(key),
{
    if key <= INFINITY_BITS {
        SIGN_BIT + (INFINITY_BITS - key)
    } else if key <= 0xff80_0000u32 {
        key - 0x7f80_0001u32
    } else {
        key
    }
}

/// Keys order distances as the floats do: for two patterns that are not NaN, a
/// strictly smaller float has a strictly smaller key and a smaller key never
/// belongs to a larger float; every NaN, whatever its sign, has a larger key
/// than every pattern that is not NaN.
pub proof fn lemma_key_order(a: u32, b: u32)
    ensures
        !is_nan(a) && !is_nan(b) && float_rank(a) < float_rank(b) ==> key_of_bits(a) < key_of_bits(
            b,
        ),
        !is_nan(a) && !is_nan(b) && key_of_bits(a) < key_of_bits(b) ==> float_rank(a) <= float_rank(
            b,
        ),
        !is_nan(a) && is_nan(b) ==> key_of_bits(a) < key_of_bits(b),
{
}

/// No two bit patterns share a key, and decoding a key gives back the pattern.
pub proof fn lemma_key_roundtrip(bits: u32, key: u32)
    ensures
        bits_of_key(key_of_bits(bits)) == bits,
        key_of_bits(bits_of_key(key)) == key,
{
}

/// Distinct bit patterns have distinct keys.
pub proof fn lemma_key_injective(a: u32, b: u32)
    ensures
        key_of_bits(a) == key_of_bits(b) ==> a == b,
{
    lemma_key_roundtrip(a, 0);
    lemma_key_roundtrip(b, 0);
}

} // verus!
