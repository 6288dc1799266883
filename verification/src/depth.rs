//! Depth values as IEEE 754 single-precision bit patterns.

use vstd::arithmetic::power2::{
    lemma_pow2_pos, lemma_pow2_strictly_increases, lemma_pow2_unfold, pow2,
};
use vstd::prelude::*;

verus! {

/// Mask of the magnitude bits (exponent and mantissa) of a bit pattern.
pub const MAGNITUDE_MASK: u32 = 0x7fff_ffff;

/// Bit pattern of positive infinity; every larger magnitude is a NaN.
pub const INFINITY_BITS: u32 = 0x7f80_0000;

/// The magnitude of a bit pattern: the pattern without its sign bit.
pub open spec fn magnitude(bits: u32) -> int {
    (bits as int) % 0x8000_0000
}

/// Whether the bit pattern denotes a NaN.
pub open spec fn is_nan(bits: u32) -> bool {
    magnitude(bits) > 0x7f80_0000
}

/// Whether the sign bit of the pattern is set.
pub open spec fn is_negative(bits: u32) -> bool {
    bits >= 0x8000_0000
}

/// The integer by which a depth is ordered: for patterns that are no NaN,
/// `depth_key(a) < depth_key(b)` exactly when the value of `a` is less than
/// that of `b`. Both zeros have key 0.
pub open spec fn depth_key(bits: u32) -> int {
    if is_negative(bits) {
        -magnitude(bits)
    } else {
        magnitude(bits)
    }
}

/// Whether an instance at this depth is drawn: the depth is greater than
/// zero. Depths of zero, negative depths and negative infinity are culled.
pub open spec fn is_visible(bits: u32) -> bool {
    depth_key(bits) > 0
}

/// The exponent field of a bit pattern: its eight bits below the sign.
pub open spec fn exponent_field(bits: u32) -> int {
    magnitude(bits) / 0x80_0000
}

/// The fraction field of a bit pattern: its lowest 23 bits.
pub open spec fn fraction_field(bits: u32) -> int {
    magnitude(bits) % 0x80_0000
}

/// Whether the bit pattern denotes a number: neither an infinity nor a NaN.
pub open spec fn is_finite(bits: u32) -> bool {
    magnitude(bits) < 0x7f80_0000
}

/// The absolute value that a finite bit pattern denotes, counted in units of
/// 2^-149, the least positive value of the format. A pattern with exponent
/// field 0 denotes `fraction * 2^-149`, any other finite pattern
/// `(2^23 + fraction) * 2^(exponent - 150)`.
pub open spec fn scaled_size(bits: u32) -> int {
    if exponent_field(bits) == 0 {
        fraction_field(bits)
    } else {
        (0x80_0000 + fraction_field(bits)) * pow2((exponent_field(bits) - 1) as nat)
    }
}

/// The value that a finite bit pattern denotes, counted in units of 2^-149.
pub open spec fn scaled_value(bits: u32) -> int {
    if is_negative(bits) {
        -scaled_size(bits)
    } else {
        scaled_size(bits)
    }
}

/// The larger magnitude denotes the larger absolute value.
proof fn lemma_size_grows_with_magnitude(a: u32, b: u32)
    requires
        magnitude(a) < magnitude(b),
    ensures
        0 <= scaled_size(a) < scaled_size(b),
{
    let ea = exponent_field(a);
    let eb = exponent_field(b);
    let fa = fraction_field(a);
    let fb = fraction_field(b);
    if ea == eb {
        if ea > 0 {
            let p = pow2((ea - 1) as nat) as int;
            lemma_pow2_pos((ea - 1) as nat);
            assert(0 <= (0x80_0000 + fa) * p < (0x80_0000 + fb) * p) by (nonlinear_arith)
                requires
                    0 <= fa < fb,
                    p > 0,
            ;
        }
    } else {
        let pb = pow2((eb - 1) as nat) as int;
        lemma_pow2_pos((eb - 1) as nat);
        assert(0x80_0000 * pb <= (0x80_0000 + fb) * pb) by (nonlinear_arith)
            requires
                0 <= fb,
                pb > 0,
        ;
        if ea == 0 {
            assert(0x80_0000 <= 0x80_0000 * pb) by (nonlinear_arith)
                requires
                    pb > 0,
            ;
        } else {
            let pa = pow2((ea - 1) as nat) as int;
            lemma_pow2_pos((ea - 1) as nat);
            lemma_pow2_unfold(ea as nat);
            if ea < eb - 1 {
                lemma_pow2_strictly_increases(ea as nat, (eb - 1) as nat);
            }
            assert(0 <= (0x80_0000 + fa) * pa < 0x80_0000 * (2 * pa)) by (nonlinear_arith)
                requires
                    0 <= fa < 0x80_0000,
                    pa > 0,
            ;
            assert(0x80_0000 * (2 * pa) <= 0x80_0000 * pb) by (nonlinear_arith)
                requires
                    2 * pa <= pb,
            ;
        }
    }
}

/// The key orders finite depths as their values do: the key of `a` is less
/// than that of `b` exactly when `a` denotes the lesser number, the keys are
/// equal exactly when the numbers are (the two zeros are), and the key is
/// above zero exactly when the number is.
pub proof fn lemma_key_orders_values(a: u32, b: u32)
    requires
        is_finite(a),
        is_finite(b),
    ensures
        depth_key(a) < depth_key(b) <==> scaled_value(a) < scaled_value(b),
        depth_key(a) == depth_key(b) <==> scaled_value(a) == scaled_value(b),
        is_visible(a) <==> scaled_value(a) > 0,
{
    if magnitude(a) < magnitude(b) {
        lemma_size_grows_with_magnitude(a, b);
    }
    if magnitude(b) < magnitude(a) {
        lemma_size_grows_with_magnitude(b, a);
    }
    if magnitude(a) > 0 {
        lemma_size_grows_with_magnitude(0, a);
    }
    if magnitude(b) > 0 {
        lemma_size_grows_with_magnitude(0, b);
    }
}

/// The infinities lie outside all numbers: no depth that is not a NaN has a
/// key above that of positive infinity or below that of negative infinity,
/// and no finite depth reaches either.
pub proof fn lemma_infinities_are_outermost(bits: u32)
    requires
        !is_nan(bits),
    ensures
        depth_key(0xff80_0000) <= depth_key(bits) <= depth_key(0x7f80_0000),
        is_finite(bits) ==> depth_key(0xff80_0000) < depth_key(bits) < depth_key(0x7f80_0000),
{
}

/// Tells whether a depth is a NaN.
pub fn depth_is_nan(bits: u32) -> (r: bool)
    ensures
        r == is_nan(bits),
{
    assert(bits & 0x7fff_ffff == bits % 0x8000_0000) by (bit_vector);
    (bits & MAGNITUDE_MASK) > INFINITY_BITS
}

/// Computes the ordering key of a depth.
pub fn key_of(bits: u32) -> (r: i64)
    ensures
        r == depth_key(bits),
        -0x7fff_ffff <= r <= 0x7fff_ffff,
{
    assert(bits & 0x7fff_ffff == bits % 0x8000_0000) by (bit_vector);
    let mag: i64 = (bits & MAGNITUDE_MASK) as i64;
    if bits >= 0x8000_0000 {
        -mag
    } else {
        mag
    }
}

/// Tells whether an instance at this depth is drawn.
pub fn depth_is_visible(bits: u32) -> (r: bool)
    ensures
        r == is_visible(bits),
{
    key_of(bits) > 0
}

} // verus!
