//! Ordering of IEEE-754 single-precision values, read from their bit patterns.
//!
//! The library never holds a float: a coordinate travels as its 32-bit
//! pattern (`f32::to_bits`), and comparisons are made on that pattern.

use vstd::prelude::*;

verus! {

/// The bit pattern of positive infinity.
pub const F32_INFINITY_BITS: u32 = 0x7f80_0000;

/// The bit pattern of negative infinity.
pub const F32_NEG_INFINITY_BITS: u32 = 0xff80_0000;

/// A NaN: all exponent bits set and a non-zero mantissa.
pub open spec fn f32_bits_is_nan(b: u32) -> bool {
    (b & 0x7f80_0000) == 0x7f80_0000 && (b & 0x007f_ffff) != 0
}

/// The position of a non-NaN value on the real line, as an integer: the
/// magnitude bits, negated when the sign bit is set. In IEEE-754 the
/// magnitude bits of non-NaN values are ordered as the magnitudes are, so
/// for non-NaN `a` and `b`, `a < b` as floats exactly when
/// `f32_bits_rank(a) < f32_bits_rank(b)`, and the two compare equal exactly
/// when the ranks are equal (`-0.0` and `+0.0` both have rank 0).
pub open spec fn f32_bits_rank(b: u32) -> int {
    if b >= 0x8000_0000 {
        -(b - 0x8000_0000)
    } else {
        b as int
    }
}

/// The key of `f32_order_key`.
pub open spec fn f32_order_key_spec(b: u32) -> u32 {
    (f32_bits_rank(b) + 0x8000_0000) as u32
}

/// The order keys of a sequence of patterns.
pub open spec fn order_keys_spec(bits: Seq<u32>) -> Seq<u32> {
    bits.map_values(|b: u32| f32_order_key_spec(b))
}

/// Float `<` on bit patterns: false when either side is NaN.
pub open spec fn f32_bits_lt_spec(a: u32, b: u32) -> bool {
    !f32_bits_is_nan(a) && !f32_bits_is_nan(b) && f32_bits_rank(a) < f32_bits_rank(b)
}

/// Whether the pattern is a NaN.
pub fn f32_bits_is_nan_exec(b: u32) -> (r: bool)
    ensures
        r == f32_bits_is_nan(b),
{
    (b & 0x7f80_0000) == 0x7f80_0000 && (b & 0x007f_ffff) != 0
}

/// An unsigned key that orders patterns by their rank: the rank shifted by
/// 2^31, so that `-0.0` and `+0.0` share a key.
pub fn f32_order_key(b: u32) -> (k: u32)
    ensures
        k as int == f32_bits_rank(b) + 0x8000_0000,
        k == f32_order_key_spec(b),
{
    if b >= 0x8000_0000 {
        0x8000_0000 - (b - 0x8000_0000)
    } else {
        b + 0x8000_0000
    }
}

/// Float `<` on bit patterns.
pub fn f32_bits_lt(a: u32, b: u32) -> (r: bool)
    ensures
        r == f32_bits_lt_spec(a, b),
{
    !f32_bits_is_nan_exec(a) && !f32_bits_is_nan_exec(b) && f32_order_key(a) < f32_order_key(b)
}

/// The key orders patterns as their ranks: strictly monotone, and equal
/// exactly for equal ranks (so for non-NaN patterns, as the floats they
/// encode compare).
pub proof fn lemma_order_key_monotone(a: u32, b: u32)
    ensures
        (f32_order_key_spec(a) < f32_order_key_spec(b)) <==> f32_bits_rank(a) < f32_bits_rank(b),
        (f32_order_key_spec(a) == f32_order_key_spec(b)) <==> f32_bits_rank(a) == f32_bits_rank(b),
{
}

/// The exponent field of a pattern: bits 23 to 30.
pub open spec fn f32_exponent_field(b: u32) -> u32 {
    (b >> 23u32) & 0xffu32
}

/// A pattern is a NaN exactly when its exponent field is all ones and its
/// mantissa (bits 0 to 22) is not zero; a pattern whose exponent field is
/// not all ones (a finite value) is never a NaN.
pub proof fn lemma_nan_is_exponent_all_ones(b: u32)
    ensures
        f32_bits_is_nan(b) <==> (f32_exponent_field(b) == 0xff && b % 0x80_0000 != 0),
        f32_exponent_field(b) != 0xff ==> !f32_bits_is_nan(b),
{
    assert(((b & 0x7f80_0000) == 0x7f80_0000) <==> (((b >> 23u32) & 0xffu32) == 0xffu32))
        by (bit_vector);
    assert(((b & 0x007f_ffff) != 0) <==> (b % 0x80_0000 != 0)) by (bit_vector);
}

/// The rank is the sign-and-magnitude reading of the pattern: bit 31 is the
/// sign, bits 0 to 30 the magnitude.
pub proof fn lemma_rank_sign_magnitude(b: u32)
    ensures
        (b >> 31u32) == 0 ==> f32_bits_rank(b) == (b & 0x7fff_ffffu32) as int,
        (b >> 31u32) == 1 ==> f32_bits_rank(b) == -((b & 0x7fff_ffffu32) as int),
{
    assert((b >> 31u32) == 0 ==> (b < 0x8000_0000 && (b & 0x7fff_ffffu32) == b)) by (bit_vector);
    assert((b >> 31u32) == 1 ==> (b >= 0x8000_0000 && (b & 0x7fff_ffffu32) == b - 0x8000_0000))
        by (bit_vector);
}

/// The infinities: exponent field all ones, mantissa zero, and the sign bit
/// clear for `+inf`, set for `-inf`; neither is a NaN, and they are the
/// greatest and least of all non-NaN patterns.
pub proof fn lemma_infinities(b: u32)
    ensures
        f32_exponent_field(F32_INFINITY_BITS) == 0xff && F32_INFINITY_BITS % 0x80_0000 == 0
            && F32_INFINITY_BITS >> 31u32 == 0,
        f32_exponent_field(F32_NEG_INFINITY_BITS) == 0xff && F32_NEG_INFINITY_BITS % 0x80_0000 == 0
            && F32_NEG_INFINITY_BITS >> 31u32 == 1,
        !f32_bits_is_nan(F32_INFINITY_BITS),
        !f32_bits_is_nan(F32_NEG_INFINITY_BITS),
        !f32_bits_is_nan(b) ==> f32_bits_rank(F32_NEG_INFINITY_BITS) <= f32_bits_rank(b)
            <= f32_bits_rank(F32_INFINITY_BITS),
{
    assert(f32_exponent_field(0x7f80_0000u32) == 0xff) by (bit_vector);
    assert(f32_exponent_field(0xff80_0000u32) == 0xff) by (bit_vector);
    assert((0x7f80_0000u32 >> 31u32) == 0) by (bit_vector);
    assert((0xff80_0000u32 >> 31u32) == 1) by (bit_vector);
    lemma_nan_is_exponent_all_ones(F32_INFINITY_BITS);
    lemma_nan_is_exponent_all_ones(F32_NEG_INFINITY_BITS);
    lemma_nan_is_exponent_all_ones(b);
    assert(!f32_bits_is_nan(b) ==> ((b % 0x8000_0000) <= 0x7f80_0000)) by (bit_vector);
}

/// On finite patterns (exponent field not all ones) float `<` is the order
/// of ranks, every value is below `+inf` and above `-inf`.
pub proof fn lemma_finite_order(a: u32, c: u32)
    requires
        f32_exponent_field(a) != 0xff,
        f32_exponent_field(c) != 0xff,
    ensures
        f32_bits_lt_spec(a, c) <==> f32_bits_rank(a) < f32_bits_rank(c),
        f32_bits_lt_spec(a, F32_INFINITY_BITS),
        f32_bits_lt_spec(F32_NEG_INFINITY_BITS, a),
{
    lemma_nan_is_exponent_all_ones(a);
    lemma_nan_is_exponent_all_ones(c);
    lemma_infinities(a);
    assert(f32_exponent_field(a) != 0xff ==> (a % 0x8000_0000) < 0x7f80_0000) by (bit_vector);
}

/// The order key of each pattern.
pub fn order_keys(bits: &Vec<u32>) -> (r: Vec<u32>)
    ensures
        r@ == order_keys_spec(bits@),
{
    let mut keys: Vec<u32> = Vec::new();
    let mut i: usize = 0;
    while i < bits.len()
        invariant
            0 <= i <= bits.len(),
            keys@ == order_keys_spec(bits@.take(i as int)),
        decreases bits.len() - i,
    {
        let k = f32_order_key(bits[i]);
        keys.push(k);
        assert(bits@.take(i + 1) == bits@.take(i as int).push(bits[i as int]));
        i = i + 1;
    }
    assert(bits@.take(bits.len() as int) == bits@);
    keys
}

} // verus!
