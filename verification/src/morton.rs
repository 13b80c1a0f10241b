//! Three-dimensional Morton (Z-order) codes of 10-bit voxel coordinates.

use vstd::prelude::*;

verus! {

/// The low ten bits of `n`, spread out so that bit `i` of `n` lands on bit
/// `3 * i` of the result; every other bit of the result is zero.
pub open spec fn spread3_spec(n: u32) -> u32 {
    (n & 0x1) | ((n & 0x2) << 2u32) | ((n & 0x4) << 4u32) | ((n & 0x8) << 6u32) | ((n & 0x10)
        << 8u32) | ((n & 0x20) << 10u32) | ((n & 0x40) << 12u32) | ((n & 0x80) << 14u32) | ((n
        & 0x100) << 16u32) | ((n & 0x200) << 18u32)
}

/// Gathers bits `0, 3, 6, ..., 27` of `m` into bits `0..10`: the inverse of
/// `spread3_spec` on 10-bit values.
pub open spec fn compact3_spec(m: u32) -> u32 {
    (m & 0x1) | ((m >> 2u32) & 0x2) | ((m >> 4u32) & 0x4) | ((m >> 6u32) & 0x8) | ((m >> 8u32)
        & 0x10) | ((m >> 10u32) & 0x20) | ((m >> 12u32) & 0x40) | ((m >> 14u32) & 0x80) | ((m
        >> 16u32) & 0x100) | ((m >> 18u32) & 0x200)
}

/// The Morton code of a voxel: the low ten bits of `ix`, `iy` and `iz`
/// interleaved, `ix` on bits `3i`, `iy` on bits `3i + 1`, `iz` on bits `3i + 2`.
pub open spec fn morton3d_spec(ix: u32, iy: u32, iz: u32) -> u32 {
    spread3_spec(ix) | (spread3_spec(iy) << 1u32) | (spread3_spec(iz) << 2u32)
}

/// Spreads the low ten bits of `n` three positions apart with the usual
/// sequence of shifts and masks.
fn part1by2(n: u32) -> (r: u32)
    ensures
        r == spread3_spec(n),
{
    let x0: u32 = n & 0x0000_03ff;
    let x1: u32 = (x0 | (x0 << 16u32)) & 0xFF00_00FF;
    let x2: u32 = (x1 | (x1 << 8u32)) & 0x0300_F00F;
    let x3: u32 = (x2 | (x2 << 4u32)) & 0x030C_30C3;
    let x4: u32 = (x3 | (x3 << 2u32)) & 0x0924_9249;
    assert(x4 == spread3_spec(n)) by (bit_vector)
        requires
            x0 == n & 0x0000_03ff,
            x1 == (x0 | (x0 << 16u32)) & 0xFF00_00FF,
            x2 == (x1 | (x1 << 8u32)) & 0x0300_F00F,
            x3 == (x2 | (x2 << 4u32)) & 0x030C_30C3,
            x4 == (x3 | (x3 << 2u32)) & 0x0924_9249,
    ;
    x4
}

/// The Morton code of the voxel `(ix, iy, iz)`; only the low ten bits of each
/// coordinate take part.
pub fn morton3d(ix: u32, iy: u32, iz: u32) -> (r: u32)
    ensures
        r == morton3d_spec(ix, iy, iz),
{
    part1by2(ix) | (part1by2(iy) << 1u32) | (part1by2(iz) << 2u32)
}

/// Decoding: every coordinate's low ten bits can be read back from its Morton
/// code, by gathering every third bit starting at bit 0, 1 or 2.
pub proof fn lemma_morton3d_decode(ix: u32, iy: u32, iz: u32)
    ensures
        compact3_spec(morton3d_spec(ix, iy, iz)) == ix & 0x3ff,
        compact3_spec(morton3d_spec(ix, iy, iz) >> 1u32) == iy & 0x3ff,
        compact3_spec(morton3d_spec(ix, iy, iz) >> 2u32) == iz & 0x3ff,
{
    let m = morton3d_spec(ix, iy, iz);
    assert(compact3_spec(m) == ix & 0x3ff && compact3_spec(m >> 1u32) == iy & 0x3ff
        && compact3_spec(m >> 2u32) == iz & 0x3ff) by (bit_vector)
        requires
            m == morton3d_spec(ix, iy, iz),
    ;
}

/// Two voxels share a Morton code exactly when their coordinates agree on the
/// low ten bits: distinct voxels of a 1024-cube never collide.
pub proof fn lemma_morton3d_injective(ix1: u32, iy1: u32, iz1: u32, ix2: u32, iy2: u32, iz2: u32)
    ensures
        morton3d_spec(ix1, iy1, iz1) == morton3d_spec(ix2, iy2, iz2) <==> (ix1 & 0x3ff == ix2
            & 0x3ff && iy1 & 0x3ff == iy2 & 0x3ff && iz1 & 0x3ff == iz2 & 0x3ff),
{
    lemma_morton3d_decode(ix1, iy1, iz1);
    lemma_morton3d_decode(ix2, iy2, iz2);
    lemma_morton3d_low_bits_only(ix1, iy1, iz1);
    lemma_morton3d_low_bits_only(ix2, iy2, iz2);
}

/// Only the low ten bits of each coordinate reach the code: coordinates that
/// agree modulo 1024 share a voxel key.
pub proof fn lemma_morton3d_low_bits_only(ix: u32, iy: u32, iz: u32)
    ensures
        morton3d_spec(ix, iy, iz) == morton3d_spec(ix & 0x3ff, iy & 0x3ff, iz & 0x3ff),
{
    assert(morton3d_spec(ix, iy, iz) == morton3d_spec(ix & 0x3ff, iy & 0x3ff, iz & 0x3ff))
        by (bit_vector);
}

/// Every Morton code fits in 30 bits.
pub proof fn lemma_morton3d_bound(ix: u32, iy: u32, iz: u32)
    ensures
        morton3d_spec(ix, iy, iz) < 0x4000_0000,
{
    assert(morton3d_spec(ix, iy, iz) < 0x4000_0000) by (bit_vector);
}

/// Bit interleaving: bit `3i` of the code is bit `i` of `ix`, bit `3i + 1` is
/// bit `i` of `iy` and bit `3i + 2` is bit `i` of `iz`, for `i < 10`.
pub proof fn lemma_morton3d_bits(ix: u32, iy: u32, iz: u32, i: u32)
    requires
        i < 10,
    ensures
        (morton3d_spec(ix, iy, iz) >> (3 * i)) & 1 == (ix >> i) & 1,
        (morton3d_spec(ix, iy, iz) >> (3 * i + 1)) & 1 == (iy >> i) & 1,
        (morton3d_spec(ix, iy, iz) >> (3 * i + 2)) & 1 == (iz >> i) & 1,
{
    let m = morton3d_spec(ix, iy, iz);
    assert((m >> (3 * i)) & 1 == (ix >> i) & 1 && (m >> (3 * i + 1)) & 1 == (iy >> i) & 1 && (m
        >> (3 * i + 2)) & 1 == (iz >> i) & 1) by (bit_vector)
        requires
            m == morton3d_spec(ix, iy, iz),
            i < 10,
    ;
}

} // verus!
