//! The byte layout of a `sensor_msgs/PointCloud2` message as published by
//! Livox and FAST-LIO2: `width * height` records of `point_step` bytes, each
//! starting with the little-endian `f32` coordinates x, y and z.

use vstd::prelude::*;

verus! {

/// A point as the bit patterns of its three `f32` coordinates.
#[derive(Clone, Copy, Debug, PartialEq, Eq)]
pub struct RawPoint {
    pub x: u32,
    pub y: u32,
    pub z: u32,
}

/// The little-endian `u32` held by the four bytes of `d` at `off`.
pub open spec fn le_u32_spec(d: Seq<u8>, off: int) -> u32 {
    (d[off] as int + d[off + 1] as int * 0x100 + d[off + 2] as int * 0x1_0000 + d[off + 3] as int
        * 0x100_0000) as u32
}

/// The point whose record starts at byte `off` of `d`.
pub open spec fn raw_point_at(d: Seq<u8>, off: int) -> RawPoint {
    RawPoint { x: le_u32_spec(d, off), y: le_u32_spec(d, off + 4), z: le_u32_spec(d, off + 8) }
}

/// Little-endian reading: byte `k` of the `u32` read at `off` (its bits
/// `8k` to `8k + 7`) is the byte of `d` at `off + k`.
pub proof fn lemma_le_u32_bytes(d: Seq<u8>, off: int)
    requires
        0 <= off,
        off + 4 <= d.len(),
    ensures
        le_u32_spec(d, off) & 0xff == d[off] as u32,
        (le_u32_spec(d, off) >> 8u32) & 0xff == d[off + 1] as u32,
        (le_u32_spec(d, off) >> 16u32) & 0xff == d[off + 2] as u32,
        le_u32_spec(d, off) >> 24u32 == d[off + 3] as u32,
{
    let b0 = d[off] as u32;
    let b1 = d[off + 1] as u32;
    let b2 = d[off + 2] as u32;
    let b3 = d[off + 3] as u32;
    let v = le_u32_spec(d, off);
    assert(v == b0 + b1 * 0x100 + b2 * 0x1_0000 + b3 * 0x100_0000);
    assert(v & 0xff == b0 && (v >> 8u32) & 0xff == b1 && (v >> 16u32) & 0xff == b2 && v >> 24u32
        == b3) by (bit_vector)
        requires
            b0 < 0x100,
            b1 < 0x100,
            b2 < 0x100,
            b3 < 0x100,
            v == b0 + b1 * 0x100 + b2 * 0x1_0000 + b3 * 0x100_0000,
    ;
}

/// The coordinates of a record are the little-endian readings of its bytes:
/// byte `k` of x is the record's byte `k`, of y its byte `4 + k`, of z its
/// byte `8 + k`.
pub proof fn lemma_raw_point_bytes(d: Seq<u8>, off: int, k: int)
    requires
        0 <= off,
        off + 12 <= d.len(),
        0 <= k < 4,
    ensures
        (raw_point_at(d, off).x >> (8 * k) as u32) & 0xff == d[off + k] as u32,
        (raw_point_at(d, off).y >> (8 * k) as u32) & 0xff == d[off + 4 + k] as u32,
        (raw_point_at(d, off).z >> (8 * k) as u32) & 0xff == d[off + 8 + k] as u32,
{
    lemma_le_u32_bytes(d, off);
    lemma_le_u32_bytes(d, off + 4);
    lemma_le_u32_bytes(d, off + 8);
    let x = raw_point_at(d, off).x;
    let y = raw_point_at(d, off).y;
    let z = raw_point_at(d, off).z;
    assert(x >> 0u32 == x && y >> 0u32 == y && z >> 0u32 == z) by (bit_vector);
    assert((x >> 24u32) & 0xff == x >> 24u32 && (y >> 24u32) & 0xff == y >> 24u32 && (z >> 24u32)
        & 0xff == z >> 24u32) by (bit_vector);
}

/// The points of the first `n` records of `step` bytes each, skipping every
/// record that does not fit entirely in `d`.
pub open spec fn parsed_points(d: Seq<u8>, n: nat, step: nat) -> Seq<RawPoint>
    decreases n,
{
    if n == 0 {
        Seq::empty()
    } else {
        let prev = parsed_points(d, (n - 1) as nat, step);
        let off = (n - 1) * step;
        if off + step <= d.len() {
            prev.push(raw_point_at(d, off))
        } else {
            prev
        }
    }
}

/// The message can be read without an arithmetic overflow or a read past the
/// end of the data: `width * height` fits in a `u32`, every record offset
/// fits in a `usize`, and every record that fits in the data holds the
/// twelve bytes of its coordinates.
pub open spec fn layout_ok(len: nat, width: u32, height: u32, step: u32) -> bool {
    &&& width * height <= u32::MAX
    &&& width * height * step <= usize::MAX
    &&& forall|i: int|
        0 <= i < width * height && #[trigger] (i * step) + step <= len ==> i * step + 12 <= len
}

proof fn lemma_mul_le(i: int, n: int, step: int)
    requires
        0 <= i <= n,
        0 <= step,
    ensures
        i * step <= n * step,
        (i + 1) * step == i * step + step,
{
    assert(i * step <= n * step) by (nonlinear_arith)
        requires
            0 <= i <= n,
            0 <= step,
    ;
    assert((i + 1) * step == i * step + step) by (nonlinear_arith);
}

fn read_u32_le(d: &Vec<u8>, off: usize) -> (r: u32)
    requires
        off + 4 <= d.len(),
    ensures
        r == le_u32_spec(d@, off as int),
{
    d[off] as u32 + d[off + 1] as u32 * 0x100 + d[off + 2] as u32 * 0x1_0000 + d[off + 3] as u32
        * 0x100_0000
}

/// Whether a message of `data_len` bytes with these dimensions can be read:
/// exactly `layout_ok`.
pub fn livox_layout_ok(data_len: usize, width: u32, height: u32, point_step: u32) -> (r: bool)
    ensures
        r == layout_ok(data_len as nat, width, height, point_step),
{
    assert(width * height <= 0xffff_ffff * 0xffff_ffff) by (nonlinear_arith)
        requires
            width <= 0xffff_ffff,
            height <= 0xffff_ffff,
    ;
    let n: u64 = width as u64 * height as u64;
    if n > u32::MAX as u64 {
        return false;
    }
    assert(n * point_step <= 0xffff_ffff * 0xffff_ffff) by (nonlinear_arith)
        requires
            n <= 0xffff_ffff,
            point_step <= 0xffff_ffff,
    ;
    let total: u128 = n as u128 * point_step as u128;
    if total > usize::MAX as u128 {
        return false;
    }
    let len: u128 = data_len as u128;
    let step: u128 = point_step as u128;
    let mut i: u128 = 0;
    let mut off: u128 = 0;
    while i < n as u128
        invariant
            n == width * height,
            n * step <= usize::MAX,
            step == point_step,
            len == data_len,
            0 <= i <= n,
            off == i * step,
            forall|j: int|
                0 <= j < i && #[trigger] (j * step) + step <= len ==> j * step + 12 <= len,
        decreases n - i,
    {
        proof {
            lemma_mul_le(i as int, n as int, step as int);
        }
        if off + step <= len && off + 12 > len {
            assert(i * point_step + point_step <= data_len);
            return false;
        }
        off = off + step;
        i = i + 1;
    }
    true
}

/// The points of a `PointCloud2` message with these dimensions, in record
/// order; a record that does not fit entirely in `data` is skipped.
pub fn parse_livox_pointcloud2(data: &Vec<u8>, width: u32, height: u32, point_step: u32) -> (r: Vec<
    RawPoint,
>)
    requires
        layout_ok(data.len() as nat, width, height, point_step),
    ensures
        r@ == parsed_points(data@, (width * height) as nat, point_step as nat),
{
    let points_num: usize = (width * height) as usize;
    let step: usize = point_step as usize;
    let mut points: Vec<RawPoint> = Vec::new();
    let mut i: usize = 0;
    while i < points_num
        invariant
            points_num == width * height,
            step == point_step,
            layout_ok(data.len() as nat, width, height, point_step),
            0 <= i <= points_num,
            points@ == parsed_points(data@, i as nat, step as nat),
        decreases points_num - i,
    {
        proof {
            lemma_mul_le(i as int, points_num as int, step as int);
            lemma_mul_le(i + 1, points_num as int, step as int);
        }
        let offset = i * step;
        if offset + step <= data.len() {
            assert(i * point_step + point_step <= data.len());
            let p = RawPoint {
                x: read_u32_le(data, offset),
                y: read_u32_le(data, offset + 4),
                z: read_u32_le(data, offset + 8),
            };
            points.push(p);
        }
        i = i + 1;
    }
    points
}

/// Every record that fits in the data is read: with records of `step > 0`
/// bytes, `min(n, d.len() / step)` points come out.
pub proof fn lemma_parsed_count(d: Seq<u8>, n: nat, step: nat)
    requires
        step > 0,
    ensures
        parsed_points(d, n, step).len() == if n <= d.len() / step {
            n
        } else {
            d.len() / step
        },
    decreases n,
{
    if n > 0 {
        lemma_parsed_count(d, (n - 1) as nat, step);
        let q = d.len() / step;
        assert((n - 1) * step + step == n * step) by (nonlinear_arith);
        assert(n * step <= d.len() <==> n <= q) by (nonlinear_arith)
            requires
                step > 0,
                q == d.len() / step,
        ;
    }
}

} // verus!
