//! Ceiling removal on a horizontal grid: grouping points by grid cell,
//! ordering each cell's points by height, and the integer side of the
//! per-cell decisions.
//!
//! Heights travel as the bit patterns of the original `f32` values; the
//! arithmetic on heights (means, ratios, densities) is left to the caller.

use vstd::prelude::*;
use crate::grouping::{group_by_key, KeyGroups};
use crate::sorting::sort_by_key_position;
use crate::float_bits::{order_keys, f32_bits_lt, f32_bits_is_nan_exec, F32_INFINITY_BITS, F32_NEG_INFINITY_BITS};

verus! {

/// The cell of a point in the horizontal grid, counted from the grid's corner.
#[derive(Clone, Copy, Debug, PartialEq, Eq)]
pub struct GridCell {
    pub gx: i32,
    pub gy: i32,
}

/// A cell's key: `gx` and `gy`, each shifted to be non-negative, side by
/// side in the high and low halves of a `u64`.
pub open spec fn grid_key_spec(c: GridCell) -> u64 {
    ((c.gx as int + 0x8000_0000) * 0x1_0000_0000 + (c.gy as int + 0x8000_0000)) as u64
}

/// The keys of a sequence of cells.
pub open spec fn grid_keys_spec(cells: Seq<GridCell>) -> Seq<u64> {
    cells.map_values(|c: GridCell| grid_key_spec(c))
}

/// The key of a cell.
pub fn grid_key(c: GridCell) -> (k: u64)
    ensures
        k == grid_key_spec(c),
{
    let hi: u64 = (c.gx as i64 + 0x8000_0000) as u64;
    let lo: u64 = (c.gy as i64 + 0x8000_0000) as u64;
    hi * 0x1_0000_0000 + lo
}

/// Distinct cells have distinct keys.
pub proof fn lemma_grid_key_injective(a: GridCell, b: GridCell)
    ensures
        grid_key_spec(a) == grid_key_spec(b) <==> a == b,
{
    let ha = a.gx as int + 0x8000_0000;
    let la = a.gy as int + 0x8000_0000;
    let hb = b.gx as int + 0x8000_0000;
    let lb = b.gy as int + 0x8000_0000;
    if grid_key_spec(a) == grid_key_spec(b) {
        assert(ha == hb && la == lb) by (nonlinear_arith)
            requires
                0 <= ha < 0x1_0000_0000,
                0 <= la < 0x1_0000_0000,
                0 <= hb < 0x1_0000_0000,
                0 <= lb < 0x1_0000_0000,
                ha * 0x1_0000_0000 + la == hb * 0x1_0000_0000 + lb,
        ;
    }
}

/// The key of each cell.
pub fn grid_keys(cells: &Vec<GridCell>) -> (r: Vec<u64>)
    ensures
        r@ == grid_keys_spec(cells@),
{
    let mut keys: Vec<u64> = Vec::new();
    let mut i: usize = 0;
    while i < cells.len()
        invariant
            0 <= i <= cells.len(),
            keys@ == grid_keys_spec(cells@.take(i as int)),
        decreases cells.len() - i,
    {
        let k = grid_key(cells[i]);
        keys.push(k);
        assert(cells@.take(i + 1) == cells@.take(i as int).push(cells[i as int]));
        i = i + 1;
    }
    assert(cells@.take(cells.len() as int) == cells@);
    keys
}

/// The points of one grid cell, lowest first.
pub struct HeightCell {
    pub cell: GridCell,
    pub members: Vec<usize>,
}

/// `r` lists the occupied cells of `cells` in order of first occupation, each
/// with the positions of its points ordered by height (`z_bits`), points of
/// equal height in their original order.
pub open spec fn height_cells_of(r: Seq<HeightCell>, cells: Seq<GridCell>, z_bits: Seq<u32>) -> bool {
    let keys = grid_keys_spec(cells);
    let d = crate::grouping::distinct_keys(keys);
    &&& r.len() == d.len()
    &&& forall|g: int| 0 <= g < r.len() ==> grid_key_spec(#[trigger] r[g].cell) == d[g]
    &&& forall|g: int|
        0 <= g < r.len() ==> (#[trigger] r[g].members@).to_multiset()
            == crate::grouping::positions_of(keys, d[g]).to_multiset()
    &&& forall|g: int|
        0 <= g < r.len() ==> crate::sorting::sorted_by_key_position(
            crate::float_bits::order_keys_spec(z_bits),
            #[trigger] r[g].members@,
        )
}

/// Some point shares its cell with another point and has a NaN height: the
/// heights of that cell cannot be ordered.
pub open spec fn nan_in_shared_cell(cells: Seq<GridCell>, z_bits: Seq<u32>) -> bool {
    exists|i: int, j: int|
        0 <= i < cells.len() && 0 <= j < cells.len() && i != j && #[trigger] cells[i]
            == #[trigger] cells[j] && crate::float_bits::f32_bits_is_nan(z_bits[i])
}

/// Groups the points by grid cell and orders each cell's points by height.
pub fn height_cells(cells: &Vec<GridCell>, z_bits: &Vec<u32>) -> (r: Vec<HeightCell>)
    requires
        cells.len() == z_bits.len(),
        !nan_in_shared_cell(cells@, z_bits@),
    ensures
        height_cells_of(r@, cells@, z_bits@),
{
    let keys = grid_keys(cells);
    let mut groups = group_by_key(&keys);
    let zkeys = order_keys(z_bits);
    let ghost d = crate::grouping::distinct_keys(keys@);
    let ghost all_members = groups.members@;
    let mut out: Vec<HeightCell> = Vec::new();
    let ng = groups.keys.len();
    let mut g: usize = 0;
    while g < ng
        invariant
            ng == groups.keys.len(),
            groups.keys@ == d,
            d == crate::grouping::distinct_keys(keys@),
            groups.members.len() == ng,
            all_members.len() == ng,
            keys@ == grid_keys_spec(cells@),
            zkeys@ == crate::float_bits::order_keys_spec(z_bits@),
            zkeys.len() == cells.len(),
            forall|h: int| g <= h < ng ==> #[trigger] groups.members[h] == all_members[h],
            forall|h: int| 0 <= h < ng ==> #[trigger] all_members[h]@ == crate::grouping::positions_of(keys@, d[h]),
            0 <= g <= ng,
            out.len() == g,
            forall|h: int| 0 <= h < g ==> grid_key_spec(#[trigger] out[h].cell) == d[h],
            forall|h: int|
                0 <= h < g ==> (#[trigger] out[h].members@).to_multiset()
                    == crate::grouping::positions_of(keys@, d[h]).to_multiset(),
            forall|h: int|
                0 <= h < g ==> crate::sorting::sorted_by_key_position(zkeys@, #[trigger] out[h].members@),
        decreases ng - g,
    {
        let mut m: Vec<usize> = Vec::new();
        std::mem::swap(&mut m, &mut groups.members[g]);
        let ghost k = d[g as int];
        assert(m@ == crate::grouping::positions_of(keys@, k));
        proof {
            crate::grouping::lemma_positions_exact(keys@, k);
            crate::grouping::lemma_distinct_keys_contains(keys@, k);
            assert(d.contains(k)) by {
                assert(d[g as int] == k);
            }
            assert(keys@.contains(k));
            let i = choose|i: int| 0 <= i < keys@.len() && keys@[i] == k;
            assert(keys@[i] == k);
            assert(m@.contains(i as usize));
            assert(m@.no_duplicates()) by {
                assert forall|a: int, b: int| 0 <= a < m@.len() && 0 <= b < m@.len() && a != b
                    implies m@[a] != m@[b] by {
                    if a < b {
                        assert(m@[a] < m@[b]);
                    } else {
                        assert(m@[b] < m@[a]);
                    }
                }
            }
        }
        let first = m[0];
        let cell = cells[first];
        assert(grid_key_spec(cell) == k) by {
            assert(keys@[first as int] == k);
        }
        sort_by_key_position(&mut m, &zkeys);
        out.push(HeightCell { cell, members: m });
        g = g + 1;
    }
    out
}

/// Whether some point with a NaN height shares its grid cell with another
/// point: exactly the inputs that `height_cells` does not take.
pub fn has_nan_in_shared_cell(cells: &Vec<GridCell>, z_bits: &Vec<u32>) -> (r: bool)
    requires
        cells.len() == z_bits.len(),
    ensures
        r == nan_in_shared_cell(cells@, z_bits@),
{
    let keys = grid_keys(cells);
    let groups = group_by_key(&keys);
    let ghost d = crate::grouping::distinct_keys(keys@);
    let ng = groups.keys.len();
    let mut g: usize = 0;
    while g < ng
        invariant
            ng == groups.keys.len(),
            groups.groups_of(keys@),
            d == crate::grouping::distinct_keys(keys@),
            keys@ == grid_keys_spec(cells@),
            cells.len() == z_bits.len(),
            0 <= g <= ng,
            forall|h: int, t: int|
                0 <= h < g && groups.members[h].len() >= 2 && 0 <= t < groups.members[h].len()
                    ==> !crate::float_bits::f32_bits_is_nan(
                    z_bits@[#[trigger] groups.members[h][t] as int],
                ),
        decreases ng - g,
    {
        let m = &groups.members[g];
        proof {
            crate::grouping::lemma_positions_exact(keys@, d[g as int]);
        }
        if m.len() >= 2 {
            let mut t: usize = 0;
            while t < m.len()
                invariant
                    0 <= t <= m.len(),
                    m@ == crate::grouping::positions_of(keys@, d[g as int]),
                    forall|u: int|
                        0 <= u < m@.len() ==> #[trigger] m@[u] < keys@.len() && keys@[m@[u] as int]
                            == d[g as int],
                    forall|u1: int, u2: int|
                        0 <= u1 < u2 < m@.len() ==> #[trigger] m@[u1] < #[trigger] m@[u2],
                    keys@ == grid_keys_spec(cells@),
                    cells.len() == z_bits.len(),
                    m.len() >= 2,
                    forall|u: int|
                        0 <= u < t ==> !crate::float_bits::f32_bits_is_nan(
                            z_bits@[#[trigger] m@[u] as int],
                        ),
                decreases m.len() - t,
            {
                let p = m[t];
                if f32_bits_is_nan_exec(z_bits[p]) {
                    proof {
                        let other: int = if t == 0 {
                            1
                        } else {
                            0
                        };
                        let q = m@[other];
                        assert(q != p) by {
                            if other < t {
                                assert(m@[other] < m@[t as int]);
                            } else {
                                assert(m@[t as int] < m@[other]);
                            }
                        }
                        lemma_grid_key_injective(cells@[p as int], cells@[q as int]);
                        assert(cells@[p as int] == cells@[q as int]);
                    }
                    return true;
                }
                t = t + 1;
            }
        }
        g = g + 1;
    }
    proof {
        if nan_in_shared_cell(cells@, z_bits@) {
            let (i, j) = choose|i: int, j: int|
                0 <= i < cells.len() && 0 <= j < cells.len() && i != j && #[trigger] cells@[i]
                    == #[trigger] cells@[j] && crate::float_bits::f32_bits_is_nan(z_bits@[i]);
            let k = keys@[i];
            assert(keys@[j] == k);
            crate::grouping::lemma_item_in_one_group(keys@, i, k);
            crate::grouping::lemma_item_in_one_group(keys@, j, k);
            let h = choose|h: int| 0 <= h < d.len() && d[h] == k;
            let ps = crate::grouping::positions_of(keys@, k);
            assert(groups.members[h]@ == ps);
            let a = choose|a: int| 0 <= a < ps.len() && ps[a] == i as usize;
            let b = choose|b: int| 0 <= b < ps.len() && ps[b] == j as usize;
            assert(a != b);
            assert(groups.members[h].len() >= 2);
            assert(groups.members[h][a] == i as usize);
        }
    }
    false
}

/// `b < +inf` as floats.
pub open spec fn below_infinity(b: u32) -> bool {
    crate::float_bits::f32_bits_lt_spec(b, F32_INFINITY_BITS)
}

/// `-inf < b` as floats.
pub open spec fn above_neg_infinity(b: u32) -> bool {
    crate::float_bits::f32_bits_lt_spec(F32_NEG_INFINITY_BITS, b)
}

/// `v[i]` is the first of the least heights of `v` below `+inf`.
pub open spec fn is_first_lowest(v: Seq<u32>, i: int) -> bool {
    &&& 0 <= i < v.len()
    &&& below_infinity(v[i])
    &&& forall|j: int|
        0 <= j < v.len() && below_infinity(#[trigger] v[j]) ==> crate::float_bits::f32_bits_rank(v[i])
            <= crate::float_bits::f32_bits_rank(v[j])
    &&& forall|j: int|
        0 <= j < i && below_infinity(#[trigger] v[j]) ==> crate::float_bits::f32_bits_rank(v[i])
            < crate::float_bits::f32_bits_rank(v[j])
}

/// `v[i]` is the first of the greatest heights of `v` above `-inf`.
pub open spec fn is_first_highest(v: Seq<u32>, i: int) -> bool {
    &&& 0 <= i < v.len()
    &&& above_neg_infinity(v[i])
    &&& forall|j: int|
        0 <= j < v.len() && above_neg_infinity(#[trigger] v[j]) ==> crate::float_bits::f32_bits_rank(
            v[j],
        ) <= crate::float_bits::f32_bits_rank(v[i])
    &&& forall|j: int|
        0 <= j < i && above_neg_infinity(#[trigger] v[j]) ==> crate::float_bits::f32_bits_rank(v[j])
            < crate::float_bits::f32_bits_rank(v[i])
}

/// The cells that hold the global extremes of height: of the cells' least
/// heights `min_bits`, the first lowest one below `+inf`, and of their
/// greatest heights `max_bits`, the first highest one above `-inf`. `None`
/// stands for `+inf` and `-inf`, the starting values of the scan: there is
/// no such cell.
pub fn min_max_cells(min_bits: &Vec<u32>, max_bits: &Vec<u32>) -> (r: (Option<usize>, Option<usize>))
    ensures
        match r.0 {
            Some(i) => is_first_lowest(min_bits@, i as int),
            None => forall|j: int| 0 <= j < min_bits.len() ==> !below_infinity(#[trigger] min_bits@[j]),
        },
        match r.1 {
            Some(i) => is_first_highest(max_bits@, i as int),
            None => forall|j: int|
                0 <= j < max_bits.len() ==> !above_neg_infinity(#[trigger] max_bits@[j]),
        },
{
    let mut lowest: Option<usize> = None;
    let mut i: usize = 0;
    while i < min_bits.len()
        invariant
            0 <= i <= min_bits.len(),
            match lowest {
                Some(c) => is_first_lowest(min_bits@.take(i as int), c as int),
                None => forall|j: int| 0 <= j < i ==> !below_infinity(#[trigger] min_bits@[j]),
            },
        decreases min_bits.len() - i,
    {
        let current = match lowest {
            Some(c) => min_bits[c],
            None => F32_INFINITY_BITS,
        };
        let ghost before = min_bits@.take(i as int);
        let ghost after = min_bits@.take(i + 1);
        assert(after == before.push(min_bits@[i as int]));
        if f32_bits_lt(min_bits[i], current) {
            lowest = Some(i);
        }
        proof {
            match lowest {
                Some(c) => {
                    assert(before.len() == i);
                    assert forall|j: int| 0 <= j < after.len() && below_infinity(#[trigger] after[j])
                        implies crate::float_bits::f32_bits_rank(after[c as int])
                        <= crate::float_bits::f32_bits_rank(after[j]) by {
                        if j < i {
                            assert(before[j] == after[j]);
                        }
                    }
                    assert forall|j: int| 0 <= j < c && below_infinity(#[trigger] after[j])
                        implies crate::float_bits::f32_bits_rank(after[c as int])
                        < crate::float_bits::f32_bits_rank(after[j]) by {
                        assert(before[j] == after[j]);
                    }
                },
                None => {},
            }
        }
        i = i + 1;
    }
    assert(min_bits@.take(min_bits.len() as int) == min_bits@);
    let mut highest: Option<usize> = None;
    let mut i: usize = 0;
    while i < max_bits.len()
        invariant
            0 <= i <= max_bits.len(),
            match highest {
                Some(c) => is_first_highest(max_bits@.take(i as int), c as int),
                None => forall|j: int| 0 <= j < i ==> !above_neg_infinity(#[trigger] max_bits@[j]),
            },
        decreases max_bits.len() - i,
    {
        let current = match highest {
            Some(c) => max_bits[c],
            None => F32_NEG_INFINITY_BITS,
        };
        let ghost before = max_bits@.take(i as int);
        let ghost after = max_bits@.take(i + 1);
        assert(after == before.push(max_bits@[i as int]));
        if f32_bits_lt(current, max_bits[i]) {
            highest = Some(i);
        }
        proof {
            match highest {
                Some(c) => {
                    assert(before.len() == i);
                    assert forall|j: int| 0 <= j < after.len() && above_neg_infinity(#[trigger] after[j])
                        implies crate::float_bits::f32_bits_rank(after[j])
                        <= crate::float_bits::f32_bits_rank(after[c as int]) by {
                        if j < i {
                            assert(before[j] == after[j]);
                        }
                    }
                    assert forall|j: int| 0 <= j < c && above_neg_infinity(#[trigger] after[j])
                        implies crate::float_bits::f32_bits_rank(after[j])
                        < crate::float_bits::f32_bits_rank(after[c as int]) by {
                        assert(before[j] == after[j]);
                    }
                },
                None => {},
            }
        }
        i = i + 1;
    }
    assert(max_bits@.take(max_bits.len() as int) == max_bits@);
    (lowest, highest)
}

/// Whether the point at position `m` lies strictly below the height
/// `center_bits`.
pub open spec fn lies_below(z_bits: Seq<u32>, center_bits: u32) -> spec_fn(usize) -> bool {
    |m: usize| crate::float_bits::f32_bits_lt_spec(z_bits[m as int], center_bits)
}

/// Whether the point at position `m` does not lie strictly below the height
/// `center_bits`.
pub open spec fn lies_not_below(z_bits: Seq<u32>, center_bits: u32) -> spec_fn(usize) -> bool {
    |m: usize| !crate::float_bits::f32_bits_lt_spec(z_bits[m as int], center_bits)
}

/// Splits a cell's points at the height `center_bits`: first those strictly
/// below it, then the others, each in the order of `members`.
pub fn split_below(members: &Vec<usize>, z_bits: &Vec<u32>, center_bits: u32) -> (r: (
    Vec<usize>,
    Vec<usize>,
))
    requires
        crate::sorting::all_below(members@, z_bits@.len()),
    ensures
        r.0@ == members@.filter(lies_below(z_bits@, center_bits)),
        r.1@ == members@.filter(lies_not_below(z_bits@, center_bits)),
{
    let mut lower: Vec<usize> = Vec::new();
    let mut upper: Vec<usize> = Vec::new();
    let mut i: usize = 0;
    while i < members.len()
        invariant
            0 <= i <= members.len(),
            crate::sorting::all_below(members@, z_bits@.len()),
            lower@ == members@.take(i as int).filter(lies_below(z_bits@, center_bits)),
            upper@ == members@.take(i as int).filter(lies_not_below(z_bits@, center_bits)),
        decreases members.len() - i,
    {
        let m = members[i];
        let ghost next = members@.take(i + 1);
        assert(next.drop_last() == members@.take(i as int));
        assert(next.last() == m);
        proof {
            reveal(Seq::filter);
        }
        if f32_bits_lt(z_bits[m], center_bits) {
            lower.push(m);
        } else {
            upper.push(m);
        }
        i = i + 1;
    }
    assert(members@.take(members.len() as int) == members@);
    (lower, upper)
}

proof fn lemma_sorted_extremes(keys: Seq<u32>, s: Seq<usize>, x: usize)
    requires
        crate::sorting::sorted_by_key_position(keys, s),
        s.contains(x),
    ensures
        keys[s[0] as int] <= keys[x as int],
        keys[x as int] <= keys[s[s.len() - 1] as int],
{
    let t = choose|t: int| 0 <= t < s.len() && s[t] == x;
    if t > 0 {
        assert(crate::sorting::key_position_lt(keys, s[0], s[t]));
    }
    if t < s.len() - 1 {
        assert(crate::sorting::key_position_lt(keys, s[t], s[s.len() - 1]));
    }
}

proof fn lemma_sorted_no_duplicates(keys: Seq<u32>, s: Seq<usize>)
    requires
        crate::sorting::sorted_by_key_position(keys, s),
    ensures
        s.no_duplicates(),
{
    assert forall|x: int, y: int| 0 <= x < s.len() && 0 <= y < s.len() && x != y implies s[x] != s[y] by {
        if x < y {
            assert(crate::sorting::key_position_lt(keys, s[x], s[y]));
        } else {
            assert(crate::sorting::key_position_lt(keys, s[y], s[x]));
        }
    }
}

/// Cell `g1` of `r1` and cell `g2` of `r2`, computed from the points reordered
/// by `p`, are the same cell with the same points, and their lowest and
/// highest points have the same heights.
pub open spec fn cells_match(
    r1: Seq<HeightCell>,
    r2: Seq<HeightCell>,
    g1: int,
    g2: int,
    z_bits: Seq<u32>,
    p: Seq<int>,
) -> bool {
    let m1 = r1[g1].members@;
    let m2 = r2[g2].members@;
    &&& 0 <= g2 < r2.len()
    &&& r2[g2].cell == r1[g1].cell
    &&& m1.len() > 0
    &&& m2.len() > 0
    &&& m2.map_values(crate::grouping::original_position(p)).to_multiset() == m1.to_multiset()
    &&& crate::float_bits::f32_bits_rank(z_bits[p[m2[0] as int]]) == crate::float_bits::f32_bits_rank(
        z_bits[m1[0] as int],
    )
    &&& crate::float_bits::f32_bits_rank(z_bits[p[m2[m2.len() - 1] as int]])
        == crate::float_bits::f32_bits_rank(z_bits[m1[m1.len() - 1] as int])
}

/// Some cell of `r2` matches cell `g1` of `r1`.
pub open spec fn has_match(r1: Seq<HeightCell>, r2: Seq<HeightCell>, g1: int, z_bits: Seq<u32>, p: Seq<int>) -> bool {
    exists|g2: int| #[trigger] cells_match(r1, r2, g1, g2, z_bits, p)
}

/// The height grid does not depend on the order of the points: reordered
/// (point `j` becoming point `inv[j]`), the points occupy as many cells, the
/// same ones, each holding the same points, with a lowest and a highest
/// point of the same heights.
pub proof fn lemma_height_cells_permutation(
    cells: Seq<GridCell>,
    z_bits: Seq<u32>,
    p: Seq<int>,
    inv: Seq<int>,
    r1: Seq<HeightCell>,
    r2: Seq<HeightCell>,
)
    requires
        cells.len() == z_bits.len(),
        cells.len() <= usize::MAX,
        crate::grouping::is_permutation(p, inv, cells.len()),
        height_cells_of(r1, cells, z_bits),
        height_cells_of(r2, crate::grouping::permuted(cells, p), crate::grouping::permuted(z_bits, p)),
    ensures
        r1.len() == r2.len(),
        forall|g1: int| 0 <= g1 < r1.len() ==> #[trigger] has_match(r1, r2, g1, z_bits, p),
{
    let n = cells.len();
    let cells2 = crate::grouping::permuted(cells, p);
    let z2 = crate::grouping::permuted(z_bits, p);
    let keys1 = grid_keys_spec(cells);
    let keys2 = grid_keys_spec(cells2);
    assert(keys2 =~= crate::grouping::permuted(keys1, p));
    crate::grouping::lemma_groups_permutation(keys1, p, inv);
    let d1 = crate::grouping::distinct_keys(keys1);
    let d2 = crate::grouping::distinct_keys(keys2);
    let zk1 = crate::float_bits::order_keys_spec(z_bits);
    let zk2 = crate::float_bits::order_keys_spec(z2);
    assert forall|g1: int| 0 <= g1 < r1.len() implies #[trigger] has_match(r1, r2, g1, z_bits, p) by {
        let k = d1[g1];
        assert(d1.contains(k));
        assert(d2.contains(k));
        let g2 = choose|g2: int| 0 <= g2 < d2.len() && d2[g2] == k;
        let m1 = r1[g1].members@;
        let m2 = r2[g2].members@;
        let a = crate::grouping::positions_of(keys1, k);
        let b = crate::grouping::positions_of(keys2, k);
        assert(grid_key_spec(r1[g1].cell) == k);
        assert(grid_key_spec(r2[g2].cell) == k);
        lemma_grid_key_injective(r1[g1].cell, r2[g2].cell);
        assert(m1.to_multiset() == a.to_multiset());
        assert(m2.to_multiset() == b.to_multiset());
        assert forall|x: usize| #[trigger] m1.contains(x) <==> a.contains(x) by {
            vstd::seq_lib::to_multiset_contains(m1, x);
            vstd::seq_lib::to_multiset_contains(a, x);
        }
        assert forall|x: usize| #[trigger] m2.contains(x) <==> b.contains(x) by {
            vstd::seq_lib::to_multiset_contains(m2, x);
            vstd::seq_lib::to_multiset_contains(b, x);
        }
        crate::grouping::lemma_positions_exact(keys1, k);
        crate::grouping::lemma_positions_exact(keys2, k);
        crate::grouping::lemma_distinct_keys_contains(keys1, k);
        let j0 = choose|j: int| 0 <= j < n && keys1[j] == k;
        assert(keys1[j0] == k);
        assert(a.contains(j0 as usize));
        assert(m1.contains(j0 as usize));
        assert(m1.len() > 0);
        assert(keys2[inv[j0]] == k);
        assert(b.contains(inv[j0] as usize));
        assert(m2.contains(inv[j0] as usize));
        assert(m2.len() > 0);
        lemma_sorted_no_duplicates(zk1, m1);
        lemma_sorted_no_duplicates(zk2, m2);
        let mm2 = m2.map_values(crate::grouping::original_position(p));
        assert(mm2.no_duplicates()) by {
            assert forall|x: int, y: int| 0 <= x < mm2.len() && 0 <= y < mm2.len() && x != y
                implies mm2[x] != mm2[y] by {
                assert(m2[x] != m2[y]);
                assert(m2.contains(m2[x]));
                assert(m2.contains(m2[y]));
                assert(inv[p[m2[x] as int]] == m2[x] as int);
                assert(inv[p[m2[y] as int]] == m2[y] as int);
            }
        }
        assert forall|x: usize| #[trigger] mm2.contains(x) <==> m1.contains(x) by {
            if mm2.contains(x) {
                let u = choose|u: int| 0 <= u < mm2.len() && mm2[u] == x;
                assert(m2.contains(m2[u]));
                assert(b.contains(m2[u]));
                let j = p[m2[u] as int];
                assert(0 <= j < n);
                assert(a.contains(j as usize) <==> b.contains(inv[j] as usize));
                assert(inv[j] == m2[u] as int);
                assert(a.contains(p[m2[u] as int] as usize));
            }
            if m1.contains(x) {
                assert(a.contains(x));
                let u = choose|u: int| 0 <= u < a.len() && a[u] == x;
                assert(x < n);
                assert(b.contains(inv[x as int] as usize));
                assert(m2.contains(inv[x as int] as usize));
                let w = choose|w: int| 0 <= w < m2.len() && m2[w] == inv[x as int] as usize;
                assert(mm2[w] == x);
            }
        }
        crate::grouping::lemma_same_elements_same_multiset(mm2, m1);
        let f1 = m1[0];
        let l1 = m1[m1.len() - 1];
        let f2 = m2[0];
        let l2 = m2[m2.len() - 1];
        assert(m2.contains(f2));
        assert(m2.contains(l2));
        assert(mm2[0] == p[f2 as int] as usize);
        assert(mm2[mm2.len() - 1] == p[l2 as int] as usize);
        assert(mm2.contains(p[f2 as int] as usize));
        assert(mm2.contains(p[l2 as int] as usize));
        assert(m1.contains(f1));
        assert(m1.contains(l1));
        assert(m1.contains(p[f2 as int] as usize));
        assert(m1.contains(p[l2 as int] as usize));
        lemma_sorted_extremes(zk1, m1, p[f2 as int] as usize);
        lemma_sorted_extremes(zk1, m1, p[l2 as int] as usize);
        assert(a.contains(f1) && a.contains(l1));
        assert(f1 < n && l1 < n);
        assert(m2.contains(inv[f1 as int] as usize));
        assert(m2.contains(inv[l1 as int] as usize));
        lemma_sorted_extremes(zk2, m2, inv[f1 as int] as usize);
        lemma_sorted_extremes(zk2, m2, inv[l1 as int] as usize);
        assert(f2 < n && l2 < n);
        assert(zk2[f2 as int] == zk1[p[f2 as int]]);
        assert(zk2[l2 as int] == zk1[p[l2 as int]]);
        assert(zk2[inv[f1 as int]] == zk1[f1 as int]);
        assert(zk2[inv[l1 as int]] == zk1[l1 as int]);
        crate::float_bits::lemma_order_key_monotone(z_bits[p[f2 as int]], z_bits[f1 as int]);
        crate::float_bits::lemma_order_key_monotone(z_bits[p[l2 as int]], z_bits[l1 as int]);
        assert(cells_match(r1, r2, g1, g2, z_bits, p));
    }
}

/// The height of each cell's lowest point.
pub open spec fn cell_lowest_heights(r: Seq<HeightCell>, z_bits: Seq<u32>) -> Seq<u32> {
    Seq::new(r.len(), |g: int| z_bits[r[g].members[0] as int])
}

/// The height of each cell's highest point.
pub open spec fn cell_highest_heights(r: Seq<HeightCell>, z_bits: Seq<u32>) -> Seq<u32> {
    Seq::new(r.len(), |g: int| z_bits[r[g].members[r[g].members.len() - 1] as int])
}

/// Every point lies in a cell, with only points of the same grid cell.
proof fn lemma_point_in_a_cell(cells: Seq<GridCell>, z_bits: Seq<u32>, r: Seq<HeightCell>, i: int) -> (g: int)
    requires
        cells.len() == z_bits.len(),
        cells.len() <= usize::MAX,
        height_cells_of(r, cells, z_bits),
        0 <= i < cells.len(),
    ensures
        0 <= g < r.len(),
        r[g].members@.contains(i as usize),
        r[g].members@.len() > 0,
        forall|x: usize| #[trigger] r[g].members@.contains(x) ==> x < cells.len() && cells[x as int]
            == cells[i],
{
    let keys = grid_keys_spec(cells);
    let d = crate::grouping::distinct_keys(keys);
    let k = keys[i];
    crate::grouping::lemma_item_in_one_group(keys, i, k);
    let g = choose|g: int| 0 <= g < d.len() && d[g] == k;
    let m = r[g].members@;
    let a = crate::grouping::positions_of(keys, k);
    assert(m.to_multiset() == a.to_multiset());
    vstd::seq_lib::to_multiset_contains(m, i as usize);
    vstd::seq_lib::to_multiset_contains(a, i as usize);
    assert(m.contains(i as usize));
    crate::grouping::lemma_positions_exact(keys, k);
    assert forall|x: usize| #[trigger] m.contains(x) implies x < cells.len() && cells[x as int] == cells[i] by {
        vstd::seq_lib::to_multiset_contains(m, x);
        vstd::seq_lib::to_multiset_contains(a, x);
        let u = choose|u: int| 0 <= u < a.len() && a[u] == x;
        assert(keys[x as int] == k);
        lemma_grid_key_injective(cells[x as int], cells[i]);
    }
    g
}

/// The extremes over the cells are the extremes over all points: the first
/// lowest of the cells' lowest heights (what `min_max_cells` picks) is the
/// height of a point and no point below `+inf` is lower, and when no cell's
/// lowest height is below `+inf`, no point's is; likewise for the highest
/// heights and `-inf`.
pub proof fn lemma_cell_extremes_are_point_extremes(
    cells: Seq<GridCell>,
    z_bits: Seq<u32>,
    r: Seq<HeightCell>,
)
    requires
        cells.len() == z_bits.len(),
        cells.len() <= usize::MAX,
        !nan_in_shared_cell(cells, z_bits),
        height_cells_of(r, cells, z_bits),
    ensures
        forall|g: int|
            #[trigger] is_first_lowest(cell_lowest_heights(r, z_bits), g) ==> (exists|j: int|
                0 <= j < z_bits.len() && z_bits[j] == cell_lowest_heights(r, z_bits)[g]) && (forall|
                i: int,
            |
                0 <= i < z_bits.len() && below_infinity(#[trigger] z_bits[i])
                    ==> crate::float_bits::f32_bits_rank(cell_lowest_heights(r, z_bits)[g])
                    <= crate::float_bits::f32_bits_rank(z_bits[i])),
        (forall|g: int|
            0 <= g < r.len() ==> !below_infinity(#[trigger] cell_lowest_heights(r, z_bits)[g]))
            ==> forall|i: int| 0 <= i < z_bits.len() ==> !below_infinity(#[trigger] z_bits[i]),
        forall|g: int|
            #[trigger] is_first_highest(cell_highest_heights(r, z_bits), g) ==> (exists|j: int|
                0 <= j < z_bits.len() && z_bits[j] == cell_highest_heights(r, z_bits)[g]) && (forall|
                i: int,
            |
                0 <= i < z_bits.len() && above_neg_infinity(#[trigger] z_bits[i])
                    ==> crate::float_bits::f32_bits_rank(z_bits[i])
                    <= crate::float_bits::f32_bits_rank(cell_highest_heights(r, z_bits)[g])),
        (forall|g: int|
            0 <= g < r.len() ==> !above_neg_infinity(#[trigger] cell_highest_heights(r, z_bits)[g]))
            ==> forall|i: int| 0 <= i < z_bits.len() ==> !above_neg_infinity(#[trigger] z_bits[i]),
{
    let lows = cell_lowest_heights(r, z_bits);
    let highs = cell_highest_heights(r, z_bits);
    let zk = crate::float_bits::order_keys_spec(z_bits);
    let n = cells.len();
    assert forall|g: int| 0 <= g < r.len() implies r[g].members@.len() > 0 && r[g].members[0] < n
        && r[g].members[r[g].members.len() - 1] < n by {
        let m = r[g].members@;
        let keys = grid_keys_spec(cells);
        let d = crate::grouping::distinct_keys(keys);
        let k = d[g];
        assert(d.contains(k));
        crate::grouping::lemma_distinct_keys_contains(keys, k);
        let j = choose|j: int| 0 <= j < keys.len() && keys[j] == k;
        let mm = crate::grouping::positions_of(keys, k);
        crate::grouping::lemma_positions_exact(keys, k);
        assert(keys[j] == k);
        assert(mm.contains(j as usize));
        assert(m.to_multiset() == mm.to_multiset());
        vstd::seq_lib::to_multiset_contains(m, j as usize);
        vstd::seq_lib::to_multiset_contains(mm, j as usize);
        assert(m.contains(j as usize));
        assert(m.len() > 0);
        assert(m.contains(m[0]));
        assert(m.contains(m[m.len() - 1]));
        vstd::seq_lib::to_multiset_contains(m, m[0]);
        vstd::seq_lib::to_multiset_contains(mm, m[0]);
        vstd::seq_lib::to_multiset_contains(m, m[m.len() - 1]);
        vstd::seq_lib::to_multiset_contains(mm, m[m.len() - 1]);
    }
    // Every point below +inf has a cell whose lowest point is no higher and
    // not a NaN; every point above -inf a cell whose highest point is no
    // lower and not a NaN.
    assert forall|i: int| 0 <= i < n && below_infinity(z_bits[i]) implies exists|g: int|
        0 <= g < r.len() && below_infinity(#[trigger] lows[g]) && crate::float_bits::f32_bits_rank(
            lows[g],
        ) <= crate::float_bits::f32_bits_rank(z_bits[i]) by {
        let g = lemma_point_in_a_cell(cells, z_bits, r, i);
        let m = r[g].members@;
        lemma_sorted_extremes(zk, m, i as usize);
        let f = m[0];
        assert(m.contains(f));
        crate::float_bits::lemma_order_key_monotone(z_bits[f as int], z_bits[i]);
        if f != i as usize {
            assert(cells[f as int] == cells[i]);
            assert(!crate::float_bits::f32_bits_is_nan(z_bits[f as int]));
        }
        assert(lows[g] == z_bits[f as int]);
    }
    assert forall|i: int| 0 <= i < n && above_neg_infinity(z_bits[i]) implies exists|g: int|
        0 <= g < r.len() && above_neg_infinity(#[trigger] highs[g]) && crate::float_bits::f32_bits_rank(
            z_bits[i],
        ) <= crate::float_bits::f32_bits_rank(highs[g]) by {
        let g = lemma_point_in_a_cell(cells, z_bits, r, i);
        let m = r[g].members@;
        lemma_sorted_extremes(zk, m, i as usize);
        let l = m[m.len() - 1];
        assert(m.contains(l));
        crate::float_bits::lemma_order_key_monotone(z_bits[i], z_bits[l as int]);
        if l != i as usize {
            assert(cells[l as int] == cells[i]);
            assert(!crate::float_bits::f32_bits_is_nan(z_bits[l as int]));
        }
        assert(highs[g] == z_bits[l as int]);
    }
    assert forall|g: int| #[trigger] is_first_lowest(lows, g) implies (exists|j: int|
        0 <= j < z_bits.len() && z_bits[j] == lows[g]) && (forall|i: int|
        0 <= i < z_bits.len() && below_infinity(#[trigger] z_bits[i])
            ==> crate::float_bits::f32_bits_rank(lows[g]) <= crate::float_bits::f32_bits_rank(
            z_bits[i],
        )) by {
        let j = r[g].members[0] as int;
        assert(z_bits[j] == lows[g]);
    }
    assert forall|g: int| #[trigger] is_first_highest(highs, g) implies (exists|j: int|
        0 <= j < z_bits.len() && z_bits[j] == highs[g]) && (forall|i: int|
        0 <= i < z_bits.len() && above_neg_infinity(#[trigger] z_bits[i])
            ==> crate::float_bits::f32_bits_rank(z_bits[i]) <= crate::float_bits::f32_bits_rank(
            highs[g],
        )) by {
        let j = r[g].members[r[g].members.len() - 1] as int;
        assert(z_bits[j] == highs[g]);
    }
}

} // verus!
