//! Voxel grid downsampling: which points share a voxel.
//!
//! A point's voxel is given by its integer cell coordinates along x, y and z;
//! its key is the Morton code of the three. The averaging of the coordinates
//! of the points of each voxel is done by the caller on the groups returned.

use vstd::prelude::*;
use crate::grouping::{group_by_key, KeyGroups};
use crate::morton::morton3d;

verus! {

/// The cell of a point in a voxel grid, counted from the grid's corner.
#[derive(Clone, Copy, Debug, PartialEq, Eq)]
pub struct VoxelIndex {
    pub ix: u32,
    pub iy: u32,
    pub iz: u32,
}

/// The key of a voxel: its Morton code.
pub open spec fn voxel_key_spec(c: VoxelIndex) -> u64 {
    crate::morton::morton3d_spec(c.ix, c.iy, c.iz) as u64
}

/// The keys of a sequence of cells.
pub open spec fn voxel_keys_spec(cells: Seq<VoxelIndex>) -> Seq<u64> {
    cells.map_values(|c: VoxelIndex| voxel_key_spec(c))
}

/// The Morton key of each cell.
pub fn voxel_keys(cells: &Vec<VoxelIndex>) -> (r: Vec<u64>)
    ensures
        r@ == voxel_keys_spec(cells@),
{
    let mut keys: Vec<u64> = Vec::new();
    let mut i: usize = 0;
    while i < cells.len()
        invariant
            0 <= i <= cells.len(),
            keys@ == voxel_keys_spec(cells@.take(i as int)),
        decreases cells.len() - i,
    {
        let c = cells[i];
        let k = morton3d(c.ix, c.iy, c.iz);
        keys.push(k as u64);
        assert(cells@.take(i + 1) == cells@.take(i as int).push(c));
        i = i + 1;
    }
    assert(cells@.take(cells.len() as int) == cells@);
    keys
}

/// The voxels of the points whose cells are `cells`: one group per occupied
/// voxel, in order of first occupation, each listing its points in order.
pub fn voxel_groups(cells: &Vec<VoxelIndex>) -> (r: KeyGroups)
    ensures
        r.groups_of(voxel_keys_spec(cells@)),
{
    let keys = voxel_keys(cells);
    group_by_key(&keys)
}

/// Two points fall in the same voxel group exactly when their cells agree on
/// the low ten bits of each coordinate.
pub proof fn lemma_same_voxel(cells: Seq<VoxelIndex>, i: int, j: int)
    requires
        cells.len() <= usize::MAX,
        0 <= i < cells.len(),
        0 <= j < cells.len(),
    ensures
        crate::grouping::positions_of(voxel_keys_spec(cells), voxel_keys_spec(cells)[i]).contains(j as usize)
            <==> (cells[i].ix & 0x3ff == cells[j].ix & 0x3ff && cells[i].iy & 0x3ff == cells[j].iy
            & 0x3ff && cells[i].iz & 0x3ff == cells[j].iz & 0x3ff),
        crate::grouping::distinct_keys(voxel_keys_spec(cells)).contains(voxel_keys_spec(cells)[i]),
{
    let s = voxel_keys_spec(cells);
    crate::grouping::lemma_item_in_one_group(s, j, s[i]);
    crate::grouping::lemma_item_in_one_group(s, i, s[i]);
    crate::morton::lemma_morton3d_injective(cells[i].ix, cells[i].iy, cells[i].iz, cells[j].ix, cells[j].iy, cells[j].iz);
}

/// Reordering the points does not change how many voxels they occupy, nor
/// which.
pub proof fn lemma_voxel_count_permutation(cells: Seq<VoxelIndex>, p: Seq<int>, inv: Seq<int>)
    requires
        cells.len() <= usize::MAX,
        crate::grouping::is_permutation(p, inv, cells.len()),
    ensures
        crate::grouping::distinct_keys(voxel_keys_spec(crate::grouping::permuted(cells, p))).len()
            == crate::grouping::distinct_keys(voxel_keys_spec(cells)).len(),
        forall|k: u64|
            #[trigger] crate::grouping::distinct_keys(
                voxel_keys_spec(crate::grouping::permuted(cells, p)),
            ).contains(k) <==> crate::grouping::distinct_keys(voxel_keys_spec(cells)).contains(k),
{
    let s = voxel_keys_spec(cells);
    assert(voxel_keys_spec(crate::grouping::permuted(cells, p)) =~= crate::grouping::permuted(s, p));
    crate::grouping::lemma_groups_permutation(s, p, inv);
}

} // verus!
