use r2r_for_fastlio2::float_bits::{f32_bits_is_nan_exec, f32_bits_lt, f32_order_key, order_keys};
use r2r_for_fastlio2::grouping::group_by_key;
use r2r_for_fastlio2::morton::morton3d;
use r2r_for_fastlio2::pointcloud::{livox_layout_ok, parse_livox_pointcloud2, RawPoint};
use r2r_for_fastlio2::remove_ceiling::{
    grid_key, grid_keys, has_nan_in_shared_cell, height_cells, min_max_cells, split_below, GridCell,
};
use r2r_for_fastlio2::send_data::PointCloudPacket;
use r2r_for_fastlio2::sorting::sort_by_key_position;
use r2r_for_fastlio2::types::{GottenData, LaserMapGate};
use r2r_for_fastlio2::voxelization::{voxel_groups, voxel_keys, VoxelIndex};

#[test]
fn morton3d_unit_axes() {
    assert_eq!(morton3d(0, 0, 0), 0);
    assert_eq!(morton3d(1, 0, 0), 1);
    assert_eq!(morton3d(0, 1, 0), 2);
    assert_eq!(morton3d(0, 0, 1), 4);
    assert_eq!(morton3d(1, 1, 1), 7);
}

#[test]
fn morton3d_interleaves_bits() {
    assert_eq!(morton3d(3, 0, 0), 0b1001);
    assert_eq!(morton3d(2, 2, 2), 0b111000);
    assert_eq!(morton3d(0x200, 0, 0), 1 << 27);
    assert_eq!(morton3d(0, 0, 0x200), 1 << 29);
    assert_eq!(morton3d(1023, 1023, 1023), 0x3fff_ffff);
}

#[test]
fn morton3d_uses_low_ten_bits_only() {
    assert_eq!(morton3d(1024, 0, 0), 0);
    assert_eq!(morton3d(1024 + 5, 2048 + 6, u32::MAX), morton3d(5, 6, 1023));
}

#[test]
fn morton3d_distinct_on_small_cube() {
    let mut seen = std::collections::HashSet::new();
    for x in 0..16u32 {
        for y in 0..16u32 {
            for z in 0..16u32 {
                assert!(seen.insert(morton3d(x, y, z)));
            }
        }
    }
    assert_eq!(seen.len(), 4096);
}

#[test]
fn order_key_zeroes_share_key() {
    assert_eq!(f32_order_key(0.0f32.to_bits()), f32_order_key((-0.0f32).to_bits()));
    assert_eq!(f32_order_key(0.0f32.to_bits()), 0x8000_0000);
}

#[test]
fn order_key_follows_float_order() {
    let values = [f32::NEG_INFINITY, -1.0e30, -2.5, -1.0, -1.0e-40, 0.0, 1.0e-40, 0.5, 1.0, 3.0e38, f32::INFINITY];
    for w in values.windows(2) {
        assert!(f32_order_key(w[0].to_bits()) < f32_order_key(w[1].to_bits()));
        assert!(f32_bits_lt(w[0].to_bits(), w[1].to_bits()));
        assert!(!f32_bits_lt(w[1].to_bits(), w[0].to_bits()));
    }
}

#[test]
fn lt_is_false_with_nan() {
    let nan = f32::NAN.to_bits();
    assert!(f32_bits_is_nan_exec(nan));
    assert!(!f32_bits_is_nan_exec(f32::INFINITY.to_bits()));
    assert!(!f32_bits_lt(nan, 1.0f32.to_bits()));
    assert!(!f32_bits_lt(1.0f32.to_bits(), nan));
    assert!(!f32_bits_lt((-0.0f32).to_bits(), 0.0f32.to_bits()));
}

#[test]
fn order_keys_maps_each_pattern() {
    let bits = vec![1.0f32.to_bits(), (-1.0f32).to_bits()];
    let keys = order_keys(&bits);
    assert_eq!(keys, vec![f32_order_key(bits[0]), f32_order_key(bits[1])]);
    assert!(keys[1] < keys[0]);
}

#[test]
fn group_by_key_first_appearance_order() {
    let g = group_by_key(&vec![5, 3, 5, 7, 3]);
    assert_eq!(g.keys, vec![5, 3, 7]);
    assert_eq!(g.members, vec![vec![0, 2], vec![1, 4], vec![3]]);
}

#[test]
fn group_by_key_empty_and_single() {
    let g = group_by_key(&vec![]);
    assert!(g.keys.is_empty());
    assert!(g.members.is_empty());
    let g = group_by_key(&vec![u64::MAX, u64::MAX, u64::MAX]);
    assert_eq!(g.keys, vec![u64::MAX]);
    assert_eq!(g.members, vec![vec![0, 1, 2]]);
}

#[test]
fn group_sizes_add_up() {
    let keys: Vec<u64> = (0..1000u64).map(|i| (i * 7919) % 37).collect();
    let g = group_by_key(&keys);
    let total: usize = g.members.iter().map(|m| m.len()).sum();
    assert_eq!(total, keys.len());
    assert_eq!(g.keys.len(), 37);
    for (k, m) in g.keys.iter().zip(g.members.iter()) {
        for &i in m {
            assert_eq!(keys[i], *k);
        }
    }
}

#[test]
fn sort_by_key_position_is_stable() {
    let mut items = vec![0usize, 1, 2, 3];
    sort_by_key_position(&mut items, &vec![3, 1, 3, 0]);
    assert_eq!(items, vec![3, 1, 0, 2]);
    let mut items = vec![4usize, 2, 0];
    sort_by_key_position(&mut items, &vec![9, 9, 9, 9, 9]);
    assert_eq!(items, vec![0, 2, 4]);
    let mut empty: Vec<usize> = vec![];
    sort_by_key_position(&mut empty, &vec![]);
    assert!(empty.is_empty());
}

#[test]
fn voxel_keys_are_morton_codes() {
    let cells = vec![VoxelIndex { ix: 1, iy: 1, iz: 1 }, VoxelIndex { ix: 0, iy: 0, iz: 1 }];
    assert_eq!(voxel_keys(&cells), vec![7u64, 4u64]);
}

#[test]
fn voxel_groups_collect_points_of_a_voxel() {
    let cells = vec![
        VoxelIndex { ix: 0, iy: 0, iz: 0 },
        VoxelIndex { ix: 1, iy: 0, iz: 0 },
        VoxelIndex { ix: 0, iy: 0, iz: 0 },
        VoxelIndex { ix: 1024, iy: 0, iz: 0 },
    ];
    let g = voxel_groups(&cells);
    assert_eq!(g.keys, vec![0u64, 1u64]);
    assert_eq!(g.members, vec![vec![0, 2, 3], vec![1]]);
}

#[test]
fn grid_keys_distinct_cells() {
    let a = grid_key(GridCell { gx: 0, gy: 0 });
    let b = grid_key(GridCell { gx: 0, gy: 1 });
    let c = grid_key(GridCell { gx: 1, gy: 0 });
    let d = grid_key(GridCell { gx: -1, gy: 0 });
    assert_eq!(a, 0x8000_0000_8000_0000);
    assert_eq!(b, a + 1);
    assert_eq!(c, a + 0x1_0000_0000);
    assert_eq!(d, a - 0x1_0000_0000);
    assert_eq!(grid_key(GridCell { gx: i32::MIN, gy: i32::MIN }), 0);
    assert_eq!(grid_key(GridCell { gx: i32::MAX, gy: i32::MAX }), u64::MAX);
    assert_eq!(grid_keys(&vec![GridCell { gx: 0, gy: 1 }]), vec![b]);
}

#[test]
fn height_cells_sort_by_height() {
    let cells = vec![
        GridCell { gx: 0, gy: 0 },
        GridCell { gx: 2, gy: -1 },
        GridCell { gx: 0, gy: 0 },
        GridCell { gx: 0, gy: 0 },
        GridCell { gx: 2, gy: -1 },
    ];
    let z: Vec<u32> = [3.0f32, 1.0, -2.0, 3.0, 0.5].iter().map(|v| v.to_bits()).collect();
    let r = height_cells(&cells, &z);
    assert_eq!(r.len(), 2);
    assert_eq!(r[0].cell, GridCell { gx: 0, gy: 0 });
    assert_eq!(r[0].members, vec![2, 0, 3]);
    assert_eq!(r[1].cell, GridCell { gx: 2, gy: -1 });
    assert_eq!(r[1].members, vec![4, 1]);
}

#[test]
fn nan_in_shared_cell_detected() {
    let cells = vec![GridCell { gx: 0, gy: 0 }, GridCell { gx: 1, gy: 0 }, GridCell { gx: 0, gy: 0 }];
    let nan_alone: Vec<u32> = vec![0.0f32.to_bits(), f32::NAN.to_bits(), 1.0f32.to_bits()];
    assert!(!has_nan_in_shared_cell(&cells, &nan_alone));
    let r = height_cells(&cells, &nan_alone);
    assert_eq!(r[1].members, vec![1]);
    let nan_shared: Vec<u32> = vec![f32::NAN.to_bits(), 0.0f32.to_bits(), 1.0f32.to_bits()];
    assert!(has_nan_in_shared_cell(&cells, &nan_shared));
}

#[test]
fn min_max_cells_picks_first_extremes() {
    let mins: Vec<u32> = [2.0f32, -1.0, -1.0, f32::NAN].iter().map(|v| v.to_bits()).collect();
    let maxs: Vec<u32> = [2.0f32, 5.0, 5.0, f32::NAN].iter().map(|v| v.to_bits()).collect();
    assert_eq!(min_max_cells(&mins, &maxs), (Some(1), Some(1)));
}

#[test]
fn min_max_cells_without_finite_heights() {
    assert_eq!(min_max_cells(&vec![], &vec![]), (None, None));
    let mins = vec![f32::INFINITY.to_bits(), f32::NAN.to_bits()];
    let maxs = vec![f32::NEG_INFINITY.to_bits(), f32::NAN.to_bits()];
    assert_eq!(min_max_cells(&mins, &maxs), (None, None));
    let maxs = vec![f32::INFINITY.to_bits()];
    assert_eq!(min_max_cells(&vec![f32::NEG_INFINITY.to_bits()], &maxs), (Some(0), Some(0)));
}

#[test]
fn split_below_partitions_in_order() {
    let z: Vec<u32> = [0.0f32, 2.0, 1.0, -1.0, f32::NAN].iter().map(|v| v.to_bits()).collect();
    let (lower, upper) = split_below(&vec![3, 0, 2, 1, 4], &z, 1.0f32.to_bits());
    assert_eq!(lower, vec![3, 0]);
    assert_eq!(upper, vec![2, 1, 4]);
    let (lower, upper) = split_below(&vec![0, 1], &z, f32::NAN.to_bits());
    assert!(lower.is_empty());
    assert_eq!(upper, vec![0, 1]);
}

fn record(x: f32, y: f32, z: f32, pad: usize) -> Vec<u8> {
    let mut v = Vec::new();
    v.extend_from_slice(&x.to_le_bytes());
    v.extend_from_slice(&y.to_le_bytes());
    v.extend_from_slice(&z.to_le_bytes());
    v.extend(std::iter::repeat(0xAAu8).take(pad));
    v
}

#[test]
fn parse_reads_little_endian_coordinates() {
    let mut data = record(1.5, -2.0, 3.25, 4);
    data.extend(record(0.0, 10.0, -0.5, 4));
    assert!(livox_layout_ok(data.len(), 2, 1, 16));
    let pts = parse_livox_pointcloud2(&data, 2, 1, 16);
    assert_eq!(pts.len(), 2);
    assert_eq!(pts[0], RawPoint { x: 1.5f32.to_bits(), y: (-2.0f32).to_bits(), z: 3.25f32.to_bits() });
    assert_eq!(pts[1], RawPoint { x: 0.0f32.to_bits(), y: 10.0f32.to_bits(), z: (-0.5f32).to_bits() });
}

#[test]
fn parse_skips_records_past_the_end() {
    let mut data = record(1.0, 2.0, 3.0, 4);
    data.extend(record(4.0, 5.0, 6.0, 0));
    assert!(livox_layout_ok(data.len(), 3, 1, 16));
    let pts = parse_livox_pointcloud2(&data, 3, 1, 16);
    assert_eq!(pts.len(), 1);
    assert_eq!(pts[0].z, 3.0f32.to_bits());
    assert!(parse_livox_pointcloud2(&vec![], 0, 5, 16).is_empty());
}

#[test]
fn layout_refuses_what_cannot_be_read() {
    assert!(!livox_layout_ok(100, 0x1_0000, 0x1_0000, 16));
    assert!(!livox_layout_ok(8, 2, 1, 4));
    assert!(livox_layout_ok(24, 2, 1, 12));
    assert!(!livox_layout_ok(11, 1, 1, 0));
    assert!(livox_layout_ok(12, 3, 1, 0));
    let pts = parse_livox_pointcloud2(&record(7.0, 8.0, 9.0, 0), 3, 1, 0);
    assert_eq!(pts.len(), 3);
    assert_eq!(pts[2].x, 7.0f32.to_bits());
}

#[test]
fn gotten_data_cloud_registered_steps() {
    let mut d: GottenData<u8> = GottenData::new();
    assert_eq!(d.count, 0);
    d.begin_cloud_registered();
    d.record_cloud_registered(vec![1, 2, 3]);
    assert_eq!(d.count, 1);
    assert!(d.is_cr);
    assert_eq!(d.cr_points_num, 3);
    let p = PointCloudPacket::from_gotten_data(&d);
    assert_eq!(p.count, 1);
    assert!(p.is_cr);
    assert_eq!(p.cr_points, vec![1, 2, 3]);
    assert_eq!(p.cr_points_num, 3);
    assert_eq!(p.lm_points_num, 0);
    assert!(p.lm_points.is_empty());
    d.finish_cloud_registered();
    assert!(!d.is_cr && !d.is_lm && !d.should_send_lm);
}

#[test]
fn laser_map_travels_in_one_packet() {
    let mut d: GottenData<u8> = GottenData::new();
    d.begin_laser_map();
    d.record_laser_map(vec![9, 9]);
    assert!(d.is_lm && d.should_send_lm);
    assert_eq!(d.lm_points_num, 2);
    d.begin_cloud_registered();
    d.record_cloud_registered(vec![1]);
    let p = PointCloudPacket::from_gotten_data(&d);
    assert!(p.is_lm);
    assert_eq!(p.lm_points, vec![9, 9]);
    assert_eq!(p.lm_points_num, 2);
    d.finish_cloud_registered();
    d.begin_cloud_registered();
    d.record_cloud_registered(vec![2]);
    let p = PointCloudPacket::from_gotten_data(&d);
    assert_eq!(p.count, 2);
    assert!(!p.is_lm);
    assert!(p.lm_points.is_empty());
    assert_eq!(p.lm_points_num, 0);
}

#[test]
fn packet_counts_points_carried() {
    let mut d: GottenData<u8> = GottenData::new();
    d.cr_points = vec![1, 2];
    d.cr_points_num = 99;
    d.lm_points = vec![3];
    d.lm_points_num = 42;
    d.should_send_lm = true;
    let p = PointCloudPacket::from_gotten_data(&d);
    assert_eq!(p.cr_points_num, 2);
    assert_eq!(p.lm_points_num, 1);
}

#[test]
fn laser_map_gate_processes_only_the_sixth_message() {
    let mut g = LaserMapGate::new();
    let mut processed = Vec::new();
    for n in 0..20usize {
        if g.skip_before_size() {
            continue;
        }
        if g.accept_size(100 - n) {
            processed.push(n);
        }
    }
    assert_eq!(processed, vec![5]);
    assert_eq!(g.msg_count, 20);
    assert_eq!(g.points_num_prev, 95);
}

#[test]
fn laser_map_gate_size_rule() {
    let mut g = LaserMapGate { msg_count: 7, points_num_prev: 50 };
    assert!(!g.accept_size(50));
    assert_eq!(g.msg_count, 8);
    assert_eq!(g.points_num_prev, 50);
    assert!(g.accept_size(51));
    assert_eq!(g.points_num_prev, 51);
    let mut g = LaserMapGate { msg_count: 10, points_num_prev: 50 };
    assert!(g.accept_size(1));
    assert_eq!(g.points_num_prev, 1);
}

#[test]
fn voxel_count_ignores_point_order() {
    let cells: Vec<VoxelIndex> = (0..50u32)
        .map(|i| VoxelIndex { ix: i % 4, iy: (i / 4) % 3, iz: i % 2 })
        .collect();
    let reversed: Vec<VoxelIndex> = cells.iter().rev().cloned().collect();
    let a = voxel_groups(&cells);
    let b = voxel_groups(&reversed);
    assert_eq!(a.keys.len(), b.keys.len());
    let mut ka = a.keys.clone();
    let mut kb = b.keys.clone();
    ka.sort();
    kb.sort();
    assert_eq!(ka, kb);
    for (k, m) in a.keys.iter().zip(a.members.iter()) {
        let g = b.keys.iter().position(|x| x == k).unwrap();
        let mut back: Vec<usize> = b.members[g].iter().map(|&j| cells.len() - 1 - j).collect();
        back.sort();
        assert_eq!(&back, m);
    }
}

#[test]
fn height_cells_ignore_point_order() {
    let cells = vec![
        GridCell { gx: 0, gy: 0 },
        GridCell { gx: 1, gy: 1 },
        GridCell { gx: 0, gy: 0 },
        GridCell { gx: 1, gy: 1 },
        GridCell { gx: 0, gy: 0 },
    ];
    let z = [2.0f32, -3.0, 0.0, 4.0, -0.0];
    let p = [4usize, 2, 0, 3, 1];
    let cells2: Vec<GridCell> = p.iter().map(|&i| cells[i]).collect();
    let zb: Vec<u32> = z.iter().map(|v| v.to_bits()).collect();
    let zb2: Vec<u32> = p.iter().map(|&i| zb[i]).collect();
    let r1 = height_cells(&cells, &zb);
    let r2 = height_cells(&cells2, &zb2);
    assert_eq!(r1.len(), r2.len());
    for c1 in &r1 {
        let c2 = r2.iter().find(|c| c.cell == c1.cell).unwrap();
        let mut m1 = c1.members.clone();
        let mut m2: Vec<usize> = c2.members.iter().map(|&m| p[m]).collect();
        m1.sort();
        m2.sort();
        assert_eq!(m1, m2);
        let low1 = z[c1.members[0]];
        let low2 = z[p[c2.members[0]]];
        let high1 = z[*c1.members.last().unwrap()];
        let high2 = z[p[*c2.members.last().unwrap()]];
        assert_eq!(low1, low2);
        assert_eq!(high1, high2);
    }
}

#[test]
fn laser_map_recorded_mid_message_is_dropped() {
    let mut d: GottenData<u8> = GottenData::new();
    d.begin_cloud_registered();
    d.record_cloud_registered(vec![1]);
    let first = PointCloudPacket::from_gotten_data(&d);
    d.begin_laser_map();
    d.record_laser_map(vec![7]);
    d.finish_cloud_registered();
    assert_eq!(d.is_lm, d.should_send_lm);
    d.begin_cloud_registered();
    d.record_cloud_registered(vec![2]);
    let second = PointCloudPacket::from_gotten_data(&d);
    assert!(first.is_cr && second.is_cr);
    assert!(first.count < second.count);
    assert!(first.lm_points.is_empty() && second.lm_points.is_empty());
    assert!(!second.is_lm);
}

#[test]
fn cell_extremes_are_point_extremes() {
    let cells: Vec<GridCell> = (0..40i32).map(|i| GridCell { gx: i % 3, gy: i % 5 - 2 }).collect();
    let z: Vec<f32> = (0..40i32).map(|i| ((i * 37) % 23) as f32 - 11.5).collect();
    let zb: Vec<u32> = z.iter().map(|v| v.to_bits()).collect();
    let r = height_cells(&cells, &zb);
    let lows: Vec<u32> = r.iter().map(|c| zb[c.members[0]]).collect();
    let highs: Vec<u32> = r.iter().map(|c| zb[*c.members.last().unwrap()]).collect();
    let (lo, hi) = min_max_cells(&lows, &highs);
    let least = z.iter().cloned().fold(f32::INFINITY, f32::min);
    let greatest = z.iter().cloned().fold(f32::NEG_INFINITY, f32::max);
    assert_eq!(f32::from_bits(lows[lo.unwrap()]), least);
    assert_eq!(f32::from_bits(highs[hi.unwrap()]), greatest);
}

#[test]
fn only_one_packet_carries_laser_map_points() {
    let mut d: GottenData<u8> = GottenData::new();
    let mut gate = LaserMapGate::new();
    let mut carrying = 0;
    for n in 0..30u8 {
        d.begin_laser_map();
        if !gate.skip_before_size() && gate.accept_size(n as usize) {
            d.record_laser_map(vec![n]);
        }
        for _ in 0..2 {
            d.begin_cloud_registered();
            d.record_cloud_registered(vec![n]);
            let p = PointCloudPacket::from_gotten_data(&d);
            assert!(p.is_cr);
            if !p.lm_points.is_empty() {
                assert!(p.is_lm);
                assert_eq!(p.lm_points, vec![5]);
                carrying += 1;
            }
            d.finish_cloud_registered();
        }
    }
    assert_eq!(carrying, 1);
}
