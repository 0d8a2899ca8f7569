use woxel::atlas::{arr32_from_arr64, closest_power_of_3, origin_from_idx};
use woxel::coords::GlobalCoordinates;
use woxel::gpu::MaskUniform;
use woxel::node::InternalData;
use woxel::tree::{RootData, VdbEndpoint, VDB345};

fn g(x: i32, y: i32, z: i32) -> GlobalCoordinates {
    GlobalCoordinates { x, y, z }
}

fn leaf_value(vdb: &VDB345<u8>, p: GlobalCoordinates) -> Option<u8> {
    match vdb.get_voxel(p) {
        VdbEndpoint::Leaf(v) => Some(v),
        _ => None,
    }
}

#[test]
fn set_get_voxel_test() {
    let mut vdb = <VDB345<u8>>::new();
    let points = [[0, 0, 0], [123, 78, 3], [34, 123, 46], [102, 79, 28]];
    for (i, &point) in points.iter().enumerate() {
        vdb.set_voxel(g(point[0], point[1], point[2]), i as u8);
    }
    for (i, &point) in points.iter().enumerate() {
        let VdbEndpoint::Leaf(res) = vdb.get_voxel(g(point[0], point[1], point[2])) else {
            panic!("Leaf value not found at point {point:?}");
        };
        assert_eq!(i as u8, res);
    }
}

#[test]
fn scattered_inserts_leave_background() {
    let mut vdb = <VDB345<u8>>::new();
    let points = [g(0, 0, 0), g(123, 78, 3), g(34, 123, 46), g(102, 79, 28)];
    for (i, p) in points.iter().enumerate() {
        vdb.set_voxel(*p, i as u8);
    }
    assert!(matches!(vdb.get_voxel(g(1, 1, 1)), VdbEndpoint::Offs(0)));
    assert!(matches!(vdb.get_voxel(g(5000, 1, 1)), VdbEndpoint::Bkgr(0)));
    assert!(matches!(vdb.get_voxel(g(-1, 0, 0)), VdbEndpoint::Bkgr(0)));
    assert!(matches!(vdb.get_voxel(g(0, 0, 4000)), VdbEndpoint::Innr(0, 5)));
    assert!(matches!(vdb.get_voxel(g(0, 0, 8)), VdbEndpoint::Innr(0, 4)));
}

#[test]
fn empty_grid_is_background_everywhere() {
    let vdb = <VDB345<u16>>::new();
    assert!(matches!(vdb.get_voxel(g(1, 1, 1)), VdbEndpoint::Bkgr(0)));
    assert!(matches!(vdb.get_voxel(g(i32::MIN, i32::MAX, -1)), VdbEndpoint::Bkgr(0)));
    assert_eq!(vdb.count_nodes(), [0, 0, 0]);
    assert!(vdb.origins().is_empty());
    assert_eq!(vdb.grid_descriptor.name, "Demo");
    let atlas = vdb.atlas();
    assert!(atlas[0].is_empty() && atlas[1].is_empty() && atlas[2].is_empty());
}

#[test]
fn cross_root_insert() {
    let mut vdb = <VDB345<u8>>::new();
    vdb.set_voxel(g(0, 0, 0), 7);
    vdb.set_voxel(g(10_002_020, 0, 0), 9);
    assert_eq!(vdb.root.map.len(), 2);
    for (key, entry) in vdb.root.map.iter() {
        let RootData::Node(block) = entry else { panic!("a tile at {key:?}") };
        assert_eq!(block.origin, *key);
    }
    assert_eq!(vdb.root.map[0].0, g(0, 0, 0));
    assert_eq!(vdb.root.map[1].0, g(10_002_020 / 4096 * 4096, 0, 0));
    assert_eq!(leaf_value(&vdb, g(0, 0, 0)), Some(7));
    assert_eq!(leaf_value(&vdb, g(10_002_020, 0, 0)), Some(9));
    assert_eq!(vdb.count_nodes(), [2, 2, 2]);
    assert_eq!(vdb.origins(), vec![g(0, 0, 0), g(10_002_020 / 4096 * 4096, 0, 0)]);
}

#[test]
fn last_write_wins_and_same_write_is_idempotent() {
    let mut vdb = <VDB345<u8>>::new();
    vdb.set_voxel(g(-5, 17, 300), 1);
    vdb.set_voxel(g(-5, 17, 300), 1);
    assert_eq!(leaf_value(&vdb, g(-5, 17, 300)), Some(1));
    assert_eq!(vdb.count_nodes(), [1, 1, 1]);
    vdb.set_voxel(g(-5, 17, 300), 2);
    assert_eq!(leaf_value(&vdb, g(-5, 17, 300)), Some(2));
    vdb.set_voxel(g(-5, 17, 301), 3);
    assert_eq!(leaf_value(&vdb, g(-5, 17, 300)), Some(2));
    assert_eq!(leaf_value(&vdb, g(-5, 17, 301)), Some(3));
    assert_eq!(vdb.count_nodes(), [1, 1, 1]);
    assert_eq!(vdb.origins(), vec![g(-4096, 0, 0)]);
}

#[test]
fn root_tile_is_promoted_to_a_block() {
    let mut vdb = <VDB345<u8>>::new();
    vdb.root.map.push((g(0, 0, 0), RootData::Tile(42, true)));
    assert!(matches!(vdb.get_voxel(g(9, 9, 9)), VdbEndpoint::Root(42)));
    assert_eq!(vdb.count_nodes(), [0, 0, 0]);
    vdb.set_voxel(g(9, 9, 9), 4);
    assert_eq!(leaf_value(&vdb, g(9, 9, 9)), Some(4));
    assert!(matches!(vdb.root.map[0].1, RootData::Node(_)));
    assert_eq!(vdb.root.map.len(), 1);
}

#[test]
fn masks_follow_the_inserts() {
    let mut vdb = <VDB345<u8>>::new();
    vdb.set_voxel(g(0, 0, 0), 1);
    vdb.set_voxel(g(0, 0, 33), 2);
    vdb.set_voxel(g(0, 0, 130), 3);
    let RootData::Node(n5) = &vdb.root.map[0].1 else { panic!("no block") };
    assert_eq!(n5.child_mask[0], 0b11);
    assert_eq!(n5.child_mask.iter().map(|w| w.count_ones()).sum::<u32>(), 2);
    assert!(n5.value_mask.iter().all(|w| *w == 0));
    let (kids5, vals5, kids4, vals4, vals3) = vdb.masks();
    assert_eq!((kids5.len(), vals5.len(), kids4.len(), vals4.len(), vals3.len()), (1, 1, 2, 2, 3));
    assert_eq!(kids5[0].len(), 1024);
    assert_eq!(kids4[0].len(), 128);
    assert_eq!(vals3[0].len(), 16);
    assert_eq!(kids5[0][0], 0b11);
    assert_eq!(kids4[0][0], 0b1_0001);
    assert_eq!(kids4[1][0], 0b1);
    assert_eq!(vals3[0][0], 1);
    assert_eq!(vals3[1][0], 2);
    assert_eq!(vals3[2][0], 4);
    assert!(vals4[0].iter().all(|w| *w == 0));
    assert_eq!(vdb.count_nodes(), [1, 2, 3]);
}

#[test]
fn arr32_splits_low_word_first() {
    assert_eq!(
        arr32_from_arr64(&vec![0x1122_3344_5566_7788, 0xFFFF_FFFF_0000_0000]),
        vec![0x5566_7788, 0x1122_3344, 0, 0xFFFF_FFFF]
    );
    assert!(arr32_from_arr64(&vec![]).is_empty());
}

#[test]
fn closest_power_of_3_is_the_cube_root_rounded_up() {
    assert_eq!(closest_power_of_3(0), 0);
    assert_eq!(closest_power_of_3(1), 1);
    assert_eq!(closest_power_of_3(2), 2);
    assert_eq!(closest_power_of_3(8), 2);
    assert_eq!(closest_power_of_3(9), 3);
    assert_eq!(closest_power_of_3(27), 3);
    assert_eq!(closest_power_of_3(28), 4);
    assert_eq!(closest_power_of_3(0xFFFF_FFFF), 1626);
    assert_eq!(origin_from_idx(0, 3), (0, 0, 0));
    assert_eq!(origin_from_idx(5, 3), (2, 1, 0));
    assert_eq!(origin_from_idx(22, 3), (1, 1, 2));
}

#[test]
fn atlas_dimensions_and_cells() {
    let mut vdb = <VDB345<u16>>::new();
    vdb.set_voxel(g(0, 0, 0), 500);
    vdb.set_voxel(g(0, 0, 33), 600);
    vdb.set_voxel(g(0, 0, 130), 700);
    vdb.set_voxel(g(4096, 0, 1), 800);
    assert_eq!(vdb.count_nodes(), [2, 3, 4]);
    let atlas = vdb.atlas();
    for (level, dim, side) in [(0usize, 32usize, 2usize), (1, 16, 2), (2, 8, 2)] {
        assert_eq!(atlas[level].len(), dim * side);
        for plane in atlas[level].iter() {
            assert_eq!(plane.len(), dim * side);
            for row in plane.iter() {
                assert_eq!(row.len(), dim * side);
            }
        }
    }
    // Level 5, slot 0: entry 0 holds level-4 block 0, entry 1 holds block 1.
    assert_eq!(atlas[0][0][0][0], 0);
    assert_eq!(atlas[0][0][0][1], 1);
    assert_eq!(atlas[0][0][0][2], 0);
    // Level 5, slot 1 lies at x = 32: entry 0 holds level-4 block 2.
    assert_eq!(atlas[0][32][0][0], 2);
    // Level 4, slot 0: entries 0 and 4 hold leaves 0 and 1.
    assert_eq!(atlas[1][0][0][0], 0);
    assert_eq!(atlas[1][0][0][4], 1);
    // Level 4, slot 1 at x = 16 holds leaf 2, slot 2 at y = 16 holds leaf 3.
    assert_eq!(atlas[1][16][0][0], 2);
    assert_eq!(atlas[1][0][16][0], 3);
    // Leaves: slot 0 at the origin, slot 1 at x = 8, slot 2 at y = 8, slot 3 at x = y = 8.
    assert_eq!(atlas[2][0][0][0], 500);
    assert_eq!(atlas[2][8][0][1], 600);
    assert_eq!(atlas[2][0][8][2], 700);
    assert_eq!(atlas[2][8][8][1], 800);
    assert_eq!(atlas[2][0][0][1], 0);
    // Free slots stay zero.
    assert!(atlas[2][0][0][8..].iter().all(|v| *v == 0));
}

#[test]
fn identical_trees_give_identical_outputs() {
    let build = || {
        let mut vdb = <VDB345<u32>>::new();
        for (i, p) in [g(70000, -3, 9), g(0, 0, 0), g(-4097, 5, 5), g(1, 2, 3)].iter().enumerate() {
            vdb.set_voxel(*p, 1000 + i as u32);
        }
        vdb
    };
    let a = build();
    let mut b = <VDB345<u32>>::new();
    // The same voxels in another order.
    for (i, p) in [g(70000, -3, 9), g(0, 0, 0), g(-4097, 5, 5), g(1, 2, 3)].iter().enumerate().rev() {
        b.set_voxel(*p, 1000 + i as u32);
    }
    assert_eq!(a, b);
    assert_eq!(a.atlas(), b.atlas());
    assert_eq!(a.masks(), b.masks());
    assert_eq!(a.origins(), b.origins());
    assert_eq!(a.atlas(), a.atlas());
    assert_eq!(a.origins(), vec![g(-8192, 0, 0), g(0, 0, 0), g(69632, -4096, 0)]);
}

#[test]
fn mask_uniform_pads_origins() {
    let mut vdb = <VDB345<u8>>::new();
    vdb.set_voxel(g(-1, 5000, 3), 1);
    let uniform = MaskUniform::from(&vdb);
    assert_eq!(uniform.origins, vec![[-4096, 4096, 0, 0]]);
    assert_eq!(uniform.kids5.len(), 1);
    assert_eq!(uniform.vals3.len(), 1);
    assert_eq!(uniform.kids5, vdb.masks().0);
}

#[test]
fn first_write_sets_one_bit_per_level() {
    let mut vdb = <VDB345<u32>>::new();
    vdb.set_voxel(g(0, 4, 0), 1);
    let (k5, v5, k4, v4, v3) = vdb.masks();
    assert_eq!(k5.len(), 1);
    assert_eq!(k5[0][0], 1);
    assert!(k5[0][1..].iter().all(|w| *w == 0));
    assert_eq!(v5, vec![vec![0u32; 1024]]);
    assert_eq!(k4.len(), 1);
    assert_eq!(k4[0][0], 1);
    assert!(k4[0][1..].iter().all(|w| *w == 0));
    assert_eq!(v4, vec![vec![0u32; 128]]);
    assert_eq!(v3.len(), 1);
    assert_eq!(v3[0][1], 1);
    assert!(v3[0].iter().enumerate().all(|(i, w)| i == 1 || *w == 0));
}

#[test]
fn created_blocks_lie_at_their_origins() {
    let mut vdb = <VDB345<u8>>::new();
    vdb.set_voxel(g(5, 6, 7), 1);
    vdb.set_voxel(g(200, -1, 4100), 2);
    for (key, p, origin4) in [
        (g(0, 0, 0), g(5, 6, 7), g(0, 0, 0)),
        (g(0, -4096, 4096), g(200, -1, 4100), g(128, -128, 4096)),
    ] {
        let entry = vdb.root.map.iter().find(|(k, _)| *k == key).unwrap();
        let RootData::Node(n5) = &entry.1 else { panic!("a tile at {key:?}") };
        assert_eq!(n5.origin, key);
        let children: Vec<_> = n5
            .data
            .iter()
            .filter_map(|e| match e {
                InternalData::Node(n4) => Some(n4),
                InternalData::Tile(_) => None,
            })
            .collect();
        assert_eq!(children.len(), 1);
        assert_eq!(children[0].origin, origin4, "level-4 block of {p:?}");
    }
}

#[test]
fn repeated_write_leaves_the_tree_as_it_was() {
    let mut vdb = <VDB345<u16>>::new();
    vdb.set_voxel(g(0, 0, 0), 3);
    vdb.set_voxel(g(-70, 900, 12), 4);
    let once = vdb.clone();
    vdb.set_voxel(g(-70, 900, 12), 4);
    assert_eq!(vdb, once);
    assert_eq!(vdb.masks(), once.masks());
    assert_eq!(vdb.atlas(), once.atlas());
    assert_eq!(vdb.checked_atlas(), Some(once.atlas()));
    assert_eq!(vdb.origins(), once.origins());
    assert_eq!(vdb.count_nodes(), once.count_nodes());
}

#[test]
fn a_write_changes_value_bits_only_where_it_promotes() {
    let mut vdb = <VDB345<u8>>::new();
    vdb.set_voxel(g(0, 0, 0), 1);
    vdb.root.map.push((g(4096, 0, 0), RootData::Tile(6, true)));
    {
        let RootData::Node(n5) = &mut vdb.root.map[0].1 else { panic!("no block") };
        // Entries 5 and 9 of the level-5 block are active tiles.
        n5.data[5] = InternalData::Tile(77);
        n5.value_mask[0] = (1 << 5) | (1 << 9);
        let InternalData::Node(n4) = &mut n5.data[0] else { panic!("no level-4 block") };
        n4.value_mask[1] = 1 << 3;
    }
    vdb.set_voxel(g(0, 0, 8), 2);
    vdb.set_voxel(g(0, 0, 128 * 9), 3);
    let RootData::Node(n5) = &vdb.root.map[0].1 else { panic!("no block") };
    assert_eq!(n5.value_mask[0], 1 << 5);
    assert!(n5.value_mask[1..].iter().all(|w| *w == 0));
    assert_eq!(n5.child_mask[0], 1 | (1 << 9));
    assert!(matches!(n5.data[5], InternalData::Tile(77)));
    let InternalData::Node(n4) = &n5.data[0] else { panic!("no level-4 block") };
    assert_eq!(n4.value_mask[1], 1 << 3);
    assert_eq!(n4.child_mask[0], 0b11);
    assert_eq!(vdb.root.map[1], (g(4096, 0, 0), RootData::Tile(6, true)));
}
