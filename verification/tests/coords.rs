use woxel::coords::{GlobalCoordinates, LocalCoordinates};
use woxel::node::{InternalNode, LeafNode, Node};

type N3 = LeafNode<u64, 3>;
type N4 = InternalNode<N3, 4>;
type N5 = InternalNode<N4, 5>;

fn g(x: i32, y: i32, z: i32) -> GlobalCoordinates {
    GlobalCoordinates { x, y, z }
}

fn l(x: u32, y: u32, z: u32) -> LocalCoordinates {
    LocalCoordinates { x, y, z }
}

#[test]
fn global_to_node_test() {
    assert_eq!(g(-8, 0, 0), N3::global_to_node(g(-1, 0, 0)));
    assert_eq!(g(-256, 2304, 0), N4::global_to_node(g(-142, 2431, 102)));
    assert_eq!(g(-4096, 0, -45056), N5::global_to_node(g(-1, 0, -42141)));
}

#[test]
fn n345_mask_size_test() {
    let n3 = N3::new();
    let n4 = N4::new(g(0, 0, 0));
    let n5 = N5::new(g(0, 0, 0));
    let n345_masks = (n3.value_mask.len(), n4.value_mask.len(), n5.value_mask.len());
    assert_eq!(n345_masks, (8, 64, 512));
    assert_eq!((n4.child_mask.len(), n5.child_mask.len()), (64, 512));
    assert_eq!((n3.data.len(), n4.data.len(), n5.data.len()), (512, 4096, 32768));
}

#[test]
fn total_log2_d_test() {
    assert_eq!(8, 1 << N3::total_log2_d());
    assert_eq!(128, 1 << N4::total_log2_d());
    assert_eq!(4096, 1 << N5::total_log2_d());
}

#[test]
fn bit_index_test() {
    assert_eq!(0, N3::global_to_offset(g(0, 0, 0)));
    assert_eq!(83, N3::global_to_offset(g(1, 2, 3)));
    assert_eq!(3382, N4::global_to_offset(g(121321, 212123, 3121)));
    assert_eq!(0, N5::global_to_offset(g(1, 2, 3)));
}

#[test]
fn local_to_offset_test() {
    let tests = vec![[1, 2, 3], [15, 15, 0], [8, 9, 10]];

    for coord in tests {
        let offset = N4::child_to_offset(l(coord[0], coord[1], coord[2]));
        let res = N4::offset_to_child(offset);
        assert_eq!(coord, [res.x, res.y, res.z]);
    }
}

#[test]
fn log2_d_per_level() {
    assert_eq!((3, 4, 5), (N3::log2_d(), N4::log2_d(), N5::log2_d()));
    assert_eq!((3, 7, 12), (N3::total_log2_d(), N4::total_log2_d(), N5::total_log2_d()));
}

#[test]
fn offsets_round_trip_at_every_level() {
    for x in 0..8u32 {
        for y in 0..8u32 {
            for z in 0..8u32 {
                let off = N3::child_to_offset(l(x, y, z));
                assert_eq!(off, ((x << 6) | (y << 3) | z) as usize);
                assert!(off < 512);
                assert_eq!(N3::offset_to_child(off), l(x, y, z));
            }
        }
    }
    for c in [l(0, 0, 0), l(31, 31, 31), l(1, 2, 3), l(17, 0, 30)] {
        let off = N5::child_to_offset(c);
        assert!(off < 32768);
        assert_eq!(N5::offset_to_child(off), c);
    }
    assert_eq!(N5::child_to_offset(l(31, 31, 31)), 32767);
    assert_eq!(N4::child_to_offset(l(1, 2, 3)), 256 + 32 + 3);
}

#[test]
fn origin_membership_on_negative_coordinates() {
    let points = [g(-1, -1, -1), g(i32::MIN, i32::MAX, 0), g(-4097, 4096, 127), g(5, -129, 8)];
    for p in points {
        let origin = N5::global_to_node(p);
        assert_eq!(origin.x % 4096, 0);
        assert_eq!(origin.y % 4096, 0);
        assert_eq!(origin.z % 4096, 0);
        assert!(origin.x <= p.x && (p.x as i64) < origin.x as i64 + 4096);
        let off = N5::global_to_offset(p);
        assert!(off < 32768);
        let child = N5::offset_to_child(off);
        let cell = origin.x as i64 + child.x as i64 * 128;
        assert!(cell <= p.x as i64 && (p.x as i64) < cell + 128);
        let cell = origin.y as i64 + child.y as i64 * 128;
        assert!(cell <= p.y as i64 && (p.y as i64) < cell + 128);
        let cell = origin.z as i64 + child.z as i64 * 128;
        assert!(cell <= p.z as i64 && (p.z as i64) < cell + 128);
    }
    assert_eq!(N3::global_to_node(g(i32::MIN, -9, 7)), g(i32::MIN, -16, 0));
    assert_eq!(N3::global_to_offset(g(-1, -1, -1)), 511);
}

#[test]
fn relative_and_child_coordinates() {
    let rel = N4::global_to_relative(g(-142, 2431, 102));
    assert_eq!(rel, l(114, 127, 102));
    assert_eq!(N4::relative_to_child(rel), l(14, 15, 12));
    assert_eq!(N4::global_to_offset(g(-142, 2431, 102)), (14 << 8) | (15 << 4) | 12);
}
