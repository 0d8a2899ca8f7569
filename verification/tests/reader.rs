use std::io::Write;

use woxel::archive::VdbReader;
use woxel::buffer::BloscOutcome;
use woxel::coords::GlobalCoordinates;
use woxel::descriptor::{Compression, MetadataValue};
use woxel::stream::ErrorKind;
use woxel::grid::{origin_below, reads_half};
use woxel::node::InternalData;
use woxel::transform::{TransformMap, Vec3d};
use woxel::tree::{RootData, VdbEndpoint, VDB345};

fn g(x: i32, y: i32, z: i32) -> GlobalCoordinates {
    GlobalCoordinates { x, y, z }
}

fn no_blosc(_: &Vec<u8>) -> BloscOutcome {
    BloscOutcome { nbytes: 0, status: 0, data: Vec::new() }
}

fn put_str(out: &mut Vec<u8>, s: &str) {
    out.extend_from_slice(&(s.len() as u32).to_le_bytes());
    out.extend_from_slice(s.as_bytes());
}

fn put_flag(out: &mut Vec<u8>, half: bool) {
    out.extend_from_slice(&2u32.to_le_bytes());
    put_str(out, "is_saved_as_half_float");
    put_str(out, "bool");
    out.extend_from_slice(&1u32.to_le_bytes());
    out.push(half as u8);
    put_bbox_record(out);
}

fn put_bbox(out: &mut Vec<u8>) {
    out.extend_from_slice(&1u32.to_le_bytes());
    put_bbox_record(out);
}

fn put_bbox_record(out: &mut Vec<u8>) {
    put_str(out, "file_bbox_min");
    put_str(out, "vec3i");
    out.extend_from_slice(&12u32.to_le_bytes());
    for c in [-3i32, 4, 5] {
        out.extend_from_slice(&c.to_le_bytes());
    }
}

fn header(version: u32, grids: u32) -> Vec<u8> {
    let mut out = Vec::new();
    out.extend_from_slice(&[0x20, 0x56, 0x44, 0x42, 0, 0, 0, 0]);
    out.extend_from_slice(&version.to_le_bytes());
    out.extend_from_slice(&9u32.to_le_bytes());
    out.extend_from_slice(&1u32.to_le_bytes());
    out.push(1);
    if (220..222).contains(&version) {
        out.push(1);
    }
    out.extend_from_slice("0123456789abcdef0123456789abcdef0123".as_bytes());
    // Archive metadata: one record of each known type, and one unknown.
    out.extend_from_slice(&7u32.to_le_bytes());
    put_str(&mut out, "creator");
    put_str(&mut out, "string");
    out.extend_from_slice(&5u32.to_le_bytes());
    out.extend_from_slice(b"woxel");
    put_str(&mut out, "flag");
    put_str(&mut out, "bool");
    out.extend_from_slice(&1u32.to_le_bytes());
    out.push(2);
    put_str(&mut out, "small");
    put_str(&mut out, "int32");
    out.extend_from_slice(&4u32.to_le_bytes());
    out.extend_from_slice(&(-7i32).to_le_bytes());
    put_str(&mut out, "large");
    put_str(&mut out, "int64");
    out.extend_from_slice(&8u32.to_le_bytes());
    out.extend_from_slice(&(-5_000_000_000i64).to_le_bytes());
    put_str(&mut out, "ratio");
    put_str(&mut out, "float");
    out.extend_from_slice(&4u32.to_le_bytes());
    out.extend_from_slice(&1.5f32.to_le_bytes());
    put_str(&mut out, "corner");
    put_str(&mut out, "vec3i");
    out.extend_from_slice(&12u32.to_le_bytes());
    for c in [1i32, -2, 3] {
        out.extend_from_slice(&c.to_le_bytes());
    }
    put_str(&mut out, "blob");
    put_str(&mut out, "mystery");
    out.extend_from_slice(&3u32.to_le_bytes());
    out.extend_from_slice(&[9, 8, 7]);
    out.extend_from_slice(&grids.to_le_bytes());
    out
}

fn put_mask(out: &mut Vec<u8>, words: usize, bits: &[usize]) {
    let mut mask = vec![0u64; words];
    for b in bits {
        mask[b / 64] |= 1 << (b % 64);
    }
    for w in mask {
        out.extend_from_slice(&w.to_le_bytes());
    }
}

/// How the values of the one leaf are stored.
#[derive(Clone, Copy, PartialEq)]
enum Storage {
    Plain,
    ActiveOnly,
    Zip,
    Blosc,
    /// Two bytes a value, because the grid holds single-precision numbers
    /// and its metadata is silent.
    Half,
    /// Two bytes a value, because the metadata says so.
    HalfByFlag,
    /// Four bytes a value, because the metadata says that nothing is halved.
    FullByFlag,
}

fn put_buffer(out: &mut Vec<u8>, storage: Storage, values: &[u32]) {
    let mut raw = Vec::new();
    for v in values {
        if storage == Storage::Half || storage == Storage::HalfByFlag {
            raw.extend_from_slice(&(*v as u16).to_le_bytes());
        } else {
            raw.extend_from_slice(&v.to_le_bytes());
        }
    }
    match storage {
        Storage::Zip | Storage::Blosc => {
            out.extend_from_slice(&(-(raw.len() as i64)).to_le_bytes());
            out.extend_from_slice(&raw);
        }
        _ => out.extend_from_slice(&raw),
    }
}

fn compression_of(storage: Storage) -> u32 {
    match storage {
        Storage::Plain | Storage::Half | Storage::HalfByFlag | Storage::FullByFlag => 0,
        Storage::ActiveOnly => 2,
        Storage::Zip => 1,
        Storage::Blosc => 4,
    }
}

/// An archive with one grid: a root tile at (4096, 0, 0), and a level-5
/// block at the origin with one level-4 block at entry 1 whose entry 3 is a
/// leaf with the cells 0 and 5 active; cell `i` of the leaf holds `100 + i`.
fn archive(version: u32, storage: Storage) -> Vec<u8> {
    let mut out = header(version, 1);
    put_str(&mut out, "grid");
    put_str(
        &mut out,
        match storage {
            Storage::Half | Storage::FullByFlag => "Tree_float_5_4_3",
            Storage::HalfByFlag => "Tree_float_5_4_3_HalfFloat",
            _ => "Tree_int32_5_4_3",
        },
    );
    put_str(&mut out, "");
    let positions = out.len();
    out.extend_from_slice(&[0u8; 24]);
    if version >= 222 {
        out.extend_from_slice(&compression_of(storage).to_le_bytes());
    }
    match storage {
        Storage::HalfByFlag => put_flag(&mut out, true),
        Storage::FullByFlag => put_flag(&mut out, false),
        _ => put_bbox(&mut out),
    }
    let grid_pos = out.len() as u64;
    if version >= 222 {
        out.extend_from_slice(&compression_of(storage).to_le_bytes());
    }
    out.extend_from_slice(&0u32.to_le_bytes());
    put_str(&mut out, "UniformScaleMap");
    for i in 0..15 {
        out.extend_from_slice(&(i as f64).to_le_bytes());
    }
    out.extend_from_slice(&1u32.to_le_bytes());
    out.extend_from_slice(&5u32.to_le_bytes());
    out.extend_from_slice(&1u32.to_le_bytes());
    out.extend_from_slice(&1u32.to_le_bytes());
    for c in [4100i32, 7, 9] {
        out.extend_from_slice(&c.to_le_bytes());
    }
    out.extend_from_slice(&9u32.to_le_bytes());
    out.push(1);
    for c in [0i32, 0, 0] {
        out.extend_from_slice(&c.to_le_bytes());
    }
    let all = |n: usize| vec![0u32; n];
    put_mask(&mut out, 512, &[1]);
    put_mask(&mut out, 512, &[7]);
    if version >= 222 {
        out.push(if storage == Storage::ActiveOnly { 0 } else { 6 });
    }
    match storage {
        Storage::ActiveOnly => put_buffer(&mut out, storage, &all(1)),
        _ if version < 222 => put_buffer(&mut out, storage, &all(32767)),
        _ => put_buffer(&mut out, storage, &all(32768)),
    }
    put_mask(&mut out, 64, &[3]);
    put_mask(&mut out, 64, &[]);
    if version >= 222 {
        out.push(if storage == Storage::ActiveOnly { 0 } else { 6 });
    }
    match storage {
        Storage::ActiveOnly => put_buffer(&mut out, storage, &all(0)),
        _ if version < 222 => put_buffer(&mut out, storage, &all(4095)),
        _ => put_buffer(&mut out, storage, &all(4096)),
    }
    put_mask(&mut out, 8, &[0, 5]);
    let block_pos = out.len() as u64;
    put_mask(&mut out, 8, &[0, 5]);
    if version < 222 {
        out.extend_from_slice(&[0u8; 12]);
        out.push(1);
    }
    let values: Vec<u32> = (0..512).map(|i| 100 + i).collect();
    match storage {
        Storage::ActiveOnly => {
            out.push(5);
            out.extend_from_slice(&77u32.to_le_bytes());
            out.extend_from_slice(&88u32.to_le_bytes());
            put_mask(&mut out, 8, &[1, 5]);
            put_buffer(&mut out, storage, &[100, 105]);
        }
        Storage::Zip => {
            out.push(6);
            let mut raw = Vec::new();
            for v in &values {
                raw.extend_from_slice(&v.to_le_bytes());
            }
            let mut encoder =
                flate2::write::ZlibEncoder::new(Vec::new(), flate2::Compression::default());
            encoder.write_all(&raw).unwrap();
            let packed = encoder.finish().unwrap();
            assert_ne!(packed, raw);
            out.extend_from_slice(&(packed.len() as i64).to_le_bytes());
            out.extend_from_slice(&packed);
        }
        Storage::Blosc => {
            out.push(6);
            out.extend_from_slice(&3i64.to_le_bytes());
            out.extend_from_slice(&[1, 2, 3]);
        }
        _ => {
            if version >= 222 {
                out.push(6);
            }
            put_buffer(&mut out, storage, &values);
        }
    }
    let end_pos = out.len() as u64;
    out[positions..positions + 8].copy_from_slice(&grid_pos.to_le_bytes());
    out[positions + 8..positions + 16].copy_from_slice(&block_pos.to_le_bytes());
    out[positions + 16..positions + 24].copy_from_slice(&end_pos.to_le_bytes());
    out
}

fn check_tree(vdb: &VDB345<u32>) {
    assert_eq!(vdb.root.background, 5);
    assert_eq!(vdb.root.map.len(), 2);
    assert_eq!(vdb.root.map[0].0, g(0, 0, 0));
    assert_eq!(vdb.root.map[1].0, g(4096, 0, 0));
    assert!(matches!(vdb.root.map[0].1, RootData::Node(_)));
    assert!(matches!(vdb.root.map[1].1, RootData::Tile(9, true)));
    assert!(matches!(vdb.get_voxel(g(0, 0, 152)), VdbEndpoint::Leaf(100)));
    assert!(matches!(vdb.get_voxel(g(0, 0, 157)), VdbEndpoint::Leaf(105)));
    assert!(matches!(vdb.get_voxel(g(0, 0, 153)), VdbEndpoint::Offs(0)));
    assert!(matches!(vdb.get_voxel(g(0, 0, 128)), VdbEndpoint::Innr(0, 4)));
    assert!(matches!(vdb.get_voxel(g(0, 0, 0)), VdbEndpoint::Innr(0, 5)));
    assert!(matches!(vdb.get_voxel(g(0, 0, 256)), VdbEndpoint::Innr(0, 5)));
    assert!(matches!(vdb.get_voxel(g(5000, 1, 1)), VdbEndpoint::Root(9)));
    assert!(matches!(vdb.get_voxel(g(-1, 0, 0)), VdbEndpoint::Bkgr(5)));
    assert_eq!(vdb.count_nodes(), [1, 1, 1]);
    let RootData::Node(n5) = &vdb.root.map[0].1 else { panic!("no block") };
    assert_eq!(n5.child_mask[0], 2);
    assert_eq!(n5.value_mask[0], 1 << 7);
    assert_eq!(n5.origin, g(0, 0, 0));
    let InternalData::Node(n4) = &n5.data[1] else { panic!("no level-4 block") };
    assert_eq!(n4.origin, g(0, 0, 128));
    assert_eq!(n4.child_mask[0], 1 << 3);
    assert!(matches!(n5.data[0], InternalData::Tile(0)));
    assert_eq!(vdb.masks().4[0][0], 0b10_0001);
    assert_eq!(vdb.grid_descriptor.name, "grid");
    assert_eq!(vdb.grid_descriptor.bbox_min, g(-3, 4, 5));
}

#[test]
fn half_flag_decides_the_width_of_a_value() {
    let mut reader = VdbReader::new(archive(224, Storage::HalfByFlag)).unwrap();
    assert!(reader.grid_descriptors[0].meta_data.is_half_float());
    assert!(reads_half(&reader.grid_descriptors[0]));
    check_tree(&reader.read_vdb345_grid("grid", no_blosc).unwrap());
    let mut reader = VdbReader::new(archive(224, Storage::FullByFlag)).unwrap();
    assert!(!reader.grid_descriptors[0].meta_data.is_half_float());
    assert!(!reads_half(&reader.grid_descriptors[0]));
    check_tree(&reader.read_vdb345_grid("grid", no_blosc).unwrap());
    let reader = VdbReader::new(archive(224, Storage::Half)).unwrap();
    assert!(!reader.grid_descriptors[0].meta_data.is_half_float());
    assert!(reads_half(&reader.grid_descriptors[0]));
    let reader = VdbReader::new(archive(224, Storage::Plain)).unwrap();
    assert!(!reads_half(&reader.grid_descriptors[0]));
}

#[test]
fn reads_header_and_descriptors() {
    let reader = VdbReader::new(archive(224, Storage::Plain)).unwrap();
    assert_eq!(reader.header.file_version, 224);
    assert!(reader.header.file_version >= 218);
    assert_eq!((reader.header.library_major, reader.header.library_minor), (9, 1));
    assert!(reader.header.has_grid_offsets);
    assert_eq!(reader.header.uuid, "0123456789abcdef0123456789abcdef0123");
    assert_eq!(reader.header.compression, Compression { bits: 6 });
    assert_eq!(reader.header.grid_number, 1);
    assert_eq!(reader.grid_descriptors.len(), 1);
    let d = &reader.grid_descriptors[0];
    assert_eq!(d.name, "grid");
    assert_eq!(d.grid_type, "Tree_int32_5_4_3");
    assert_eq!(d.instance_parent, "");
    assert_eq!(d.compression, Compression { bits: 0 });
    assert_eq!(d.bbox_min, g(-3, 4, 5));
    assert_eq!(d.end_pos as usize, reader.reader.data.len());
    let meta = &reader.header.meta_data.0;
    assert_eq!(meta.len(), 7);
    assert_eq!(meta[0], ("creator".to_string(), MetadataValue::String("woxel".to_string())));
    assert_eq!(meta[1].1, MetadataValue::Bool(true));
    assert_eq!(meta[2].1, MetadataValue::I32(-7));
    assert_eq!(meta[3].1, MetadataValue::I64(-5_000_000_000));
    assert_eq!(meta[4].1, MetadataValue::Float(1.5f32.to_bits()));
    assert_eq!(meta[5].1, MetadataValue::Vec3i(g(1, -2, 3)));
    assert_eq!(
        meta[6].1,
        MetadataValue::Unknown { name: "mystery".to_string(), data: vec![9, 8, 7] }
    );
    assert!(!reader.header.meta_data.is_half_float());
}

#[test]
fn legacy_versions_choose_their_compression() {
    let reader = VdbReader::new(header(218, 0)).unwrap();
    assert_eq!(reader.header.compression, Compression { bits: 3 });
    let reader = VdbReader::new(header(220, 0)).unwrap();
    assert_eq!(reader.header.compression, Compression { bits: 1 });
    let reader = VdbReader::new(header(222, 0)).unwrap();
    assert_eq!(reader.header.compression, Compression { bits: 3 });
    let reader = VdbReader::new(header(223, 0)).unwrap();
    assert_eq!(reader.header.compression, Compression { bits: 6 });
    assert!(reader.grid_descriptors.is_empty());
}

#[test]
fn reads_plain_grid() {
    let mut reader = VdbReader::new(archive(224, Storage::Plain)).unwrap();
    let vdb = reader.read_vdb345_grid("grid", no_blosc).unwrap();
    check_tree(&vdb);
}

#[test]
fn reads_grid_of_an_archive_without_node_masks() {
    let mut reader = VdbReader::new(archive(219, Storage::Plain)).unwrap();
    assert_eq!(reader.grid_descriptors[0].compression, Compression { bits: 3 });
    reader.grid_descriptors[0].compression = Compression { bits: 0 };
    let vdb = reader.read_vdb345_grid("grid", no_blosc).unwrap();
    check_tree(&vdb);
}

#[test]
fn reads_grid_with_active_values_only() {
    let mut reader = VdbReader::new(archive(224, Storage::ActiveOnly)).unwrap();
    let vdb = reader.read_vdb345_grid("grid", no_blosc).unwrap();
    check_tree(&vdb);
}

#[test]
fn reads_zipped_grid() {
    let mut reader = VdbReader::new(archive(224, Storage::Zip)).unwrap();
    let vdb = reader.read_vdb345_grid("grid", no_blosc).unwrap();
    check_tree(&vdb);
}

#[test]
fn damaged_zip_stream_is_an_io_error() {
    let mut reader = VdbReader::new(archive(224, Storage::Zip)).unwrap();
    let stream = reader.grid_descriptors[0].block_pos as usize + 64 + 1 + 8;
    reader.reader.data[stream] = 0;
    reader.reader.data[stream + 1] = 0;
    assert_eq!(reader.read_vdb345_grid("grid", no_blosc).unwrap_err(), ErrorKind::IoError);
}

#[test]
fn reads_blosc_grid_through_the_decoder() {
    let mut reader = VdbReader::new(archive(224, Storage::Blosc)).unwrap();
    let decoder = |chunk: &Vec<u8>| {
        assert_eq!(chunk, &vec![1u8, 2, 3]);
        let mut data = Vec::new();
        for i in 0..512u32 {
            data.extend_from_slice(&(100 + i).to_le_bytes());
        }
        data.extend_from_slice(&[0xEE; 5]);
        BloscOutcome { nbytes: 2048, status: 2048, data }
    };
    let vdb = reader.read_vdb345_grid("grid", decoder).unwrap();
    check_tree(&vdb);
}

#[test]
fn blosc_outcomes_that_fail() {
    let mut reader = VdbReader::new(archive(224, Storage::Blosc)).unwrap();
    assert_eq!(
        reader.read_vdb345_grid("grid", no_blosc).unwrap_err(),
        ErrorKind::UnsupportedBloscFormat
    );
    let failing = |_: &Vec<u8>| BloscOutcome { nbytes: 2048, status: 0, data: vec![0; 2048] };
    assert_eq!(reader.read_vdb345_grid("grid", failing).unwrap_err(), ErrorKind::InvalidBloscData);
    let negative = |_: &Vec<u8>| BloscOutcome { nbytes: 2048, status: -1, data: vec![0; 2048] };
    assert_eq!(reader.read_vdb345_grid("grid", negative).unwrap_err(), ErrorKind::InvalidBloscData);
    let short = |_: &Vec<u8>| BloscOutcome { nbytes: 2048, status: 1, data: vec![0; 100] };
    assert_eq!(reader.read_vdb345_grid("grid", short).unwrap_err(), ErrorKind::InvalidBloscData);
    let few = |_: &Vec<u8>| BloscOutcome { nbytes: 1024, status: 1, data: vec![0; 1024] };
    assert_eq!(reader.read_vdb345_grid("grid", few).unwrap_err(), ErrorKind::UnexpectedValueCount);
}

#[test]
fn half_values_fill_the_low_half_of_a_cell() {
    let mut reader = VdbReader::new(archive(224, Storage::Half)).unwrap();
    let vdb = reader.read_vdb345_grid("grid", no_blosc).unwrap();
    check_tree(&vdb);
}

#[test]
fn repeated_reads_give_equal_outputs() {
    let mut reader = VdbReader::new(archive(224, Storage::Plain)).unwrap();
    let first = reader.read_vdb345_grid("grid", no_blosc).unwrap();
    for _ in 0..5 {
        let again = reader.read_vdb345_grid("grid", no_blosc).unwrap();
        assert_eq!(first, again);
        assert_eq!(first.atlas(), again.atlas());
        assert_eq!(first.masks(), again.masks());
        assert_eq!(first.origins(), again.origins());
        assert_eq!(first.root.background, again.root.background);
    }
    let atlas = first.atlas();
    assert_eq!((atlas[0].len(), atlas[1].len(), atlas[2].len()), (32, 16, 8));
    assert_eq!(atlas[2][0][0][0], 100);
    assert_eq!(atlas[2][0][0][5], 105);
    assert_eq!(atlas[2][0][0][1], 0);
}

#[test]
fn origins_of_level_4_blocks() {
    assert_eq!(origin_below(g(0, 0, 0), 0), g(0, 0, 0));
    assert_eq!(origin_below(g(5, 6, 7), 1), g(0, 0, 128));
    assert_eq!(origin_below(g(-5, 4100, 0), 32767), g(-128, 8064, 3968));
    assert_eq!(origin_below(g(i32::MAX, i32::MIN, 0), 32 * 32), g(i32::MAX - 4095 + 128, i32::MIN, 0));
}

#[test]
fn magic_mismatch() {
    let mut data = archive(224, Storage::Plain);
    assert_eq!(data[..8], [0x20, 0x56, 0x44, 0x42, 0, 0, 0, 0]);
    data[1] = 0x42;
    data[3] = 0x56;
    assert_eq!(VdbReader::new(data).err(), Some(ErrorKind::MagicMismatch));
    for k in 0..8 {
        let mut data = archive(224, Storage::Plain);
        data[k] ^= 1;
        assert_eq!(VdbReader::new(data).err(), Some(ErrorKind::MagicMismatch));
    }
    // Eight wrong bytes and nothing after them: the magic decides.
    let wrong = vec![0x20, 0x42, 0x44, 0x56, 0, 0, 0, 0];
    assert_eq!(VdbReader::new(wrong).err(), Some(ErrorKind::MagicMismatch));
    // The right magic and nothing after it: the version is missing.
    let right = vec![0x20, 0x56, 0x44, 0x42, 0, 0, 0, 0];
    assert_eq!(VdbReader::new(right).err(), Some(ErrorKind::IoError));
    // Fewer than eight bytes cannot be judged.
    assert_eq!(VdbReader::new(vec![0x20, 0x56, 0x44]).err(), Some(ErrorKind::IoError));
}

#[test]
fn unsupported_version() {
    assert_eq!(VdbReader::new(header(217, 0)).err(), Some(ErrorKind::UnsupportedVErsion(217)));
}

#[test]
fn truncated_archive_is_an_io_error() {
    assert_eq!(VdbReader::new(Vec::new()).err(), Some(ErrorKind::IoError));
    let data = archive(224, Storage::Plain);
    assert_eq!(VdbReader::new(data[..30].to_vec()).err(), Some(ErrorKind::IoError));
    let mut reader = VdbReader::new(data.clone()).unwrap();
    reader.reader.data.truncate(data.len() - 1);
    assert_eq!(reader.read_vdb345_grid("grid", no_blosc).unwrap_err(), ErrorKind::IoError);
}

#[test]
fn bad_utf8_in_a_string() {
    let mut data = header(224, 0);
    data[25] = 0xFF;
    assert_eq!(VdbReader::new(data).err(), Some(ErrorKind::Utf8Error));
}

#[test]
fn missing_grid_offsets() {
    let mut data = header(224, 0);
    data[20] = 0;
    assert_eq!(VdbReader::new(data).err(), Some(ErrorKind::GridOffsetsMissing));
}

#[test]
fn invalid_compression_word() {
    let mut data = header(224, 1);
    put_str(&mut data, "grid");
    put_str(&mut data, "Tree_int32_5_4_3");
    put_str(&mut data, "");
    data.extend_from_slice(&[0u8; 24]);
    data.extend_from_slice(&8u32.to_le_bytes());
    assert_eq!(VdbReader::new(data).err(), Some(ErrorKind::InvalidCompression(8)));
}

#[test]
fn missing_file_bbox_min() {
    let mut data = header(224, 1);
    put_str(&mut data, "grid");
    put_str(&mut data, "Tree_int32_5_4_3");
    put_str(&mut data, "");
    data.extend_from_slice(&[0u8; 24]);
    data.extend_from_slice(&0u32.to_le_bytes());
    data.extend_from_slice(&0u32.to_le_bytes());
    assert_eq!(VdbReader::new(data).err(), Some(ErrorKind::FileBboxMinNotFound));
}

#[test]
fn duplicate_grid_name() {
    let mut data = header(224, 2);
    for _ in 0..2 {
        put_str(&mut data, "grid");
        put_str(&mut data, "Tree_int32_5_4_3");
        put_str(&mut data, "");
        let positions = data.len();
        data.extend_from_slice(&[0u8; 24]);
        data.extend_from_slice(&0u32.to_le_bytes());
        put_bbox(&mut data);
        let end = data.len() as u64;
        data[positions + 16..positions + 24].copy_from_slice(&end.to_le_bytes());
    }
    assert_eq!(VdbReader::new(data).err(), Some(ErrorKind::DuplicateGrid));
}

#[test]
fn unknown_grid_name() {
    let mut reader = VdbReader::new(archive(224, Storage::Plain)).unwrap();
    reader.reader.seek(17);
    assert_eq!(
        reader.read_vdb345_grid("teapot", no_blosc).unwrap_err(),
        ErrorKind::InvalidGridName("teapot".to_string())
    );
    assert_eq!(reader.reader.pos, 17);
    assert_eq!(reader.grid_descriptors.len(), 1);
    assert_eq!(reader.header.grid_number, 1);
}

#[test]
fn invalid_node_metadata_byte() {
    let data = archive(224, Storage::Plain);
    let mut reader = VdbReader::new(data).unwrap();
    let n = reader.reader.data.len();
    reader.reader.data[n - 2049] = 7;
    assert_eq!(
        reader.read_vdb345_grid("grid", no_blosc).unwrap_err(),
        ErrorKind::InvalidNodeMetadata(7)
    );
}

#[test]
fn unsupported_buffer_count_and_transform() {
    let data = archive(224, Storage::Plain);
    let at = data.windows(15).position(|w| w == b"UniformScaleMap").unwrap();
    let mut reader = VdbReader::new(data.clone()).unwrap();
    reader.reader.data[at + 15 + 120] = 2;
    assert_eq!(
        reader.read_vdb345_grid("grid", no_blosc).unwrap_err(),
        ErrorKind::UnsupportedBufferCount(2)
    );
    let mut reader = VdbReader::new(data).unwrap();
    reader.reader.data[at] = b'X';
    assert_eq!(
        reader.read_vdb345_grid("grid", no_blosc).unwrap_err(),
        ErrorKind::UnsupportedTransform
    );
}

#[test]
fn transform_of_a_grid() {
    let mut reader = VdbReader::new(archive(224, Storage::Plain)).unwrap();
    let v = |i: u64| Vec3d {
        x: ((3 * i) as f64).to_bits(),
        y: ((3 * i + 1) as f64).to_bits(),
        z: ((3 * i + 2) as f64).to_bits(),
    };
    assert_eq!(
        reader.read_grid_transform("grid"),
        Ok(TransformMap::UniformScaleMap {
            scale_values: v(0),
            voxel_size: v(1),
            scale_values_inverse: v(2),
            inv_scale_sqr: v(3),
            inv_twice_scale: v(4),
        })
    );
    let at_tree = reader.reader.pos;
    assert_eq!(
        reader.read_grid_transform("teapot"),
        Err(ErrorKind::InvalidGridName("teapot".to_string()))
    );
    assert_eq!(reader.reader.pos, at_tree);
    // The tree follows the transform: its number of buffers is one.
    assert_eq!(reader.reader.read_u32(), Ok(1));
    check_tree(&reader.read_vdb345_grid("grid", no_blosc).unwrap());
}
