use woxel::bits::{clear_bit, count_ones_of, empty_mask, set_bit, test_bit};
use woxel::buffer::{
    blosc_values, expand_values, value_count, values_from_bytes, BloscOutcome, NodeMetaData,
};
use woxel::coords::GlobalCoordinates;
use woxel::descriptor::{
    Compression, Metadata, MetadataValue, COMPRESS_ACTIVE_MASK, COMPRESS_BLOSC, COMPRESS_ZIP,
};
use woxel::gpu::{
    ComputeOutputTexture, FragmentTexture, GpuQuad, NodeAtlas, RenderMode, Shader, VdbFile,
};
use woxel::node::{InternalData, InternalNode, LeafData, LeafNode};
use woxel::stream::{read_len_string, read_string, read_vec3i, ByteReader, ErrorKind};
use woxel::transform::{read_transform, TransformMap, Vec3d};
use woxel::value::{le_bytes_of, word_to_value, CopyBytesToU32, From4LeBytes};

#[test]
fn bits_are_counted_from_the_low_end() {
    let mut mask = empty_mask(2);
    assert_eq!(mask, vec![0, 0]);
    set_bit(&mut mask, 0);
    set_bit(&mut mask, 63);
    set_bit(&mut mask, 64);
    set_bit(&mut mask, 64);
    assert_eq!(mask, vec![(1 << 63) | 1, 1]);
    assert!(test_bit(&mask, 63) && test_bit(&mask, 64) && !test_bit(&mask, 65));
    assert_eq!(count_ones_of(&mask, 128), 3);
    assert_eq!(count_ones_of(&mask, 64), 2);
    assert_eq!(count_ones_of(&mask, 63), 1);
    assert_eq!(count_ones_of(&mask, 0), 0);
    clear_bit(&mut mask, 63);
    clear_bit(&mut mask, 5);
    assert_eq!(mask, vec![1, 1]);
}

#[test]
fn node_meta_data_tags() {
    assert_eq!(NodeMetaData::try_from(0), Ok(NodeMetaData::NoMaskOrInactiveVals));
    assert_eq!(NodeMetaData::try_from(1), Ok(NodeMetaData::NoMaskAndMinusBg));
    assert_eq!(NodeMetaData::try_from(2), Ok(NodeMetaData::NoMaskAndOneInactiveVal));
    assert_eq!(NodeMetaData::try_from(3), Ok(NodeMetaData::MaskAndNoInactiveVals));
    assert_eq!(NodeMetaData::try_from(4), Ok(NodeMetaData::MaskAndOneInactiveVal));
    assert_eq!(NodeMetaData::try_from(5), Ok(NodeMetaData::MaskAndTwoInactiveVals));
    assert_eq!(NodeMetaData::try_from(6), Ok(NodeMetaData::NoMaskAndAllVals));
    assert_eq!(NodeMetaData::try_from(7), Err(ErrorKind::InvalidNodeMetadata(7)));
    assert_eq!(NodeMetaData::try_from(255), Err(ErrorKind::InvalidNodeMetadata(255)));
    let counts: Vec<usize> =
        (0..7).map(|t| NodeMetaData::try_from(t).unwrap().inactive_values()).collect();
    assert_eq!(counts, vec![0, 0, 1, 0, 1, 2, 0]);
    let masks: Vec<bool> = (0..7).map(|t| NodeMetaData::try_from(t).unwrap().has_mask()).collect();
    assert_eq!(masks, vec![false, false, false, true, true, true, false]);
}

#[test]
fn compression_flags() {
    assert_eq!((COMPRESS_ZIP, COMPRESS_ACTIVE_MASK, COMPRESS_BLOSC), (1, 2, 4));
    assert_eq!(Compression::from_bits(0), Some(Compression::none()));
    assert_eq!(Compression::from_bits(7).map(|c| c.bits()), Some(7));
    assert_eq!(Compression::from_bits(8), None);
    assert_eq!(Compression::from_bits(0x8000_0001), None);
    let default = Compression::default_compression();
    assert_eq!(default.bits(), 6);
    assert!(default.contains(COMPRESS_BLOSC) && default.contains(COMPRESS_ACTIVE_MASK));
    assert!(!default.contains(COMPRESS_ZIP));
    assert!(!default.contains(COMPRESS_ZIP | COMPRESS_BLOSC));
    assert!(Compression::none().contains(0));
}

#[test]
fn value_count_follows_the_active_mask() {
    let mask = vec![0b1011u64, 0, 0, 0, 0, 0, 0, 1];
    assert_eq!(value_count(true, NodeMetaData::NoMaskOrInactiveVals, true, &mask, 512), 4);
    assert_eq!(value_count(true, NodeMetaData::NoMaskAndAllVals, true, &mask, 512), 512);
    assert_eq!(value_count(false, NodeMetaData::NoMaskOrInactiveVals, true, &mask, 512), 512);
    assert_eq!(value_count(true, NodeMetaData::NoMaskOrInactiveVals, false, &mask, 512), 512);
    assert_eq!(value_count(true, NodeMetaData::MaskAndTwoInactiveVals, true, &mask, 64), 3);
}

#[test]
fn values_are_cut_from_bytes() {
    let bytes = vec![1, 2, 3, 4, 5, 6, 7, 8, 9];
    assert_eq!(values_from_bytes(&bytes, 4), vec![0x0403_0201, 0x0807_0605]);
    assert_eq!(values_from_bytes(&bytes, 2), vec![0x0201, 0x0403, 0x0605, 0x0807]);
    assert!(values_from_bytes(&vec![1, 2, 3], 4).is_empty());
}

#[test]
fn blosc_outcomes() {
    let ok = BloscOutcome { nbytes: 8, status: 8, data: vec![1, 0, 0, 0, 2, 0, 0, 0, 9, 9] };
    assert_eq!(blosc_values(ok.clone(), 4), Ok(vec![1, 2]));
    assert_eq!(blosc_values(ok, 2), Ok(vec![1, 0, 2, 0]));
    let odd = BloscOutcome { nbytes: 7, status: 1, data: vec![1, 0, 0, 0, 2, 0, 0] };
    assert_eq!(blosc_values(odd, 4), Ok(vec![1]));
    let none = BloscOutcome { nbytes: 0, status: 5, data: vec![1, 2, 3, 4] };
    assert_eq!(blosc_values(none, 4), Err(ErrorKind::UnsupportedBloscFormat));
    let failed = BloscOutcome { nbytes: 4, status: 0, data: vec![1, 2, 3, 4] };
    assert_eq!(blosc_values(failed, 4), Err(ErrorKind::InvalidBloscData));
    let short = BloscOutcome { nbytes: 4, status: 4, data: vec![1, 2, 3] };
    assert_eq!(blosc_values(short, 4), Err(ErrorKind::InvalidBloscData));
}

#[test]
fn active_values_are_spread_over_the_cells() {
    let value_mask = vec![0b0110_0101u64];
    let selection = vec![0b1000_1010u64];
    let out = expand_values(true, vec![10, 11, 12, 13], 8, &value_mask, &selection, 7, 9).unwrap();
    assert_eq!(out, vec![10, 9, 11, 9, 7, 12, 13, 9]);
    // One value for each cell: nothing to spread.
    let full: Vec<u32> = (0..8).collect();
    assert_eq!(expand_values(true, full.clone(), 8, &value_mask, &selection, 7, 9), Ok(full));
    // Without the active-mask flag the values stay as they are.
    assert_eq!(expand_values(false, vec![1, 2], 8, &value_mask, &selection, 7, 9), Ok(vec![1, 2]));
    // More stored values than active cells: the surplus is left out.
    assert_eq!(
        expand_values(true, vec![1, 2, 3, 4, 5], 8, &value_mask, &selection, 0, 0),
        Ok(vec![1, 0, 2, 0, 0, 3, 4, 0])
    );
    assert_eq!(
        expand_values(true, vec![1, 2, 3], 8, &value_mask, &selection, 0, 0),
        Err(ErrorKind::UnexpectedValueCount)
    );
}

#[test]
fn values_from_and_to_words() {
    assert_eq!(le_bytes_of(0x1122_3344), [0x44, 0x33, 0x22, 0x11]);
    assert_eq!(u8::from_4_le_bytes([0x44, 0x33, 0x22, 0x11]), 0x44);
    assert_eq!(u16::from_4_le_bytes([0x44, 0x33, 0x22, 0x11]), 0x3344);
    assert_eq!(u32::from_4_le_bytes([0x44, 0x33, 0x22, 0x11]), 0x1122_3344);
    assert_eq!(word_to_value::<u8>(0x1FF), 0xFF);
    assert_eq!(word_to_value::<u16>(0x1_FFFE), 0xFFFE);
    assert_eq!(word_to_value::<u32>(u32::MAX), u32::MAX);
    assert_eq!(0xABu8.copy_bytes_to_u32(), 0xAB);
    assert_eq!(0xABCDu16.copy_bytes_to_u32(), 0xABCD);
    assert_eq!(0xDEAD_BEEFu32.copy_bytes_to_u32(), 0xDEAD_BEEF);
    assert_eq!(word_to_value::<u16>(0x1_2345).copy_bytes_to_u32(), 0x2345);
}

#[test]
fn nodes_from_their_masks() {
    let leaf = LeafNode::<u8, 3>::new_from_header(vec![5, 0, 0, 0, 0, 0, 0, 9]).unwrap();
    assert_eq!(leaf.value_mask, vec![5, 0, 0, 0, 0, 0, 0, 9]);
    assert_eq!(leaf.flags, 0);
    assert_eq!(leaf.data.len(), 512);
    assert!(leaf.data.iter().all(|c| matches!(c, LeafData::Tile(0))));
    assert_eq!(
        LeafNode::<u8, 3>::new_from_header(vec![0; 7]).err(),
        Some(ErrorKind::UnexpectedMaskLength)
    );
    let origin = GlobalCoordinates { x: 128, y: 0, z: -128 };
    let node =
        InternalNode::<LeafNode<u8, 3>, 4>::new_from_header(vec![1; 64], vec![2; 64], origin)
            .unwrap();
    assert_eq!((node.child_mask[63], node.value_mask[0], node.origin), (1, 2, origin));
    assert_eq!(node.data.len(), 4096);
    assert!(node.data.iter().all(|e| matches!(e, InternalData::Tile(0))));
    assert_eq!(
        InternalNode::<LeafNode<u8, 3>, 4>::new_from_header(vec![0; 64], vec![0; 65], origin).err(),
        Some(ErrorKind::UnexpectedMaskLength)
    );
    assert_eq!(
        InternalNode::<LeafNode<u8, 3>, 4>::new_from_header(vec![0; 512], vec![0; 64], origin).err(),
        Some(ErrorKind::UnexpectedMaskLength)
    );
}

#[test]
fn leaf_set_value_marks_the_cell() {
    let mut leaf = LeafNode::<u16, 3>::new();
    leaf.set_value(70, 1234);
    assert!(matches!(leaf.data[70], LeafData::Value(1234)));
    assert!(matches!(leaf.data[71], LeafData::Tile(0)));
    assert_eq!(leaf.value_mask, vec![0, 1 << 6, 0, 0, 0, 0, 0, 0]);
}

#[test]
fn cursor_reads_and_seeks() {
    let mut data = vec![0x34, 0x12, 0x78, 0x56, 0x34, 0x12];
    data.extend_from_slice(&(-2i64).to_le_bytes());
    data.extend_from_slice(&3u32.to_le_bytes());
    data.extend_from_slice(b"abc");
    let mut reader = ByteReader::new(data);
    assert_eq!(reader.read_u16(), Ok(0x1234));
    assert_eq!(reader.read_u32(), Ok(0x1234_5678));
    assert_eq!(reader.read_i64(), Ok(-2));
    assert_eq!(read_len_string(&mut reader), Ok("abc".to_string()));
    assert_eq!(reader.pos, 21);
    assert_eq!(reader.read_u8(), Err(ErrorKind::IoError));
    assert_eq!(reader.pos, 21);
    reader.seek(2);
    assert_eq!(reader.read_u64(), Ok(0xFFFF_FFFE_1234_5678));
    reader.seek(18);
    assert_eq!(read_string(&mut reader, 2), Ok("ab".to_string()));
    assert_eq!(reader.read_bytes(1), Ok(vec![b'c']));
    assert_eq!(reader.read_bytes(0), Ok(vec![]));
    assert_eq!(reader.read_bytes(1), Err(ErrorKind::IoError));
    reader.seek(1 << 40);
    assert_eq!(reader.pos, 21);
    reader.seek(10);
    assert_eq!(read_vec3i(&mut reader), Err(ErrorKind::IoError));
    assert_eq!(reader.pos, 10);
    reader.seek(19);
    assert_eq!(read_string(&mut reader, 3), Err(ErrorKind::IoError));
    assert_eq!(reader.pos, 19);
    reader.seek(6);
    assert_eq!(read_string(&mut reader, 2), Err(ErrorKind::Utf8Error));
    assert_eq!(reader.pos, 8);
    reader.seek(20);
    assert_eq!(read_len_string(&mut reader), Err(ErrorKind::IoError));
    assert_eq!(reader.pos, 20);
    reader.seek(14);
    assert_eq!(read_len_string(&mut reader), Ok("abc".to_string()));
    reader.seek(2);
    assert_eq!(read_len_string(&mut reader), Err(ErrorKind::IoError));
    assert_eq!(reader.pos, 6);
    reader.seek(2);
    assert_eq!(
        read_vec3i(&mut reader),
        Ok(GlobalCoordinates { x: 0x1234_5678, y: -2, z: -1 })
    );
    assert_eq!(reader.read_i32(), Ok(3));
}

#[test]
fn transform_families() {
    let build = |name: &str, n: u64| {
        let mut data = Vec::new();
        data.extend_from_slice(&(name.len() as u32).to_le_bytes());
        data.extend_from_slice(name.as_bytes());
        for i in 0..3 * n {
            data.extend_from_slice(&(100 + i).to_le_bytes());
        }
        ByteReader::new(data)
    };
    let v = |i: u64| Vec3d { x: 100 + 3 * i, y: 101 + 3 * i, z: 102 + 3 * i };
    let mut reader = build("UniformScaleMap", 5);
    assert_eq!(
        read_transform(&mut reader),
        Ok(TransformMap::UniformScaleMap {
            scale_values: v(0),
            voxel_size: v(1),
            scale_values_inverse: v(2),
            inv_scale_sqr: v(3),
            inv_twice_scale: v(4),
        })
    );
    assert_eq!(reader.pos, reader.data.len());
    for name in ["UniformScaleTranslateMap", "ScaleTranslateMap"] {
        let mut reader = build(name, 6);
        assert_eq!(
            read_transform(&mut reader),
            Ok(TransformMap::ScaleTranslateMap {
                translation: v(0),
                scale_values: v(1),
                voxel_size: v(2),
                scale_values_inverse: v(3),
                inv_scale_sqr: v(4),
                inv_twice_scale: v(5),
            })
        );
    }
    assert_eq!(read_transform(&mut build("AffineMap", 6)), Err(ErrorKind::UnsupportedTransform));
    assert_eq!(read_transform(&mut build("ScaleTranslateMap", 5)), Err(ErrorKind::IoError));
}

#[test]
fn later_metadata_record_counts() {
    let flag = "is_saved_as_half_float".to_string();
    let mut meta = Metadata(vec![(flag.clone(), MetadataValue::Bool(true))]);
    assert!(meta.is_half_float());
    assert_eq!(meta.find(&flag), Some(0));
    meta.0.push(("other".to_string(), MetadataValue::I32(1)));
    meta.0.push((flag.clone(), MetadataValue::Bool(false)));
    assert!(!meta.is_half_float());
    assert_eq!(meta.find(&flag), Some(2));
    assert_eq!(meta.find(&"missing".to_string()), None);
    let wrong = Metadata(vec![(flag, MetadataValue::I32(1))]);
    assert!(!wrong.is_half_float());
}

#[test]
fn renderer_descriptors() {
    let atlas = NodeAtlas::new([64, 64, 64], [32, 32, 32], [16, 16, 16]);
    assert_eq!((atlas.size5, atlas.size4, atlas.size3), ([64; 3], [32; 3], [16; 3]));
    assert_eq!(ComputeOutputTexture::new([1600, 900]).size, [1600, 900]);
    assert_eq!(FragmentTexture::new([800, 600]).size, [800, 600]);
    let shader = Shader::new("raycast.comp", "fn cp_main() {}".to_string());
    assert_eq!((shader.name, shader.source.as_str()), ("raycast.comp", "fn cp_main() {}"));
    assert_eq!(GpuQuad::indexes(), [0, 1, 2, 0, 2, 3]);
    let names: Vec<String> =
        [RenderMode::Gray, RenderMode::Rgb, RenderMode::Ray, RenderMode::Diffuse]
            .iter()
            .map(|m| m.text())
            .collect();
    assert_eq!(names, vec!["Gray", "Rgb", "Ray", "Diffuse"]);
    let file = VdbFile {
        name: "utahteapot".to_string(),
        path: "assets/utahteapot.vdb".to_string(),
        grid: "ls_utahteapot".to_string(),
    };
    assert_eq!(file.clone().grid, "ls_".to_string() + &file.name);
}
