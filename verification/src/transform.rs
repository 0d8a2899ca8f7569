//! The transform of a grid: an affine map from index space to world
//! space, kept as the archive holds it.

use vstd::prelude::*;
use crate::codec::u64_at;
use crate::stream::{ByteReader, ErrorKind, can_read, len_string_at, read_len_string,
    no_name_error};

verus! {

/// Three double-precision numbers, each as its bit pattern.
#[derive(Clone, Copy, Debug, PartialEq, Eq, Structural)]
pub struct Vec3d {
    pub x: u64,
    pub y: u64,
    pub z: u64,
}

/// The affine map of a grid.
#[derive(Clone, Copy, Debug, PartialEq, Eq, Structural)]
pub enum TransformMap {
    UniformScaleMap {
        scale_values: Vec3d,
        voxel_size: Vec3d,
        scale_values_inverse: Vec3d,
        inv_scale_sqr: Vec3d,
        inv_twice_scale: Vec3d,
    },
    ScaleTranslateMap {
        translation: Vec3d,
        scale_values: Vec3d,
        voxel_size: Vec3d,
        scale_values_inverse: Vec3d,
        inv_scale_sqr: Vec3d,
        inv_twice_scale: Vec3d,
    },
}

/// The three 64-bit patterns that start at `at`.
pub open spec fn vec3d_at(data: Seq<u8>, at: int) -> Vec3d {
    Vec3d { x: u64_at(data, at), y: u64_at(data, at + 8), z: u64_at(data, at + 16) }
}

/// The transform at `pos` and the position after it: the name of its
/// family, then five vectors, after a translation where the family has one.
pub open spec fn transform_at(data: Seq<u8>, pos: int) -> Result<(TransformMap, int), ErrorKind> {
    match len_string_at(data, pos) {
        Err(e) => Err(e),
        Ok((name, p)) => if name == "UniformScaleMap"@ {
            if !can_read(data, p, 120) {
                Err(ErrorKind::IoError)
            } else {
                Ok(
                    (
                        TransformMap::UniformScaleMap {
                            scale_values: vec3d_at(data, p),
                            voxel_size: vec3d_at(data, p + 24),
                            scale_values_inverse: vec3d_at(data, p + 48),
                            inv_scale_sqr: vec3d_at(data, p + 72),
                            inv_twice_scale: vec3d_at(data, p + 96),
                        },
                        p + 120,
                    ),
                )
            }
        } else if name == "UniformScaleTranslateMap"@ || name == "ScaleTranslateMap"@ {
            if !can_read(data, p, 144) {
                Err(ErrorKind::IoError)
            } else {
                Ok(
                    (
                        TransformMap::ScaleTranslateMap {
                            translation: vec3d_at(data, p),
                            scale_values: vec3d_at(data, p + 24),
                            voxel_size: vec3d_at(data, p + 48),
                            scale_values_inverse: vec3d_at(data, p + 72),
                            inv_scale_sqr: vec3d_at(data, p + 96),
                            inv_twice_scale: vec3d_at(data, p + 120),
                        },
                        p + 144,
                    ),
                )
            }
        } else {
            Err(ErrorKind::UnsupportedTransform)
        },
    }
}

/// Reads three 64-bit patterns. On failure the position stays.
pub fn read_vec3d(reader: &mut ByteReader) -> (r: Result<Vec3d, ErrorKind>)
    requires
        old(reader).wf(),
    ensures
        no_name_error(r),
        final(reader).wf(),
        final(reader).data@ == old(reader).data@,
        match r {
            Ok(v) => can_read(old(reader).data@, old(reader).pos as int, 24) && v == vec3d_at(
                old(reader).data@,
                old(reader).pos as int,
            ) && final(reader).pos == old(reader).pos + 24,
            Err(e) => !can_read(old(reader).data@, old(reader).pos as int, 24) && e
                == ErrorKind::IoError && final(reader).pos == old(reader).pos,
        },
{
    if 24 > reader.data.len() - reader.pos {
        return Err(ErrorKind::IoError);
    }
    let x: u64 = match reader.read_u64() {
        Ok(v) => v,
        Err(e) => {
            return Err(e);
        },
    };
    let y: u64 = match reader.read_u64() {
        Ok(v) => v,
        Err(e) => {
            return Err(e);
        },
    };
    let z: u64 = match reader.read_u64() {
        Ok(v) => v,
        Err(e) => {
            return Err(e);
        },
    };
    Ok(Vec3d { x, y, z })
}

/// Reads `n` vectors.
fn read_vectors(reader: &mut ByteReader, n: usize) -> (r: Result<Vec<Vec3d>, ErrorKind>)
    requires
        old(reader).wf(),
        n <= 6,
    ensures
        no_name_error(r),
        final(reader).wf(),
        final(reader).data@ == old(reader).data@,
        match r {
            Ok(v) => can_read(old(reader).data@, old(reader).pos as int, 24 * n) && v@.len() == n
                && final(reader).pos == old(reader).pos + 24 * n && forall|k: int|
                0 <= k < n ==> #[trigger] v@[k] == vec3d_at(old(reader).data@, old(reader).pos + 24 * k),
            Err(e) => !can_read(old(reader).data@, old(reader).pos as int, 24 * n) && e
                == ErrorKind::IoError,
        },
{
    let mut out: Vec<Vec3d> = Vec::new();
    let mut i: usize = 0;
    while i < n
        invariant
            i <= n <= 6,
            reader.wf(),
            reader.data@ == old(reader).data@,
            reader.pos == old(reader).pos + 24 * i,
            out@.len() == i,
            forall|k: int|
                0 <= k < i ==> #[trigger] out@[k] == vec3d_at(old(reader).data@, old(reader).pos + 24 * k),
        decreases n - i,
    {
        match read_vec3d(reader) {
            Ok(v) => {
                out.push(v);
            },
            Err(e) => {
                return Err(e);
            },
        }
        i = i + 1;
    }
    Ok(out)
}

/// Reads the transform of a grid.
pub fn read_transform(reader: &mut ByteReader) -> (r: Result<TransformMap, ErrorKind>)
    requires
        old(reader).wf(),
    ensures
        no_name_error(r),
        final(reader).wf(),
        final(reader).data@ == old(reader).data@,
        match r {
            Ok(t) => transform_at(old(reader).data@, old(reader).pos as int) == Ok::<
                (TransformMap, int),
                ErrorKind,
            >((t, final(reader).pos as int)),
            Err(e) => transform_at(old(reader).data@, old(reader).pos as int) == Err::<
                (TransformMap, int),
                ErrorKind,
            >(e),
        },
{
    let transform_name = match read_len_string(reader) {
        Ok(v) => v,
        Err(e) => {
            return Err(e);
        },
    };
    if transform_name == "UniformScaleMap".to_owned() {
        let v = match read_vectors(reader, 5) {
            Ok(v) => v,
            Err(e) => {
                return Err(e);
            },
        };
        Ok(
            TransformMap::UniformScaleMap {
                scale_values: v[0],
                voxel_size: v[1],
                scale_values_inverse: v[2],
                inv_scale_sqr: v[3],
                inv_twice_scale: v[4],
            },
        )
    } else if transform_name == "UniformScaleTranslateMap".to_owned() || transform_name
        == "ScaleTranslateMap".to_owned() {
        let v = match read_vectors(reader, 6) {
            Ok(v) => v,
            Err(e) => {
                return Err(e);
            },
        };
        Ok(
            TransformMap::ScaleTranslateMap {
                translation: v[0],
                scale_values: v[1],
                voxel_size: v[2],
                scale_values_inverse: v[3],
                inv_scale_sqr: v[4],
                inv_twice_scale: v[5],
            },
        )
    } else {
        Err(ErrorKind::UnsupportedTransform)
    }
}

} // verus!
