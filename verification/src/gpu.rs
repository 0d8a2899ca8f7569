//! What a renderer needs to know of a grid before it binds anything: the
//! sizes of the atlas textures, the masks and origins as they are laid out
//! in buffers, and the names of the render modes.

use vstd::prelude::*;
use crate::atlas::{masks_are, child_masks, value_masks, leaf_masks, tree_n3, tree_n4, tree_n5};
use crate::coords::GlobalCoordinates;
use crate::tree::{N5, VDB};

verus! {

/// The sizes in cells of the three atlas textures.
#[derive(Clone, Copy, Debug)]
pub struct NodeAtlas {
    pub size5: [u32; 3],
    pub size4: [u32; 3],
    pub size3: [u32; 3],
}

impl NodeAtlas {
    /// The sizes of the atlases of the level-5 blocks, the level-4 blocks
    /// and the leaves.
    pub fn new(size5: [u32; 3], size4: [u32; 3], size3: [u32; 3]) -> (r: Self)
        ensures
            r.size5 == size5,
            r.size4 == size4,
            r.size3 == size3,
    {
        Self { size5, size4, size3 }
    }
}

/// The size in pixels of the texture that the ray caster writes.
#[derive(Clone, Copy, Debug)]
pub struct ComputeOutputTexture {
    pub size: [u32; 2],
}

impl ComputeOutputTexture {
    /// A texture of `size` pixels: width, then height.
    pub fn new(size: [u32; 2]) -> (r: Self)
        ensures
            r.size == size,
    {
        Self { size }
    }
}

/// The size in pixels of the texture that the canvas samples.
#[derive(Clone, Copy, Debug)]
pub struct FragmentTexture {
    pub size: [u32; 2],
}

impl FragmentTexture {
    /// A texture of `size` pixels: width, then height.
    pub fn new(size: [u32; 2]) -> (r: Self)
        ensures
            r.size == size,
    {
        Self { size }
    }
}

/// A shader by its name and its source text.
pub struct Shader {
    pub name: &'static str,
    pub source: String,
}

impl Shader {
    /// The shader named `name` with the source text `source`.
    pub fn new(name: &'static str, source: String) -> (r: Self)
        ensures
            r.name@ == name@,
            r.source@ == source@,
    {
        Shader { name, source }
    }
}

/// The quad that the canvas is drawn on.
#[derive(Clone, Copy, Debug)]
pub struct GpuQuad;

impl GpuQuad {
    /// The corners of the quad's two triangles.
    pub fn indexes() -> (r: [u16; 6])
        ensures
            r@ == seq![0u16, 1u16, 2u16, 0u16, 2u16, 3u16],
    {
        let r: [u16; 6] = [0, 1, 2, 0, 2, 3];
        assert(r@ =~= seq![0u16, 1u16, 2u16, 0u16, 2u16, 3u16]);
        r
    }
}

/// The pipeline that draws the canvas.
pub struct VoxelPipeline;

/// The pipeline that casts the rays.
pub struct ComputePipeline;

/// How a frame is shaded.
#[derive(PartialEq, Eq, Structural, Clone, Copy, Debug)]
pub enum RenderMode {
    Gray,
    Rgb,
    Ray,
    Diffuse,
}

impl RenderMode {
    /// The name of the mode as it is shown.
    pub fn text(&self) -> (r: String)
        ensures
            r@ == match *self {
                RenderMode::Gray => "Gray"@,
                RenderMode::Rgb => "Rgb"@,
                RenderMode::Ray => "Ray"@,
                RenderMode::Diffuse => "Diffuse"@,
            },
    {
        match self {
            RenderMode::Gray => "Gray".to_owned(),
            RenderMode::Rgb => "Rgb".to_owned(),
            RenderMode::Ray => "Ray".to_owned(),
            RenderMode::Diffuse => "Diffuse".to_owned(),
        }
    }
}

/// An archive that can be chosen: its name, its path and the grid to load.
#[derive(Debug, Clone)]
pub struct VdbFile {
    pub name: String,
    pub path: String,
    pub grid: String,
}

/// The masks of a grid and the origins of its level-5 blocks, as they are
/// laid out in buffers.
#[derive(Debug, Clone)]
pub struct MaskUniform {
    pub kids5: Vec<Vec<u32>>,
    pub vals5: Vec<Vec<u32>>,
    pub kids4: Vec<Vec<u32>>,
    pub vals4: Vec<Vec<u32>>,
    pub vals3: Vec<Vec<u32>>,
    pub origins: Vec<[i32; 4]>,
}

impl MaskUniform {
    /// The masks of the grid in traversal order, and the origins of its
    /// level-5 blocks, each padded with a zero to four numbers.
    pub fn from<V: Copy>(vdb: &VDB<V, N5<V>>) -> (r: Self)
        ensures
            masks_are(r.kids5@, child_masks(tree_n5(vdb.root))),
            masks_are(r.vals5@, value_masks(tree_n5(vdb.root))),
            masks_are(r.kids4@, child_masks(tree_n4(vdb.root))),
            masks_are(r.vals4@, value_masks(tree_n4(vdb.root))),
            masks_are(r.vals3@, leaf_masks(tree_n3(vdb.root))),
            r.origins@.len() == vdb.spec_origins().len(),
            forall|k: int|
                0 <= k < r.origins@.len() ==> (#[trigger] r.origins@[k])@ == seq![
                    vdb.spec_origins()[k].x,
                    vdb.spec_origins()[k].y,
                    vdb.spec_origins()[k].z,
                    0i32,
                ],
    {
        let (kids5, vals5, kids4, vals4, vals3) = vdb.masks();
        let keys: Vec<GlobalCoordinates> = vdb.origins();
        let mut origins: Vec<[i32; 4]> = Vec::new();
        let mut i: usize = 0;
        while i < keys.len()
            invariant
                i <= keys.len(),
                origins@.len() == i,
                forall|k: int|
                    0 <= k < i ==> (#[trigger] origins@[k])@ == seq![
                        keys@[k].x,
                        keys@[k].y,
                        keys@[k].z,
                        0i32,
                    ],
            decreases keys.len() - i,
        {
            let key = keys[i];
            let padded: [i32; 4] = [key.x, key.y, key.z, 0];
            assert(padded@ =~= seq![key.x, key.y, key.z, 0i32]);
            origins.push(padded);
            i = i + 1;
        }
        MaskUniform { kids5, vals5, kids4, vals4, vals3, origins }
    }
}

} // verus!
