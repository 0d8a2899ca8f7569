//! A sparse 5-4-3 VDB voxel tree with point access, a packer that lays the
//! tree out as dense node atlases, and a reader for the OpenVDB container.

pub mod archive;
pub mod atlas;
pub mod bits;
pub mod buffer;
pub mod codec;
pub mod coords;
pub mod descriptor;
pub mod gpu;
pub mod grid;
pub mod metadata;
pub mod node;
pub mod point;
pub mod same;
pub mod stream;
pub mod transform;
pub mod tree;
pub mod value;
