//! The 5-4-3 tree: a root that maps block origins to level-5 blocks or
//! tiles, and point access to single voxels.

use vstd::prelude::*;
use crate::coords::{GlobalCoordinates, spec_global_to_node, spec_global_to_offset};
use crate::descriptor::GridDescriptor;
use crate::node::{InternalNode, LeafNode, Node};

verus! {

/// A leaf: 8 cells a side.
pub type N3<ValueType> = LeafNode<ValueType, 3>;

/// A level-4 block: 16 leaves a side.
pub type N4<ValueType> = InternalNode<N3<ValueType>, 4>;

/// A level-5 block: 32 level-4 blocks a side.
pub type N5<ValueType> = InternalNode<N4<ValueType>, 5>;

/// The root of a 5-4-3 tree.
pub type Root345<ValueType> = RootNode<ValueType, N5<ValueType>>;

/// A grid with a 5-4-3 tree.
pub type VDB345<ValueType> = VDB<ValueType, N5<ValueType>>;

/// An entry of the root: a level-5 block, or a tile with its value and
/// whether it is active.
#[derive(Debug, Clone, PartialEq)]
pub enum RootData<ChildType> {
    Node(Box<ChildType>),
    Tile(u32, bool),
}

/// The root: its entries by block origin, in ascending order of origin, and
/// the value of every voxel that no entry covers.
#[derive(Debug, Clone, PartialEq)]
pub struct RootNode<ValueType, ChildType> {
    pub map: Vec<(GlobalCoordinates, RootData<ChildType>)>,
    pub background: ValueType,
}

/// A grid: the tree and what the archive says of it.
#[derive(Debug, Clone, PartialEq)]
pub struct VDB<ValueType, ChildType> {
    pub root: RootNode<ValueType, ChildType>,
    pub grid_descriptor: GridDescriptor,
}

/// What a point lookup ends on.
#[derive(Debug, Clone, PartialEq)]
pub enum VdbEndpoint<ValueType> {
    /// A leaf cell without a value, with its marker.
    Offs(usize),
    /// A leaf cell with its value.
    Leaf(ValueType),
    /// A tile of an inner node, with the level of that node.
    Innr(u32, u8),
    /// A tile of the root.
    Root(u32),
    /// No entry of the root covers the point.
    Bkgr(ValueType),
}

/// The order of root keys: by x, then y, then z.
pub open spec fn key_lt(a: GlobalCoordinates, b: GlobalCoordinates) -> bool {
    a.x < b.x || (a.x == b.x && (a.y < b.y || (a.y == b.y && a.z < b.z)))
}

/// Whether `a` comes before `b` in the order of root keys.
pub fn key_less(a: GlobalCoordinates, b: GlobalCoordinates) -> (r: bool)
    ensures
        r == key_lt(a, b),
{
    a.x < b.x || (a.x == b.x && (a.y < b.y || (a.y == b.y && a.z < b.z)))
}

/// The origin of the level-5 block that holds `p`.
pub open spec fn key5(p: GlobalCoordinates) -> GlobalCoordinates {
    GlobalCoordinates {
        x: spec_global_to_node(12, p).0 as i32,
        y: spec_global_to_node(12, p).1 as i32,
        z: spec_global_to_node(12, p).2 as i32,
    }
}

/// The entry of a level-5 block that holds `p`.
pub open spec fn off5(p: GlobalCoordinates) -> int {
    spec_global_to_offset(5, 12, p)
}

/// The entry of a level-4 block that holds `p`.
pub open spec fn off4(p: GlobalCoordinates) -> int {
    spec_global_to_offset(4, 7, p)
}

/// The cell of a leaf that holds `p`.
pub open spec fn off3(p: GlobalCoordinates) -> int {
    spec_global_to_offset(3, 3, p)
}

/// Whether a root entry is a tile or a well-formed block.
pub open spec fn root_entry_wf<ChildType: Node>(entry: RootData<ChildType>) -> bool {
    match entry {
        RootData::Node(child) => child.wf(),
        RootData::Tile(_, _) => true,
    }
}

impl<ValueType, ChildType: Node> RootNode<ValueType, ChildType> {
    /// The entries are in strictly ascending order of key, so no key occurs
    /// twice, and every block below is well-formed.
    pub open spec fn wf(&self) -> bool {
        &&& forall|i: int, j: int|
            0 <= i < j < self.map.len() ==> key_lt(#[trigger] self.map[i].0, #[trigger] self.map[j].0)
        &&& forall|i: int| 0 <= i < self.map.len() ==> root_entry_wf((#[trigger] self.map[i]).1)
    }

    /// Whether the root has an entry at `key`.
    pub open spec fn has_key(&self, key: GlobalCoordinates) -> bool {
        exists|i: int| 0 <= i < self.map.len() && (#[trigger] self.map[i]).0 == key
    }

    /// The index of the entry at `key`, where there is one.
    pub open spec fn index_of(&self, key: GlobalCoordinates) -> int {
        choose|i: int| 0 <= i < self.map.len() && (#[trigger] self.map[i]).0 == key
    }

    /// The entry at `key`, if there is one.
    pub open spec fn entry(&self, key: GlobalCoordinates) -> Option<RootData<ChildType>> {
        if self.has_key(key) {
            Some(self.map[self.index_of(key)].1)
        } else {
            None
        }
    }

    /// A root without entries.
    pub fn new(background: ValueType) -> (r: Self)
        ensures
            r.wf(),
            r.map@.len() == 0,
            r.background == background,
    {
        RootNode { map: Vec::new(), background }
    }

    /// The index of the entry at `key`, if there is one; else the index at
    /// which an entry at `key` keeps the order.
    pub fn find(&self, key: GlobalCoordinates) -> (r: Result<usize, usize>)
        requires
            self.wf(),
        ensures
            match r {
                Ok(i) => i < self.map.len() && self.map[i as int].0 == key && self.has_key(key)
                    && self.index_of(key) == i,
                Err(i) => i <= self.map.len() && !self.has_key(key) && (forall|k: int|
                    0 <= k < i ==> key_lt((#[trigger] self.map[k]).0, key)) && (forall|k: int|
                    i <= k < self.map.len() ==> key_lt(key, (#[trigger] self.map[k]).0)),
            },
    {
        let mut i: usize = 0;
        while i < self.map.len()
            invariant
                i <= self.map.len(),
                self.wf(),
                forall|k: int| 0 <= k < i ==> key_lt((#[trigger] self.map[k]).0, key),
            decreases self.map.len() - i,
        {
            let k = self.map[i].0;
            if k == key {
                return Ok(i);
            }
            if key_less(key, k) {
                assert forall|j: int| i <= j < self.map.len() implies key_lt(
                    key,
                    (#[trigger] self.map[j]).0,
                ) by {
                    if j > i {
                        assert(key_lt(self.map[i as int].0, self.map[j].0));
                    }
                }
                return Err(i);
            }
            i = i + 1;
        }
        Err(i)
    }
}

impl<ValueType, ChildType: Node> RootNode<ValueType, ChildType> {
    /// The key of the root entry that covers `global`.
    pub fn root_key_from_coords(global: GlobalCoordinates) -> (r: GlobalCoordinates)
        requires
            crate::coords::shape_ok(ChildType::spec_log2_d(), ChildType::spec_total_log2_d()),
        ensures
            (r.x as int, r.y as int, r.z as int) == spec_global_to_node(
                ChildType::spec_total_log2_d(),
                global,
            ),
    {
        ChildType::global_to_node(global)
    }
}

} // verus!
