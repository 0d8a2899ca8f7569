//! The nodes of the tree: leaves that hold voxel values, inner nodes that
//! hold child nodes or tiles, and the arithmetic each level brings with it.

use vstd::prelude::*;
use vstd::arithmetic::power2::pow2;
use crate::bits::{mask_bit, is_empty_mask, empty_mask, set_bit, with_bit, zero_mask};
use crate::stream::ErrorKind;
use crate::coords::{GlobalCoordinates, LocalCoordinates, Offset, shape_ok, spec_global_to_node,
    spec_global_to_offset, spec_offset_to_child, cell_offset, axis_relative, node_origin_of,
    offset_of, offset_of_child, child_of_offset, axis_relative_of, pow2_u64, lemma_shape_powers};

verus! {

/// A level of the tree. `spec_log2_d` is the base-2 logarithm of its fan-out
/// per axis; `spec_total_log2_d` that of the extent of one of its blocks in
/// voxels per axis, which is the sum of the fan-outs from this level down.
pub trait Node: Sized {
    spec fn spec_log2_d() -> nat;

    spec fn spec_total_log2_d() -> nat;

    /// The node has the sizes of its level and so do the nodes below it.
    spec fn wf(&self) -> bool;

    fn log2_d() -> (r: u32)
        ensures
            r == Self::spec_log2_d(),
    ;

    fn total_log2_d() -> (r: u32)
        requires
            Self::spec_total_log2_d() <= 30,
        ensures
            r == Self::spec_total_log2_d(),
    ;

    /// Offset of the entry of a block of this level that holds `global`.
    fn global_to_offset(global: GlobalCoordinates) -> (r: Offset)
        requires
            shape_ok(Self::spec_log2_d(), Self::spec_total_log2_d()),
        ensures
            r == spec_global_to_offset(Self::spec_log2_d(), Self::spec_total_log2_d(), global),
            r < level_size(Self::spec_log2_d()),
    {
        offset_of(Self::log2_d(), Self::total_log2_d(), global)
    }

    /// Child coordinates of the entry at `offset`.
    fn offset_to_child(offset: Offset) -> (r: LocalCoordinates)
        requires
            shape_ok(Self::spec_log2_d(), Self::spec_total_log2_d()),
            offset < level_size(Self::spec_log2_d()),
        ensures
            (r.x as int, r.y as int, r.z as int) == spec_offset_to_child(
                Self::spec_log2_d(),
                offset as int,
            ),
            r.x < pow2(Self::spec_log2_d()),
            r.y < pow2(Self::spec_log2_d()),
            r.z < pow2(Self::spec_log2_d()),
    {
        child_of_offset(Self::log2_d(), offset)
    }

    /// Offset of the entry with the child coordinates `local`.
    fn child_to_offset(local: LocalCoordinates) -> (r: Offset)
        requires
            shape_ok(Self::spec_log2_d(), Self::spec_total_log2_d()),
            local.x < pow2(Self::spec_log2_d()),
            local.y < pow2(Self::spec_log2_d()),
            local.z < pow2(Self::spec_log2_d()),
        ensures
            r == cell_offset(Self::spec_log2_d(), local.x as int, local.y as int, local.z as int),
            r < level_size(Self::spec_log2_d()),
    {
        offset_of_child(Self::log2_d(), local)
    }

    /// `global` counted from the origin of the block of this level that
    /// holds it.
    fn global_to_relative(global: GlobalCoordinates) -> (r: LocalCoordinates)
        requires
            shape_ok(Self::spec_log2_d(), Self::spec_total_log2_d()),
        ensures
            r.x == axis_relative(Self::spec_total_log2_d(), global.x as int),
            r.y == axis_relative(Self::spec_total_log2_d(), global.y as int),
            r.z == axis_relative(Self::spec_total_log2_d(), global.z as int),
    {
        let t: u32 = Self::total_log2_d();
        proof {
            lemma_shape_powers(Self::spec_log2_d(), Self::spec_total_log2_d());
        }
        LocalCoordinates {
            x: axis_relative_of(t, global.x) as u32,
            y: axis_relative_of(t, global.y) as u32,
            z: axis_relative_of(t, global.z) as u32,
        }
    }

    /// The child cell that holds the position `local` inside a block of
    /// this level.
    fn relative_to_child(local: LocalCoordinates) -> (r: LocalCoordinates)
        requires
            shape_ok(Self::spec_log2_d(), Self::spec_total_log2_d()),
        ensures
            r.x == local.x as int / (pow2((Self::spec_total_log2_d() - Self::spec_log2_d()) as nat)
                as int),
            r.y == local.y as int / (pow2((Self::spec_total_log2_d() - Self::spec_log2_d()) as nat)
                as int),
            r.z == local.z as int / (pow2((Self::spec_total_log2_d() - Self::spec_log2_d()) as nat)
                as int),
    {
        let t: u32 = Self::total_log2_d();
        let l: u32 = Self::log2_d();
        proof {
            lemma_shape_powers(Self::spec_log2_d(), Self::spec_total_log2_d());
        }
        let child_extent: u64 = pow2_u64(t - l);
        LocalCoordinates {
            x: (local.x as u64 / child_extent) as u32,
            y: (local.y as u64 / child_extent) as u32,
            z: (local.z as u64 / child_extent) as u32,
        }
    }

    /// Origin of the block of this level that holds `global`.
    fn global_to_node(global: GlobalCoordinates) -> (r: GlobalCoordinates)
        requires
            shape_ok(Self::spec_log2_d(), Self::spec_total_log2_d()),
        ensures
            (r.x as int, r.y as int, r.z as int) == spec_global_to_node(
                Self::spec_total_log2_d(),
                global,
            ),
    {
        node_origin_of(Self::total_log2_d(), global)
    }
}

/// Number of entries of a node with per-axis fan-out `2^log2_d`.
pub open spec fn level_size(log2_d: nat) -> nat {
    pow2(3 * log2_d)
}

/// A cell of a leaf: a voxel value, or a marker that stands for none.
#[derive(Debug, Clone, PartialEq)]
pub enum LeafData<ValueType> {
    Tile(usize),
    Value(ValueType),
}

/// A leaf: `2^(3 * LOG2_D)` cells and one mask bit for each.
#[derive(Debug, Clone, PartialEq)]
pub struct LeafNode<ValueType, const LOG2_D: u32> {
    pub data: Vec<LeafData<ValueType>>,
    pub value_mask: Vec<u64>,
    pub flags: u64,
}

impl<ValueType, const LOG2_D: u32> Node for LeafNode<ValueType, LOG2_D> {
    open spec fn spec_log2_d() -> nat {
        LOG2_D as nat
    }

    open spec fn spec_total_log2_d() -> nat {
        LOG2_D as nat
    }

    open spec fn wf(&self) -> bool {
        &&& self.data.len() == level_size(Self::spec_log2_d())
        &&& 64 * self.value_mask.len() == level_size(Self::spec_log2_d())
        &&& forall|i: int|
            0 <= i < self.data.len() ==> (mask_bit(self.value_mask@, i) <==> #[trigger] self.data[i] is Value)
    }

    fn log2_d() -> (r: u32) {
        LOG2_D
    }

    fn total_log2_d() -> (r: u32) {
        LOG2_D
    }
}

impl<ValueType, const LOG2_D: u32> LeafNode<ValueType, LOG2_D> {
    /// A leaf without values: every cell holds the marker `Tile(0)`.
    pub fn new() -> (r: Self)
        requires
            2 <= LOG2_D <= 10,
        ensures
            r.wf(),
            r.flags == 0,
            r.value_mask@ == zero_mask((level_size(LOG2_D as nat) / 64) as nat),
            forall|i: int| 0 <= i < r.data.len() ==> #[trigger] r.data[i] == LeafData::<ValueType>::Tile(0),
    {
        proof {
            lemma_shape_powers(LOG2_D as nat, LOG2_D as nat);
            lemma_size_words(LOG2_D as nat);
        }
        let size: usize = pow2_u64(3 * LOG2_D) as usize;
        let value_mask = empty_mask(size / 64);
        let mut data: Vec<LeafData<ValueType>> = Vec::new();
        let mut i: usize = 0;
        while i < size
            invariant
                i <= size,
                data.len() == i,
                forall|k: int| 0 <= k < i ==> #[trigger] data[k] == LeafData::<ValueType>::Tile(0),
            decreases size - i,
        {
            data.push(LeafData::Tile(0));
            i = i + 1;
        }
        Self { data, value_mask, flags: 0 }
    }

    /// A leaf with the value mask `value_mask` whose cells do not hold
    /// their values yet: every cell holds the marker `Tile(0)`. A mask of
    /// another length than the level's is refused.
    pub fn new_from_header(value_mask: Vec<u64>) -> (r: Result<Self, ErrorKind>)
        requires
            2 <= LOG2_D <= 10,
        ensures
            match r {
                Ok(leaf) => 64 * value_mask.len() == level_size(LOG2_D as nat) && leaf.value_mask@
                    == value_mask@ && leaf.flags == 0 && leaf.data.len() == level_size(
                    LOG2_D as nat,
                ) && forall|i: int|
                    0 <= i < leaf.data.len() ==> #[trigger] leaf.data[i] == LeafData::<
                        ValueType,
                    >::Tile(0),
                Err(e) => e == ErrorKind::UnexpectedMaskLength && 64 * value_mask.len() != level_size(
                    LOG2_D as nat,
                ),
            },
    {
        proof {
            lemma_shape_powers(LOG2_D as nat, LOG2_D as nat);
            lemma_size_words(LOG2_D as nat);
        }
        let size: usize = pow2_u64(3 * LOG2_D) as usize;
        if value_mask.len() != size / 64 {
            return Err(ErrorKind::UnexpectedMaskLength);
        }
        let mut leaf = Self::new();
        leaf.value_mask = value_mask;
        Ok(leaf)
    }

    /// Stores `v` in the cell at `offset` and marks the cell in the value
    /// mask; every other cell and bit stays as it was.
    pub fn set_value(&mut self, offset: Offset, v: ValueType)
        requires
            old(self).wf(),
            offset < old(self).data.len(),
        ensures
            final(self).wf(),
            final(self).data@ == old(self).data@.update(offset as int, LeafData::Value(v)),
            final(self).flags == old(self).flags,
            final(self).value_mask@ == with_bit(old(self).value_mask@, offset as int),
            forall|j: int|
                0 <= j < old(self).data.len() ==> (#[trigger] mask_bit(final(self).value_mask@, j)
                    == (j == offset || mask_bit(old(self).value_mask@, j))),
    {
        set_bit(&mut self.value_mask, offset);
        self.data.set(offset, LeafData::Value(v));
    }
}

/// An entry of an inner node: a child node, or a tile that stands for a
/// whole child's region.
#[derive(Debug, Clone, PartialEq)]
pub enum InternalData<ChildType> {
    Node(Box<ChildType>),
    Tile(u32),
}

/// An inner node: `2^(3 * LOG2_D)` entries, a mask of the entries that are
/// children and a mask of those that are active tiles.
#[derive(Debug, Clone, PartialEq)]
pub struct InternalNode<ChildType, const LOG2_D: u32> {
    pub data: Vec<InternalData<ChildType>>,
    pub value_mask: Vec<u64>,
    pub child_mask: Vec<u64>,
    pub origin: GlobalCoordinates,
}

/// Whether an entry is a tile or a well-formed child.
pub open spec fn entry_wf<ChildType: Node>(entry: InternalData<ChildType>) -> bool {
    match entry {
        InternalData::Node(child) => child.wf(),
        InternalData::Tile(_) => true,
    }
}

impl<ChildType: Node, const LOG2_D: u32> Node for InternalNode<ChildType, LOG2_D> {
    open spec fn spec_log2_d() -> nat {
        LOG2_D as nat
    }

    open spec fn spec_total_log2_d() -> nat {
        LOG2_D as nat + ChildType::spec_total_log2_d()
    }

    open spec fn wf(&self) -> bool {
        &&& self.data.len() == level_size(Self::spec_log2_d())
        &&& 64 * self.value_mask.len() == level_size(Self::spec_log2_d())
        &&& 64 * self.child_mask.len() == level_size(Self::spec_log2_d())
        &&& forall|i: int|
            0 <= i < self.data.len() ==> (mask_bit(self.child_mask@, i) <==> #[trigger] self.data[i] is Node)
        &&& forall|i: int|
            0 <= i < self.data.len() ==> !(mask_bit(self.child_mask@, i) && #[trigger] mask_bit(
                self.value_mask@,
                i,
            ))
        &&& forall|i: int| 0 <= i < self.data.len() ==> entry_wf(#[trigger] self.data[i])
    }

    fn log2_d() -> (r: u32) {
        LOG2_D
    }

    fn total_log2_d() -> (r: u32) {
        LOG2_D + ChildType::total_log2_d()
    }
}

impl<ChildType: Node, const LOG2_D: u32> InternalNode<ChildType, LOG2_D> {
    /// An inner node at `origin` without children: every entry is `Tile(0)`
    /// and both masks are empty.
    pub fn new(origin: GlobalCoordinates) -> (r: Self)
        requires
            2 <= LOG2_D <= 10,
        ensures
            r.wf(),
            r.origin == origin,
            r.value_mask@ == zero_mask((level_size(LOG2_D as nat) / 64) as nat),
            r.child_mask@ == zero_mask((level_size(LOG2_D as nat) / 64) as nat),
            is_empty_mask(r.value_mask@, (level_size(Self::spec_log2_d()) / 64) as nat),
            is_empty_mask(r.child_mask@, (level_size(Self::spec_log2_d()) / 64) as nat),
            forall|i: int| 0 <= i < r.data.len() ==> #[trigger] r.data[i] == InternalData::<ChildType>::Tile(0),
    {
        proof {
            lemma_shape_powers(LOG2_D as nat, LOG2_D as nat);
            lemma_size_words(LOG2_D as nat);
        }
        let size: usize = pow2_u64(3 * LOG2_D) as usize;
        let value_mask = empty_mask(size / 64);
        let child_mask = empty_mask(size / 64);
        let mut data: Vec<InternalData<ChildType>> = Vec::new();
        let mut i: usize = 0;
        while i < size
            invariant
                i <= size,
                data.len() == i,
                forall|k: int| 0 <= k < i ==> #[trigger] data[k] == InternalData::<ChildType>::Tile(0),
            decreases size - i,
        {
            data.push(InternalData::Tile(0));
            i = i + 1;
        }
        Self { data, value_mask, child_mask, origin }
    }
}

impl<ChildType: Node, const LOG2_D: u32> InternalNode<ChildType, LOG2_D> {
    /// An inner node at `origin` with the given masks whose entries are not
    /// filled in yet: every entry is `Tile(0)`. Masks of another length
    /// than the level's are refused.
    pub fn new_from_header(child_mask: Vec<u64>, value_mask: Vec<u64>, origin: GlobalCoordinates) -> (r:
        Result<Self, ErrorKind>)
        requires
            2 <= LOG2_D <= 10,
        ensures
            match r {
                Ok(node) => 64 * child_mask.len() == level_size(LOG2_D as nat) && 64
                    * value_mask.len() == level_size(LOG2_D as nat) && node.child_mask@
                    == child_mask@ && node.value_mask@ == value_mask@ && node.origin == origin
                    && node.data.len() == level_size(LOG2_D as nat) && forall|i: int|
                    0 <= i < node.data.len() ==> #[trigger] node.data[i] == InternalData::<
                        ChildType,
                    >::Tile(0),
                Err(e) => e == ErrorKind::UnexpectedMaskLength && (64 * child_mask.len()
                    != level_size(LOG2_D as nat) || 64 * value_mask.len() != level_size(
                    LOG2_D as nat,
                )),
            },
    {
        proof {
            lemma_shape_powers(LOG2_D as nat, LOG2_D as nat);
            lemma_size_words(LOG2_D as nat);
        }
        let size: usize = pow2_u64(3 * LOG2_D) as usize;
        if child_mask.len() != size / 64 || value_mask.len() != size / 64 {
            return Err(ErrorKind::UnexpectedMaskLength);
        }
        let mut node = Self::new(origin);
        node.child_mask = child_mask;
        node.value_mask = value_mask;
        Ok(node)
    }
}

/// A level with at least 64 entries fills whole mask words.
pub proof fn lemma_size_words(log2_d: nat)
    requires
        2 <= log2_d <= 10,
    ensures
        pow2(3 * log2_d) % 64 == 0,
        64 * (pow2(3 * log2_d) / 64) == pow2(3 * log2_d),
        pow2(3 * log2_d) / 64 <= 16777216,
{
    vstd::arithmetic::power2::lemma2_to64();
    vstd::arithmetic::power2::lemma_pow2_adds(6, (3 * log2_d - 6) as nat);
    let k = pow2((3 * log2_d - 6) as nat) as int;
    assert(pow2(3 * log2_d) == 64 * k);
    vstd::arithmetic::div_mod::lemma_fundamental_div_mod_converse_div(64 * k, 64, k, 0);
    vstd::arithmetic::div_mod::lemma_fundamental_div_mod_converse_mod(64 * k, 64, k, 0);
    lemma_shape_powers(log2_d, log2_d);
}

} // verus!
