//! The dense views of a tree: its blocks in traversal order, their counts,
//! the origins of the level-5 blocks, the masks, and the three node atlases.

use vstd::prelude::*;
use vstd::arithmetic::power2::lemma2_to64;
use vstd::arithmetic::power2::pow2;
use crate::coords::{GlobalCoordinates, LocalCoordinates, Offset, cell_offset, offset_of_child, pow2_u64,
    lemma_shape_powers};
use crate::node::level_size;
use crate::node::{InternalData, InternalNode, LeafData, Node, entry_wf};
use crate::tree::{N3, N4, N5, VDB, RootData, RootNode, root_entry_wf};
use crate::value::{From4LeBytes, value_of_word, word_to_value};

verus! {

/// The level-5 blocks among the first `n` root entries, in the order of the
/// root, which is ascending by key.
pub open spec fn n5_blocks<V>(map: Seq<(GlobalCoordinates, RootData<N5<V>>)>, n: nat) -> Seq<N5<V>>
    decreases n,
{
    if n == 0 {
        Seq::empty()
    } else {
        match map[n - 1].1 {
            RootData::Node(node) => n5_blocks(map, (n - 1) as nat).push(*node),
            RootData::Tile(_, _) => n5_blocks(map, (n - 1) as nat),
        }
    }
}

/// The keys of the level-5 blocks among the first `n` root entries, in the
/// order of the root.
pub open spec fn n5_origins<V>(map: Seq<(GlobalCoordinates, RootData<N5<V>>)>, n: nat) -> Seq<
    GlobalCoordinates,
>
    decreases n,
{
    if n == 0 {
        Seq::empty()
    } else {
        match map[n - 1].1 {
            RootData::Node(_) => n5_origins(map, (n - 1) as nat).push(map[n - 1].0),
            RootData::Tile(_, _) => n5_origins(map, (n - 1) as nat),
        }
    }
}

/// The children among the first `n` entries of a node, in offset order.
pub open spec fn children<C>(data: Seq<InternalData<C>>, n: nat) -> Seq<C>
    decreases n,
{
    if n == 0 {
        Seq::empty()
    } else {
        match data[n - 1] {
            InternalData::Node(child) => children(data, (n - 1) as nat).push(*child),
            InternalData::Tile(_) => children(data, (n - 1) as nat),
        }
    }
}

/// The children of the first `n` of the given inner nodes: node after
/// node, the children of each in offset order.
pub open spec fn blocks_below<C, const L: u32>(parents: Seq<InternalNode<C, L>>, n: nat) -> Seq<C>
    decreases n,
{
    if n == 0 {
        Seq::empty()
    } else {
        blocks_below(parents, (n - 1) as nat) + children(
            parents[n - 1].data@,
            parents[n - 1].data@.len(),
        )
    }
}

/// The level-5 blocks of a tree in traversal order.
pub open spec fn tree_n5<V>(root: RootNode<V, N5<V>>) -> Seq<N5<V>> {
    n5_blocks(root.map@, root.map@.len())
}

/// The level-4 blocks of a tree in traversal order.
pub open spec fn tree_n4<V>(root: RootNode<V, N5<V>>) -> Seq<N4<V>> {
    blocks_below(tree_n5(root), tree_n5(root).len())
}

/// The leaves of a tree in traversal order.
pub open spec fn tree_n3<V>(root: RootNode<V, N5<V>>) -> Seq<N3<V>> {
    blocks_below(tree_n4(root), tree_n4(root).len())
}

/// Whether `refs` holds the nodes of `nodes`, in order.
pub open spec fn refers_to<T>(refs: Seq<&T>, nodes: Seq<T>) -> bool {
    refs.len() == nodes.len() && forall|k: int| 0 <= k < refs.len() ==> *(#[trigger] refs[k]) == nodes[k]
}

/// Whether every node of the sequence is well-formed.
pub open spec fn all_wf<T: Node>(nodes: Seq<T>) -> bool {
    forall|k: int| 0 <= k < nodes.len() ==> (#[trigger] nodes[k]).wf()
}

/// The children of a well-formed node are well-formed.
pub proof fn lemma_children_wf<C: Node>(data: Seq<InternalData<C>>, n: nat)
    requires
        n <= data.len(),
        forall|i: int| 0 <= i < data.len() ==> entry_wf(#[trigger] data[i]),
    ensures
        all_wf(children(data, n)),
    decreases n,
{
    if n > 0 {
        lemma_children_wf(data, (n - 1) as nat);
        assert(entry_wf(data[n - 1]));
    }
}

/// Appends the children of `data` to `out`, in offset order.
fn push_children<'a, C: Node>(data: &'a Vec<InternalData<C>>, out: &mut Vec<&'a C>, Ghost(before): Ghost<Seq<C>>)
    requires
        refers_to(old(out)@, before),
    ensures
        refers_to(final(out)@, before + children(data@, data@.len())),
{
    let mut i: usize = 0;
    while i < data.len()
        invariant
            i <= data.len(),
            refers_to(out@, before + children(data@, i as nat)),
        decreases data.len() - i,
    {
        match &data[i] {
            InternalData::Node(child) => {
                out.push(&**child);
            },
            InternalData::Tile(_) => {},
        }
        i = i + 1;
    }
}

/// The level-5 blocks of a tree in traversal order.
pub fn collect_n5<'a, V>(root: &'a RootNode<V, N5<V>>) -> (r: Vec<&'a N5<V>>)
    ensures
        refers_to(r@, tree_n5(*root)),
{
    let mut out: Vec<&'a N5<V>> = Vec::new();
    let mut i: usize = 0;
    while i < root.map.len()
        invariant
            i <= root.map.len(),
            refers_to(out@, n5_blocks(root.map@, i as nat)),
        decreases root.map.len() - i,
    {
        match &root.map[i].1 {
            RootData::Node(node) => {
                out.push(&**node);
            },
            RootData::Tile(_, _) => {},
        }
        i = i + 1;
    }
    out
}

/// The children of the given inner nodes, in traversal order.
fn collect_below<'a, C: Node, const L: u32>(
    parents: &Vec<&'a InternalNode<C, L>>,
    Ghost(nodes): Ghost<Seq<InternalNode<C, L>>>,
) -> (r: Vec<&'a C>)
    requires
        refers_to(parents@, nodes),
    ensures
        refers_to(r@, blocks_below(nodes, nodes.len())),
{
    let mut out: Vec<&'a C> = Vec::new();
    let mut i: usize = 0;
    while i < parents.len()
        invariant
            i <= parents.len(),
            refers_to(parents@, nodes),
            refers_to(out@, blocks_below(nodes, i as nat)),
        decreases parents.len() - i,
    {
        let node: &'a InternalNode<C, L> = parents[i];
        push_children(&node.data, &mut out, Ghost(blocks_below(nodes, i as nat)));
        i = i + 1;
    }
    out
}

impl<V: Copy> VDB<V, N5<V>> {
    /// The numbers of level-5 blocks, level-4 blocks and leaves.
    pub open spec fn spec_count_nodes(&self) -> (nat, nat, nat) {
        (tree_n5(self.root).len(), tree_n4(self.root).len(), tree_n3(self.root).len())
    }

    /// The origins of the level-5 blocks, ascending.
    pub open spec fn spec_origins(&self) -> Seq<GlobalCoordinates> {
        n5_origins(self.root.map@, self.root.map@.len())
    }

    /// Counts the level-5 blocks, the level-4 blocks and the leaves.
    pub fn count_nodes(&self) -> (r: [usize; 3])
        ensures
            r[0] == self.spec_count_nodes().0,
            r[1] == self.spec_count_nodes().1,
            r[2] == self.spec_count_nodes().2,
    {
        let n5 = collect_n5(&self.root);
        let n4 = collect_below(&n5, Ghost(tree_n5(self.root)));
        let n3 = collect_below(&n4, Ghost(tree_n4(self.root)));
        [n5.len(), n4.len(), n3.len()]
    }

    /// The origins of the level-5 blocks, in ascending order of root key.
    pub fn origins(&self) -> (r: Vec<GlobalCoordinates>)
        ensures
            r@ == self.spec_origins(),
    {
        let mut origins: Vec<GlobalCoordinates> = Vec::new();
        let mut i: usize = 0;
        while i < self.root.map.len()
            invariant
                i <= self.root.map.len(),
                origins@ == n5_origins(self.root.map@, i as nat),
            decreases self.root.map.len() - i,
        {
            match &self.root.map[i].1 {
                RootData::Node(_) => {
                    origins.push(self.root.map[i].0);
                },
                RootData::Tile(_, _) => {},
            }
            i = i + 1;
        }
        origins
    }
}

/// A mask of 64-bit words as 32-bit words: of each word the low half, then
/// the high half.
pub open spec fn words32(mask: Seq<u64>) -> Seq<u32> {
    Seq::new(
        2 * mask.len(),
        |k: int|
            if k % 2 == 0 {
                (mask[k / 2] % 0x1_0000_0000) as u32
            } else {
                (mask[k / 2] / 0x1_0000_0000) as u32
            },
    )
}

/// Splits each 64-bit word into its low and its high 32-bit half.
pub fn arr32_from_arr64(arr: &Vec<u64>) -> (result: Vec<u32>)
    ensures
        result@ == words32(arr@),
{
    let mut result: Vec<u32> = Vec::new();
    let mut i: usize = 0;
    while i < arr.len()
        invariant
            i <= arr.len(),
            result@.len() == 2 * i,
            forall|k: int| 0 <= k < 2 * i ==> #[trigger] result@[k] == words32(arr@)[k],
        decreases arr.len() - i,
    {
        let num: u64 = arr[i];
        result.push((num % 0x1_0000_0000) as u32);
        result.push((num / 0x1_0000_0000) as u32);
        i = i + 1;
    }
    assert(result@ =~= words32(arr@));
    result
}

/// Whether `lists` holds, node by node, the 32-bit words of the masks in
/// `masks`.
pub open spec fn masks_are(lists: Seq<Vec<u32>>, masks: Seq<Seq<u64>>) -> bool {
    lists.len() == masks.len() && forall|k: int|
        0 <= k < lists.len() ==> (#[trigger] lists[k])@ == words32(masks[k])
}

/// The child masks of the given inner nodes.
pub open spec fn child_masks<C, const L: u32>(nodes: Seq<InternalNode<C, L>>) -> Seq<
    Seq<u64>,
> {
    Seq::new(nodes.len(), |k: int| nodes[k].child_mask@)
}

/// The value masks of the given inner nodes.
pub open spec fn value_masks<C, const L: u32>(nodes: Seq<InternalNode<C, L>>) -> Seq<
    Seq<u64>,
> {
    Seq::new(nodes.len(), |k: int| nodes[k].value_mask@)
}

/// The value masks of the given leaves.
pub open spec fn leaf_masks<V>(nodes: Seq<N3<V>>) -> Seq<Seq<u64>> {
    Seq::new(nodes.len(), |k: int| nodes[k].value_mask@)
}

/// The child masks and the value masks of the given inner nodes, as 32-bit
/// words.
fn inner_mask_lists<C, const L: u32>(
    nodes: &Vec<&InternalNode<C, L>>,
    Ghost(of): Ghost<Seq<InternalNode<C, L>>>,
) -> (r: (Vec<Vec<u32>>, Vec<Vec<u32>>))
    requires
        refers_to(nodes@, of),
    ensures
        masks_are(r.0@, child_masks(of)),
        masks_are(r.1@, value_masks(of)),
{
    let mut kids: Vec<Vec<u32>> = Vec::new();
    let mut vals: Vec<Vec<u32>> = Vec::new();
    let mut i: usize = 0;
    while i < nodes.len()
        invariant
            i <= nodes.len(),
            refers_to(nodes@, of),
            kids@.len() == i,
            vals@.len() == i,
            forall|k: int| 0 <= k < i ==> (#[trigger] kids@[k])@ == words32(of[k].child_mask@),
            forall|k: int| 0 <= k < i ==> (#[trigger] vals@[k])@ == words32(of[k].value_mask@),
        decreases nodes.len() - i,
    {
        let node = nodes[i];
        kids.push(arr32_from_arr64(&node.child_mask));
        vals.push(arr32_from_arr64(&node.value_mask));
        i = i + 1;
    }
    (kids, vals)
}

/// The value masks of the given leaves, as 32-bit words.
fn leaf_mask_list<V>(nodes: &Vec<&N3<V>>, Ghost(of): Ghost<Seq<N3<V>>>) -> (r: Vec<Vec<u32>>)
    requires
        refers_to(nodes@, of),
    ensures
        masks_are(r@, leaf_masks(of)),
{
    let mut vals: Vec<Vec<u32>> = Vec::new();
    let mut i: usize = 0;
    while i < nodes.len()
        invariant
            i <= nodes.len(),
            refers_to(nodes@, of),
            vals@.len() == i,
            forall|k: int| 0 <= k < i ==> (#[trigger] vals@[k])@ == words32(of[k].value_mask@),
        decreases nodes.len() - i,
    {
        let node = nodes[i];
        vals.push(arr32_from_arr64(&node.value_mask));
        i = i + 1;
    }
    vals
}

impl<V: Copy> VDB<V, N5<V>> {
    /// The masks of the tree as 32-bit words, in traversal order: the child
    /// masks and the value masks of the level-5 blocks, those of the
    /// level-4 blocks, and the value masks of the leaves.
    pub fn masks(&self) -> (r: (
        Vec<Vec<u32>>,
        Vec<Vec<u32>>,
        Vec<Vec<u32>>,
        Vec<Vec<u32>>,
        Vec<Vec<u32>>,
    ))
        ensures
            masks_are(r.0@, child_masks(tree_n5(self.root))),
            masks_are(r.1@, value_masks(tree_n5(self.root))),
            masks_are(r.2@, child_masks(tree_n4(self.root))),
            masks_are(r.3@, value_masks(tree_n4(self.root))),
            masks_are(r.4@, leaf_masks(tree_n3(self.root))),
    {
        let n5 = collect_n5(&self.root);
        let n4 = collect_below(&n5, Ghost(tree_n5(self.root)));
        let n3 = collect_below(&n4, Ghost(tree_n4(self.root)));
        let (n5_kids, n5_vals) = inner_mask_lists(&n5, Ghost(tree_n5(self.root)));
        let (n4_kids, n4_vals) = inner_mask_lists(&n4, Ghost(tree_n4(self.root)));
        let n3_vals = leaf_mask_list(&n3, Ghost(tree_n3(self.root)));
        (n5_kids, n5_vals, n4_kids, n4_vals, n3_vals)
    }
}

/// The side of the smallest cube of slots that holds `n` blocks: the least
/// `i` with `i * i * i >= n`.
pub fn closest_power_of_3(n: usize) -> (i: usize)
    requires
        n <= 0xFFFF_FFFF,
    ensures
        i * i * i >= n,
        i == 0 || (i - 1) * (i - 1) * (i - 1) < n,
        i <= 1626,
{
    let mut i: usize = 0;
    loop
        invariant
            i <= 1626,
            n <= 0xFFFF_FFFF,
            i == 0 || (i - 1) * (i - 1) * (i - 1) < n,
        ensures
            i * i * i >= n,
            i == 0 || (i - 1) * (i - 1) * (i - 1) < n,
            i <= 1626,
        decreases 1626 - i,
    {
        proof {
            assert(i * i <= 1626 * 1626) by (nonlinear_arith)
                requires
                    i <= 1626,
            ;
            assert(i * i * i <= 1626 * 1626 * 1626) by (nonlinear_arith)
                requires
                    i <= 1626,
            ;
        }
        let cube: u64 = (i as u64) * (i as u64) * (i as u64);
        if cube >= n as u64 {
            break;
        }
        i = i + 1;
    }
    i
}

/// The slot of block `idx` in a cube of `dim` slots a side: x runs fastest.
pub fn origin_from_idx(idx: usize, dim: usize) -> (r: (usize, usize, usize))
    requires
        0 < dim <= 1626,
    ensures
        r.0 == idx % dim,
        r.1 == (idx / dim) % dim,
        r.2 == idx as int / (dim * dim),
{
    assert(0 < dim * dim <= 1626 * 1626) by (nonlinear_arith)
        requires
            0 < dim <= 1626,
    ;
    (idx % dim, (idx / dim) % dim, idx / (dim * dim))
}

/// The slot that `origin_from_idx` gives to block `idx` is the slot whose
/// cells `slot_of` counts as those of block `idx`: the three slot
/// coordinates lie inside the cube and combine back to `idx`.
pub proof fn law_slot_of_block(idx: int, side: int)
    requires
        0 < side,
        0 <= idx < side * side * side,
    ensures
        0 <= idx % side < side,
        0 <= (idx / side) % side < side,
        0 <= idx / (side * side) < side,
        idx % side + ((idx / side) % side) * side + (idx / (side * side)) * side * side == idx,
{
    let a = idx / side;
    vstd::arithmetic::div_mod::lemma_fundamental_div_mod(idx, side);
    vstd::arithmetic::div_mod::lemma_fundamental_div_mod(a, side);
    vstd::arithmetic::div_mod::lemma_mod_bound(idx, side);
    vstd::arithmetic::div_mod::lemma_mod_bound(a, side);
    vstd::arithmetic::div_mod::lemma_div_denominator(idx, side, side);
    let c = a / side;
    assert(0 <= a) by (nonlinear_arith)
        requires
            idx == side * a + idx % side,
            0 <= idx % side < side,
            0 <= idx,
            side > 0,
    ;
    assert(0 <= c < side) by (nonlinear_arith)
        requires
            idx == side * a + idx % side,
            a == side * c + a % side,
            0 <= idx % side < side,
            0 <= a % side < side,
            0 <= idx < side * side * side,
            side > 0,
    ;
    assert(idx % side + (a % side) * side + c * side * side == idx) by (nonlinear_arith)
        requires
            idx == side * a + idx % side,
            a == side * c + a % side,
    ;
}

/// The index of the slot that holds the atlas cell `(x, y, z)`, in an atlas
/// of `side` slots a side whose blocks are `dim` cells a side.
pub open spec fn slot_of(side: int, dim: int, x: int, y: int, z: int) -> int {
    (x / dim) + (y / dim) * side + (z / dim) * side * side
}

/// What the atlas cell `(x, y, z)` holds: the cell of the block in its slot,
/// or the zero value where the slot is free.
pub open spec fn atlas_cell<V: From4LeBytes>(
    blocks: Seq<Seq<V>>,
    log2_d: nat,
    side: int,
    x: int,
    y: int,
    z: int,
) -> V {
    let dim = pow2(log2_d) as int;
    let slot = slot_of(side, dim, x, y, z);
    if slot < blocks.len() {
        blocks[slot][cell_offset(log2_d, x % dim, y % dim, z % dim)]
    } else {
        value_of_word::<V>(0)
    }
}

/// Whether `atlas` is the cube of `side * 2^log2_d` cells a side that holds
/// `blocks` slot by slot.
pub open spec fn is_atlas<V: From4LeBytes>(
    atlas: Seq<Vec<Vec<V>>>,
    blocks: Seq<Seq<V>>,
    log2_d: nat,
    side: int,
) -> bool {
    let n = side * pow2(log2_d);
    &&& atlas.len() == n
    &&& forall|x: int| 0 <= x < n ==> (#[trigger] atlas[x])@.len() == n
    &&& forall|x: int, y: int| 0 <= x < n && 0 <= y < n ==> (#[trigger] atlas[x]@[y])@.len() == n
    &&& forall|x: int, y: int, z: int|
        0 <= x < n && 0 <= y < n && 0 <= z < n ==> #[trigger] atlas[x]@[y]@[z] == atlas_cell(
            blocks,
            log2_d,
            side,
            x,
            y,
            z,
        )
}

/// The contents of the given blocks.
pub open spec fn views<V>(blocks: Seq<Vec<V>>) -> Seq<Seq<V>> {
    Seq::new(blocks.len(), |k: int| blocks[k]@)
}

/// What the atlas cell `(x, y, z)` holds.
#[verifier::rlimit(40)]
fn cell_at<V: From4LeBytes + Copy>(
    blocks: &Vec<Vec<V>>,
    log2_d: u32,
    side: usize,
    x: usize,
    y: usize,
    z: usize,
) -> (r: V)
    requires
        1 <= log2_d <= 5,
        side <= 1626,
        x < side * pow2(log2_d as nat),
        y < side * pow2(log2_d as nat),
        z < side * pow2(log2_d as nat),
        forall|k: int| 0 <= k < blocks.len() ==> (#[trigger] blocks[k])@.len() == level_size(log2_d as nat),
    ensures
        r == atlas_cell(views(blocks@), log2_d as nat, side as int, x as int, y as int, z as int),
{
    let dim: usize = pow2_u64(log2_d) as usize;
    proof {
        lemma_shape_powers(log2_d as nat, log2_d as nat);
        lemma2_to64();
    }
    let sx: u64 = (x / dim) as u64;
    let sy: u64 = (y / dim) as u64;
    let sz: u64 = (z / dim) as u64;
    let s: u64 = side as u64;
    proof {
        assert(sx < side && sy < side && sz < side) by (nonlinear_arith)
            requires
                sx == x / dim,
                sy == y / dim,
                sz == z / dim,
                x < side * dim,
                y < side * dim,
                z < side * dim,
                dim > 0,
        ;
        assert(sy * s <= 1626 * 1626 && sz * s <= 1626 * 1626 && sz * s * s <= 1626 * 1626 * 1626)
            by (nonlinear_arith)
            requires
                sy < s,
                sz < s,
                s <= 1626,
        ;
    }
    let slot: u64 = sx + sy * s + sz * s * s;
    if slot < blocks.len() as u64 {
        let local = LocalCoordinates { x: (x % dim) as u32, y: (y % dim) as u32, z: (z % dim) as u32 };
        let off: Offset = offset_of_child(log2_d, local);
        blocks[slot as usize][off]
    } else {
        word_to_value::<V>(0)
    }
}

/// Lays the blocks out in a cube of `side` slots a side.
#[verifier::rlimit(40)]
pub fn pack_blocks<V: From4LeBytes + Copy>(blocks: &Vec<Vec<V>>, log2_d: u32, side: usize) -> (r: Vec<
    Vec<Vec<V>>,
>)
    requires
        1 <= log2_d <= 5,
        side <= 1626,
        forall|k: int| 0 <= k < blocks.len() ==> (#[trigger] blocks[k])@.len() == level_size(log2_d as nat),
    ensures
        is_atlas(r@, views(blocks@), log2_d as nat, side as int),
{
    let dim: usize = pow2_u64(log2_d) as usize;
    proof {
        lemma_shape_powers(log2_d as nat, log2_d as nat);
        lemma2_to64();
        assert(side * dim <= 1626 * 32) by (nonlinear_arith)
            requires
                side <= 1626,
                dim <= 32,
        ;
    }
    let n: usize = side * dim;
    let mut atlas: Vec<Vec<Vec<V>>> = Vec::new();
    let mut x: usize = 0;
    while x < n
        invariant
            x <= n,
            n == side * pow2(log2_d as nat),
            1 <= log2_d <= 5,
            side <= 1626,
            forall|k: int| 0 <= k < blocks.len() ==> (#[trigger] blocks[k])@.len() == level_size(log2_d as nat),
            atlas@.len() == x,
            forall|i: int| 0 <= i < x ==> (#[trigger] atlas@[i])@.len() == n,
            forall|i: int, j: int| 0 <= i < x && 0 <= j < n ==> (#[trigger] atlas@[i]@[j])@.len() == n,
            forall|i: int, j: int, k: int|
                0 <= i < x && 0 <= j < n && 0 <= k < n ==> #[trigger] atlas@[i]@[j]@[k] == atlas_cell(
                    views(blocks@),
                    log2_d as nat,
                    side as int,
                    i,
                    j,
                    k,
                ),
        decreases n - x,
    {
        let mut plane: Vec<Vec<V>> = Vec::new();
        let mut y: usize = 0;
        while y < n
            invariant
                x < n,
                y <= n,
                n == side * pow2(log2_d as nat),
                1 <= log2_d <= 5,
                side <= 1626,
                forall|k: int| 0 <= k < blocks.len() ==> (#[trigger] blocks[k])@.len() == level_size(log2_d as nat),
                plane@.len() == y,
                forall|j: int| 0 <= j < y ==> (#[trigger] plane@[j])@.len() == n,
                forall|j: int, k: int|
                    0 <= j < y && 0 <= k < n ==> #[trigger] plane@[j]@[k] == atlas_cell(
                        views(blocks@),
                        log2_d as nat,
                        side as int,
                        x as int,
                        j,
                        k,
                    ),
            decreases n - y,
        {
            let mut row: Vec<V> = Vec::new();
            let mut z: usize = 0;
            while z < n
                invariant
                    x < n,
                    y < n,
                    z <= n,
                    n == side * pow2(log2_d as nat),
                    1 <= log2_d <= 5,
                    side <= 1626,
                    forall|k: int| 0 <= k < blocks.len() ==> (#[trigger] blocks[k])@.len() == level_size(log2_d as nat),
                    row@.len() == z,
                    forall|k: int|
                        0 <= k < z ==> #[trigger] row@[k] == atlas_cell(
                            views(blocks@),
                            log2_d as nat,
                            side as int,
                            x as int,
                            y as int,
                            k,
                        ),
                decreases n - z,
            {
                row.push(cell_at(blocks, log2_d, side, x, y, z));
                z = z + 1;
            }
            plane.push(row);
            y = y + 1;
        }
        atlas.push(plane);
        x = x + 1;
    }
    atlas
}

/// The cells of a leaf as the atlas holds them: the value of a cell that
/// has one, else the cell's marker as a word.
pub open spec fn leaf_cells<V: From4LeBytes>(leaf: N3<V>) -> Seq<V> {
    Seq::new(
        leaf.data@.len(),
        |o: int|
            match leaf.data@[o] {
                LeafData::Value(v) => v,
                LeafData::Tile(marker) => value_of_word::<V>((marker as int % 0x1_0000_0000) as u32),
            },
    )
}

/// The cells of an inner node as the atlas holds them: a tile as a word,
/// and for a child its index among the blocks of the next level, which is
/// `base` plus the number of children before it in this node.
pub open spec fn inner_cells<V: From4LeBytes, C>(data: Seq<InternalData<C>>, base: nat) -> Seq<V> {
    Seq::new(
        data.len(),
        |o: int|
            match data[o] {
                InternalData::Tile(t) => value_of_word::<V>(t),
                InternalData::Node(_) => value_of_word::<V>(
                    ((base + children(data, o as nat).len()) % 0x1_0000_0000) as u32,
                ),
            },
    )
}

/// The atlas cells of each of the given leaves.
pub open spec fn leaf_blocks<V: From4LeBytes>(nodes: Seq<N3<V>>) -> Seq<Seq<V>> {
    Seq::new(nodes.len(), |k: int| leaf_cells(nodes[k]))
}

/// The atlas cells of each of the given inner nodes, the children numbered
/// in traversal order.
pub open spec fn inner_blocks<V: From4LeBytes, C, const L: u32>(nodes: Seq<InternalNode<C, L>>) -> Seq<
    Seq<V>,
> {
    Seq::new(
        nodes.len(),
        |k: int| inner_cells::<V, C>(nodes[k].data@, blocks_below(nodes, k as nat).len()),
    )
}

/// The child at entry `o` of a node stands among the node's children at
/// the place that the number of children before it gives.
pub proof fn lemma_child_place<C>(data: Seq<InternalData<C>>, o: int, n: nat)
    requires
        0 <= o < n <= data.len(),
        data[o] is Node,
    ensures
        children(data, o as nat).len() < children(data, n).len(),
        children(data, n)[children(data, o as nat).len() as int] == *data[o]->Node_0,
    decreases n,
{
    if o == n - 1 {
    } else {
        lemma_child_place(data, o, (n - 1) as nat);
    }
}

/// The index that the atlas holds for a child is the child's place in the
/// traversal order of the next level: the child at entry `o` of the `k`-th
/// of the given nodes is the block of that index among the blocks below
/// them.
pub proof fn law_child_index<C, const L: u32>(nodes: Seq<InternalNode<C, L>>, k: int, o: int, n: nat)
    requires
        0 <= k < n <= nodes.len(),
        0 <= o < nodes[k].data@.len(),
        nodes[k].data@[o] is Node,
    ensures
        blocks_below(nodes, k as nat).len() + children(nodes[k].data@, o as nat).len() < blocks_below(
            nodes,
            n,
        ).len(),
        blocks_below(nodes, n)[(blocks_below(nodes, k as nat).len() + children(
            nodes[k].data@,
            o as nat,
        ).len()) as int] == *nodes[k].data@[o]->Node_0,
    decreases n,
{
    if k == n - 1 {
        lemma_child_place(nodes[k].data@, o, nodes[k].data@.len());
    } else {
        law_child_index(nodes, k, o, (n - 1) as nat);
    }
}

/// Among more entries there are no fewer children.
pub proof fn lemma_children_grow<C>(data: Seq<InternalData<C>>, i: nat, n: nat)
    requires
        i <= n,
    ensures
        children(data, i).len() <= children(data, n).len(),
    decreases n,
{
    if i < n {
        lemma_children_grow(data, i, (n - 1) as nat);
    }
}

/// Below more parents there are no fewer blocks.
pub proof fn lemma_blocks_below_grow<C, const L: u32>(parents: Seq<InternalNode<C, L>>, i: nat, n: nat)
    requires
        i <= n,
    ensures
        blocks_below(parents, i).len() <= blocks_below(parents, n).len(),
    decreases n,
{
    if i < n {
        lemma_blocks_below_grow(parents, i, (n - 1) as nat);
    }
}

/// The atlas cells of a leaf.
fn leaf_block<V: From4LeBytes + Copy>(leaf: &N3<V>) -> (r: Vec<V>)
    ensures
        r@ == leaf_cells(*leaf),
{
    let mut cells: Vec<V> = Vec::new();
    let mut o: usize = 0;
    while o < leaf.data.len()
        invariant
            o <= leaf.data.len(),
            cells@.len() == o,
            forall|k: int| 0 <= k < o ==> #[trigger] cells@[k] == leaf_cells(*leaf)[k],
        decreases leaf.data.len() - o,
    {
        let cell: V = match &leaf.data[o] {
            LeafData::Value(v) => *v,
            LeafData::Tile(marker) => word_to_value::<V>((*marker as u64 % 0x1_0000_0000) as u32),
        };
        cells.push(cell);
        o = o + 1;
    }
    assert(cells@ =~= leaf_cells(*leaf));
    cells
}

/// The atlas cells of an inner node whose first child has the index `base`.
fn inner_block<V: From4LeBytes + Copy, C>(data: &Vec<InternalData<C>>, base: usize) -> (r: Vec<V>)
    requires
        base + children(data@, data@.len()).len() <= 0xFFFF_FFFF,
    ensures
        r@ == inner_cells::<V, C>(data@, base as nat),
{
    let mut cells: Vec<V> = Vec::new();
    let mut o: usize = 0;
    let mut next: usize = base;
    while o < data.len()
        invariant
            o <= data.len(),
            next == base + children(data@, o as nat).len(),
            base + children(data@, data@.len()).len() <= 0xFFFF_FFFF,
            cells@.len() == o,
            forall|k: int| 0 <= k < o ==> #[trigger] cells@[k] == inner_cells::<V, C>(data@, base as nat)[k],
        decreases data.len() - o,
    {
        proof {
            lemma_children_grow(data@, (o + 1) as nat, data@.len());
        }
        match &data[o] {
            InternalData::Tile(t) => {
                cells.push(word_to_value::<V>(*t));
            },
            InternalData::Node(_) => {
                cells.push(word_to_value::<V>(next as u32));
                next = next + 1;
            },
        }
        o = o + 1;
    }
    assert(cells@ =~= inner_cells::<V, C>(data@, base as nat));
    cells
}

/// The atlas cells of each of the given inner nodes.
fn inner_block_list<V: From4LeBytes + Copy, C, const L: u32>(
    nodes: &Vec<&InternalNode<C, L>>,
    Ghost(of): Ghost<Seq<InternalNode<C, L>>>,
) -> (r: Vec<Vec<V>>)
    requires
        refers_to(nodes@, of),
        blocks_below(of, of.len()).len() <= 0xFFFF_FFFF,
    ensures
        views(r@) == inner_blocks::<V, C, L>(of),
{
    let mut blocks: Vec<Vec<V>> = Vec::new();
    let mut base: usize = 0;
    let mut i: usize = 0;
    while i < nodes.len()
        invariant
            i <= nodes.len(),
            refers_to(nodes@, of),
            blocks_below(of, of.len()).len() <= 0xFFFF_FFFF,
            base == blocks_below(of, i as nat).len(),
            blocks@.len() == i,
            forall|k: int| 0 <= k < i ==> (#[trigger] blocks@[k])@ == inner_blocks::<V, C, L>(of)[k],
        decreases nodes.len() - i,
    {
        let node = nodes[i];
        proof {
            lemma_blocks_below_grow(of, (i + 1) as nat, of.len());
        }
        let cells: Vec<V> = inner_block::<V, C>(&node.data, base);
        let added: usize = count_children(&node.data);
        blocks.push(cells);
        base = base + added;
        i = i + 1;
    }
    assert(views(blocks@) =~= inner_blocks::<V, C, L>(of));
    blocks
}

/// The number of children of a node.
fn count_children<C>(data: &Vec<InternalData<C>>) -> (r: usize)
    ensures
        r == children(data@, data@.len()).len(),
{
    let mut r: usize = 0;
    let mut o: usize = 0;
    while o < data.len()
        invariant
            o <= data.len(),
            r == children(data@, o as nat).len(),
            r <= o,
        decreases data.len() - o,
    {
        match &data[o] {
            InternalData::Tile(_) => {},
            InternalData::Node(_) => {
                r = r + 1;
            },
        }
        o = o + 1;
    }
    r
}

/// The atlas cells of each of the given leaves.
fn leaf_block_list<V: From4LeBytes + Copy>(nodes: &Vec<&N3<V>>, Ghost(of): Ghost<Seq<N3<V>>>) -> (r: Vec<
    Vec<V>,
>)
    requires
        refers_to(nodes@, of),
    ensures
        views(r@) == leaf_blocks(of),
{
    let mut blocks: Vec<Vec<V>> = Vec::new();
    let mut i: usize = 0;
    while i < nodes.len()
        invariant
            i <= nodes.len(),
            refers_to(nodes@, of),
            blocks@.len() == i,
            forall|k: int| 0 <= k < i ==> (#[trigger] blocks@[k])@ == leaf_blocks(of)[k],
        decreases nodes.len() - i,
    {
        blocks.push(leaf_block(nodes[i]));
        i = i + 1;
    }
    assert(views(blocks@) =~= leaf_blocks(of));
    blocks
}

/// Whether `side` is the least number whose cube is at least `n`.
pub open spec fn is_side(side: int, n: int) -> bool {
    &&& 0 <= side
    &&& side * side * side >= n
    &&& (side == 0 || (side - 1) * (side - 1) * (side - 1) < n)
}

/// Whether `atlas` is the smallest cube of slots that holds `blocks`, slot
/// by slot, with blocks of `2^log2_d` cells a side.
pub open spec fn is_atlas_of<V: From4LeBytes>(
    atlas: Seq<Vec<Vec<V>>>,
    blocks: Seq<Seq<V>>,
    log2_d: nat,
) -> bool {
    let side = atlas.len() as int / (pow2(log2_d) as int);
    is_side(side, blocks.len() as int) && is_atlas(atlas, blocks, log2_d, side)
}

/// The blocks of a well-formed root are well-formed.
pub proof fn lemma_n5_blocks_wf<V>(map: Seq<(GlobalCoordinates, RootData<N5<V>>)>, n: nat)
    requires
        n <= map.len(),
        forall|i: int| 0 <= i < map.len() ==> root_entry_wf((#[trigger] map[i]).1),
    ensures
        all_wf(n5_blocks(map, n)),
    decreases n,
{
    if n > 0 {
        lemma_n5_blocks_wf(map, (n - 1) as nat);
        assert(root_entry_wf(map[n - 1].1));
    }
}

/// The children of well-formed inner nodes are well-formed.
pub proof fn lemma_blocks_below_wf<C: Node, const L: u32>(parents: Seq<InternalNode<C, L>>, n: nat)
    requires
        n <= parents.len(),
        all_wf(parents),
    ensures
        all_wf(blocks_below(parents, n)),
    decreases n,
{
    if n > 0 {
        lemma_blocks_below_wf(parents, (n - 1) as nat);
        assert(parents[n - 1].wf());
        lemma_children_wf(parents[n - 1].data@, parents[n - 1].data@.len());
    }
}

/// Lays the blocks out in the smallest cube of slots that holds them.
fn pack_level<V: From4LeBytes + Copy>(blocks: &Vec<Vec<V>>, log2_d: u32) -> (r: Vec<Vec<Vec<V>>>)
    requires
        1 <= log2_d <= 5,
        blocks.len() <= 0xFFFF_FFFF,
        forall|k: int| 0 <= k < blocks.len() ==> (#[trigger] blocks[k])@.len() == level_size(log2_d as nat),
    ensures
        is_atlas_of(r@, views(blocks@), log2_d as nat),
{
    let side: usize = closest_power_of_3(blocks.len());
    let r = pack_blocks(blocks, log2_d, side);
    proof {
        lemma_shape_powers(log2_d as nat, log2_d as nat);
        vstd::arithmetic::div_mod::lemma_div_by_multiple(side as int, pow2(log2_d as nat) as int);
    }
    r
}

impl<V: Copy + From4LeBytes> VDB<V, N5<V>> {
    /// Whether an atlas cell can hold the index of every block: no level
    /// has more blocks than a 32-bit number counts.
    pub open spec fn fits_atlas(&self) -> bool {
        &&& self.spec_count_nodes().0 <= 0xFFFF_FFFF
        &&& self.spec_count_nodes().1 <= 0xFFFF_FFFF
        &&& self.spec_count_nodes().2 <= 0xFFFF_FFFF
    }

    /// The three node atlases of any well-formed tree, or nothing where a
    /// level has more blocks than an atlas cell can index.
    #[verifier::rlimit(40)]
    pub fn checked_atlas(&self) -> (r: Option<[Vec<Vec<Vec<V>>>; 3]>)
        requires
            self.wf(),
        ensures
            match r {
                Some(atlas) => self.fits_atlas() && is_atlas_of(
                    atlas[0]@,
                    inner_blocks::<V, N4<V>, 5>(tree_n5(self.root)),
                    5,
                ) && is_atlas_of(atlas[1]@, inner_blocks::<V, N3<V>, 4>(tree_n4(self.root)), 4)
                    && is_atlas_of(atlas[2]@, leaf_blocks(tree_n3(self.root)), 3),
                None => !self.fits_atlas(),
            },
    {
        let counts = self.count_nodes();
        if counts[0] > 0xFFFF_FFFF || counts[1] > 0xFFFF_FFFF || counts[2] > 0xFFFF_FFFF {
            return None;
        }
        Some(self.atlas())
    }

    /// The three node atlases: of the level-5 blocks, of the level-4 blocks
    /// and of the leaves. Each is the smallest cube of slots that holds the
    /// blocks of its level in traversal order. A cell of an inner block
    /// holds the tile of its entry, or the index of the entry's child in the
    /// atlas of the next level; a cell of a leaf holds its value or marker;
    /// a cell of a free slot holds zero.
    #[verifier::rlimit(40)]
    pub fn atlas(&self) -> (r: [Vec<Vec<Vec<V>>>; 3])
        requires
            self.wf(),
            self.fits_atlas(),
        ensures
            is_atlas_of(r[0]@, inner_blocks::<V, N4<V>, 5>(tree_n5(self.root)), 5),
            is_atlas_of(r[1]@, inner_blocks::<V, N3<V>, 4>(tree_n4(self.root)), 4),
            is_atlas_of(r[2]@, leaf_blocks(tree_n3(self.root)), 3),
    {
        let n5 = collect_n5(&self.root);
        let n4 = collect_below(&n5, Ghost(tree_n5(self.root)));
        let n3 = collect_below(&n4, Ghost(tree_n4(self.root)));
        proof {
            lemma2_to64();
            lemma_n5_blocks_wf(self.root.map@, self.root.map@.len());
            lemma_blocks_below_wf(tree_n5(self.root), tree_n5(self.root).len());
            lemma_blocks_below_wf(tree_n4(self.root), tree_n4(self.root).len());
        }
        let blocks5: Vec<Vec<V>> = inner_block_list::<V, N4<V>, 5>(&n5, Ghost(tree_n5(self.root)));
        let blocks4: Vec<Vec<V>> = inner_block_list::<V, N3<V>, 4>(&n4, Ghost(tree_n4(self.root)));
        let blocks3: Vec<Vec<V>> = leaf_block_list::<V>(&n3, Ghost(tree_n3(self.root)));
        proof {
            assert(views(blocks5@).len() == blocks5.len());
            assert(views(blocks4@).len() == blocks4.len());
            assert(views(blocks3@).len() == blocks3.len());
            assert(inner_blocks::<V, N4<V>, 5>(tree_n5(self.root)).len() == tree_n5(self.root).len());
            assert(inner_blocks::<V, N3<V>, 4>(tree_n4(self.root)).len() == tree_n4(self.root).len());
            assert(leaf_blocks(tree_n3(self.root)).len() == tree_n3(self.root).len());
            assert forall|k: int| 0 <= k < blocks5.len() implies (#[trigger] blocks5[k])@.len()
                == level_size(5) by {
                assert(views(blocks5@)[k] == blocks5[k]@);
                assert(tree_n5(self.root)[k].wf());
            }
            assert forall|k: int| 0 <= k < blocks4.len() implies (#[trigger] blocks4[k])@.len()
                == level_size(4) by {
                assert(views(blocks4@)[k] == blocks4[k]@);
                assert(tree_n4(self.root)[k].wf());
            }
            assert forall|k: int| 0 <= k < blocks3.len() implies (#[trigger] blocks3[k])@.len()
                == level_size(3) by {
                assert(views(blocks3@)[k] == blocks3[k]@);
                assert(tree_n3(self.root)[k].wf());
            }
        }
        let n5_atlas = pack_level(&blocks5, 5);
        let n4_atlas = pack_level(&blocks4, 4);
        let n3_atlas = pack_level(&blocks3, 3);
        [n5_atlas, n4_atlas, n3_atlas]
    }
}

/// Only one number is the least one whose cube is at least `n`.
pub proof fn lemma_side_unique(a: int, b: int, n: int)
    requires
        is_side(a, n),
        is_side(b, n),
    ensures
        a == b,
{
    if a < b {
        assert(a * a * a <= (b - 1) * (b - 1) * (b - 1)) by (nonlinear_arith)
            requires
                0 <= a <= b - 1,
        ;
    } else if b < a {
        assert(b * b * b <= (a - 1) * (a - 1) * (a - 1)) by (nonlinear_arith)
            requires
                0 <= b <= a - 1,
        ;
    }
}

/// The outputs of the packer are determined by the tree: two atlases of
/// the same blocks have the same size and hold the same value in every
/// cell, and two mask lists of the same masks hold the same words.
pub proof fn law_atlas_determinism<V: From4LeBytes>(
    a: Seq<Vec<Vec<V>>>,
    b: Seq<Vec<Vec<V>>>,
    blocks: Seq<Seq<V>>,
    log2_d: nat,
    first: Seq<Vec<u32>>,
    second: Seq<Vec<u32>>,
    masks: Seq<Seq<u64>>,
)
    requires
        is_atlas_of(a, blocks, log2_d),
        is_atlas_of(b, blocks, log2_d),
        masks_are(first, masks),
        masks_are(second, masks),
    ensures
        a.len() == b.len(),
        forall|x: int| 0 <= x < a.len() ==> (#[trigger] a[x])@.len() == b[x]@.len(),
        forall|x: int, y: int|
            0 <= x < a.len() && 0 <= y < a.len() ==> (#[trigger] a[x]@[y])@.len() == b[x]@[y]@.len(),
        forall|x: int, y: int, z: int|
            0 <= x < a.len() && 0 <= y < a.len() && 0 <= z < a.len() ==> #[trigger] a[x]@[y]@[z]
                == b[x]@[y]@[z],
        first.len() == second.len(),
        forall|k: int| 0 <= k < first.len() ==> (#[trigger] first[k])@ == second[k]@,
{
    let d = pow2(log2_d) as int;
    lemma_side_unique(a.len() as int / d, b.len() as int / d, blocks.len() as int);
}

} // verus!
