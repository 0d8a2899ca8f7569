//! Point access: reading and writing single voxels of a 5-4-3 tree.

use vstd::prelude::*;
use vstd::arithmetic::power2::lemma2_to64;
use crate::coords::{GlobalCoordinates, Offset, spec_global_to_node};
use crate::descriptor::{Compression, GridDescriptor, Metadata};
use crate::node::{InternalData, InternalNode, LeafData, Node, entry_wf};
use crate::bits::{set_bit, clear_bit, mask_bit, count_ones, with_bit, without_bit, zero_mask,
    lemma_bit_twice};
use crate::value::{From4LeBytes, value_of_word, word_to_value};
use crate::tree::{N3, N4, N5, VDB, VdbEndpoint, RootData, RootNode, key5, off3, off4, off5,
    root_entry_wf};

verus! {

/// What a lookup of `q` in a leaf ends on.
pub open spec fn leaf_get<V>(leaf: N3<V>, q: GlobalCoordinates) -> VdbEndpoint<V> {
    match leaf.data[off3(q)] {
        LeafData::Tile(marker) => VdbEndpoint::Offs(marker),
        LeafData::Value(v) => VdbEndpoint::Leaf(v),
    }
}

/// What a lookup of `q` in a level-4 block ends on.
pub open spec fn n4_get<V>(node: N4<V>, q: GlobalCoordinates) -> VdbEndpoint<V> {
    match node.data[off4(q)] {
        InternalData::Node(leaf) => leaf_get(*leaf, q),
        InternalData::Tile(t) => VdbEndpoint::Innr(t, 4),
    }
}

/// What a lookup of `q` in a level-5 block ends on.
pub open spec fn n5_get<V>(node: N5<V>, q: GlobalCoordinates) -> VdbEndpoint<V> {
    match node.data[off5(q)] {
        InternalData::Node(child) => n4_get(*child, q),
        InternalData::Tile(t) => VdbEndpoint::Innr(t, 5),
    }
}

/// What a lookup of `q` from the root ends on.
pub open spec fn root_get<V>(root: RootNode<V, N5<V>>, q: GlobalCoordinates) -> VdbEndpoint<V> {
    match root.entry(key5(q)) {
        None => VdbEndpoint::Bkgr(root.background),
        Some(RootData::Tile(t, _)) => VdbEndpoint::Root(t),
        Some(RootData::Node(node)) => n5_get(*node, q),
    }
}

/// The endpoint of `q` after a write of `v` at `p` into the leaf that holds
/// both, where `before` was its endpoint.
pub open spec fn in_leaf<V>(
    before: VdbEndpoint<V>,
    p: GlobalCoordinates,
    q: GlobalCoordinates,
    v: V,
) -> VdbEndpoint<V> {
    if off3(q) == off3(p) {
        VdbEndpoint::Leaf(v)
    } else {
        match before {
            VdbEndpoint::Offs(_) | VdbEndpoint::Leaf(_) => before,
            _ => VdbEndpoint::Offs(0),
        }
    }
}

/// The same for the level-4 block that holds both: an entry that was no
/// leaf becomes a leaf where `p` lies, and is seen as a zero tile elsewhere
/// in a block that the write created.
pub open spec fn in_n4<V>(
    before: VdbEndpoint<V>,
    p: GlobalCoordinates,
    q: GlobalCoordinates,
    v: V,
) -> VdbEndpoint<V> {
    if off4(q) == off4(p) {
        in_leaf(before, p, q, v)
    } else {
        match before {
            VdbEndpoint::Offs(_) | VdbEndpoint::Leaf(_) => before,
            VdbEndpoint::Innr(_, level) if level == 4 => before,
            _ => VdbEndpoint::Innr(0, 4),
        }
    }
}

/// The same for the level-5 block that holds both.
pub open spec fn in_n5<V>(
    before: VdbEndpoint<V>,
    p: GlobalCoordinates,
    q: GlobalCoordinates,
    v: V,
) -> VdbEndpoint<V> {
    if off5(q) == off5(p) {
        in_n4(before, p, q, v)
    } else {
        match before {
            VdbEndpoint::Bkgr(_) | VdbEndpoint::Root(_) => VdbEndpoint::Innr(0, 5),
            _ => before,
        }
    }
}

/// The endpoint of any point `q` after a write of `v` at `p`, where `before`
/// was its endpoint: unchanged under another root key; under the same key
/// the blocks on the way to `p` now exist, and `p` itself holds `v`.
pub open spec fn after_set<V>(
    before: VdbEndpoint<V>,
    p: GlobalCoordinates,
    q: GlobalCoordinates,
    v: V,
) -> VdbEndpoint<V> {
    if key5(q) == key5(p) {
        in_n5(before, p, q, v)
    } else {
        before
    }
}

/// The origin of the level-4 block that holds `p`.
pub open spec fn key4(p: GlobalCoordinates) -> GlobalCoordinates {
    GlobalCoordinates {
        x: spec_global_to_node(7, p).0 as i32,
        y: spec_global_to_node(7, p).1 as i32,
        z: spec_global_to_node(7, p).2 as i32,
    }
}

/// The child that an entry holds, if it holds one.
pub open spec fn child_of<C>(entry: InternalData<C>) -> Option<C> {
    match entry {
        InternalData::Node(child) => Some(*child),
        InternalData::Tile(_) => None,
    }
}

/// Whether `after` is the leaf `before` with `v` written at `p`, where
/// `before` is nothing if the write made the leaf: the cell of `p` holds
/// `v` and its mask bit is set; every other cell, every other bit and the
/// flags are as they were, or as a leaf without values has them.
pub open spec fn leaf_written<V>(before: Option<N3<V>>, after: N3<V>, p: GlobalCoordinates, v: V) -> bool {
    let data = match before {
        Some(b) => b.data@,
        None => Seq::new(512, |i: int| LeafData::<V>::Tile(0)),
    };
    let mask = match before {
        Some(b) => b.value_mask@,
        None => zero_mask(8),
    };
    let flags = match before {
        Some(b) => b.flags,
        None => 0,
    };
    &&& after.data@ == data.update(off3(p), LeafData::Value(v))
    &&& after.value_mask@ == with_bit(mask, off3(p))
    &&& after.flags == flags
}

/// Whether `after` is the level-4 block `before` with `v` written at `p`,
/// where `before` is nothing if the write made the block, at the origin
/// of the level-4 block of `p`: the entry of `p` is the written leaf, its
/// child bit is set and its value bit clear; every other entry and bit
/// and the origin are as they were, or as a block without children has
/// them.
pub open spec fn n4_written<V>(before: Option<N4<V>>, after: N4<V>, p: GlobalCoordinates, v: V) -> bool {
    let data = match before {
        Some(b) => b.data@,
        None => Seq::new(4096, |i: int| InternalData::<N3<V>>::Tile(0)),
    };
    let kids = match before {
        Some(b) => b.child_mask@,
        None => zero_mask(64),
    };
    let vals = match before {
        Some(b) => b.value_mask@,
        None => zero_mask(64),
    };
    let origin = match before {
        Some(b) => b.origin,
        None => key4(p),
    };
    &&& after.origin == origin
    &&& after.child_mask@ == with_bit(kids, off4(p))
    &&& after.value_mask@ == without_bit(vals, off4(p))
    &&& after.data@.len() == 4096
    &&& forall|i: int| 0 <= i < 4096 && i != off4(p) ==> #[trigger] after.data@[i] == data[i]
    &&& after.data@[off4(p)] matches InternalData::Node(leaf) && leaf_written(
        child_of(data[off4(p)]),
        *leaf,
        p,
        v,
    )
}

/// The same for a level-5 block, which the write makes at the key of `p`.
pub open spec fn n5_written<V>(before: Option<N5<V>>, after: N5<V>, p: GlobalCoordinates, v: V) -> bool {
    let data = match before {
        Some(b) => b.data@,
        None => Seq::new(32768, |i: int| InternalData::<N4<V>>::Tile(0)),
    };
    let kids = match before {
        Some(b) => b.child_mask@,
        None => zero_mask(512),
    };
    let vals = match before {
        Some(b) => b.value_mask@,
        None => zero_mask(512),
    };
    let origin = match before {
        Some(b) => b.origin,
        None => key5(p),
    };
    &&& after.origin == origin
    &&& after.child_mask@ == with_bit(kids, off5(p))
    &&& after.value_mask@ == without_bit(vals, off5(p))
    &&& after.data@.len() == 32768
    &&& forall|i: int| 0 <= i < 32768 && i != off5(p) ==> #[trigger] after.data@[i] == data[i]
    &&& after.data@[off5(p)] matches InternalData::Node(child) && n4_written(
        child_of(data[off5(p)]),
        *child,
        p,
        v,
    )
}

/// The block that a root entry holds, if it holds one.
pub open spec fn block_of<C>(entry: Option<RootData<C>>) -> Option<C> {
    match entry {
        Some(RootData::Node(block)) => Some(*block),
        _ => None,
    }
}

/// The offsets of any point lie inside the blocks of their levels.
pub proof fn lemma_offsets_in_range(q: GlobalCoordinates)
    ensures
        0 <= off3(q) < 512,
        0 <= off4(q) < 4096,
        0 <= off5(q) < 32768,
        crate::node::level_size(3) == 512,
        crate::node::level_size(4) == 4096,
        crate::node::level_size(5) == 32768,
{
    lemma2_to64();
    crate::coords::lemma_axis_child_range(3, 3, q.x as int);
    crate::coords::lemma_axis_child_range(3, 3, q.y as int);
    crate::coords::lemma_axis_child_range(3, 3, q.z as int);
    crate::coords::lemma_axis_child_range(4, 7, q.x as int);
    crate::coords::lemma_axis_child_range(4, 7, q.y as int);
    crate::coords::lemma_axis_child_range(4, 7, q.z as int);
    crate::coords::lemma_axis_child_range(5, 12, q.x as int);
    crate::coords::lemma_axis_child_range(5, 12, q.y as int);
    crate::coords::lemma_axis_child_range(5, 12, q.z as int);
    crate::coords::lemma_cell_offset(
        3,
        crate::coords::axis_child(3, 3, q.x as int),
        crate::coords::axis_child(3, 3, q.y as int),
        crate::coords::axis_child(3, 3, q.z as int),
    );
    crate::coords::lemma_cell_offset(
        4,
        crate::coords::axis_child(4, 7, q.x as int),
        crate::coords::axis_child(4, 7, q.y as int),
        crate::coords::axis_child(4, 7, q.z as int),
    );
    crate::coords::lemma_cell_offset(
        5,
        crate::coords::axis_child(5, 12, q.x as int),
        crate::coords::axis_child(5, 12, q.y as int),
        crate::coords::axis_child(5, 12, q.z as int),
    );
}

/// Writes `v` at `p` into the level-4 block that holds `p`, creating the
/// leaf where the entry was a tile.
#[verifier::rlimit(40)]
pub fn set_in_n4<V>(node: &mut N4<V>, p: GlobalCoordinates, v: V)
    requires
        old(node).wf(),
    ensures
        final(node).wf(),
        final(node).origin == old(node).origin,
        forall|q: GlobalCoordinates|
            #[trigger] n4_get(*final(node), q) == in_n4(n4_get(*old(node), q), p, q, v),
        n4_written(Some(*old(node)), *final(node), p, v),
{
    proof {
        lemma_offsets_in_range(p);
    }
    let ghost before = *node;
    let off: Offset = <N4<V>>::global_to_offset(p);
    let cell: Offset = <N3<V>>::global_to_offset(p);
    let mut entry: InternalData<N3<V>> = InternalData::Tile(0);
    core::mem::swap(&mut node.data[off], &mut entry);
    assert(entry == before.data[off as int]);
    let mut leaf: N3<V> = match entry {
        InternalData::Node(l) => *l,
        InternalData::Tile(_) => <N3<V>>::new(),
    };
    let ghost leaf_before = leaf;
    assert(leaf.wf()) by {
        assert(entry_wf(before.data[off as int]));
    }
    assert(before.data[off as int] is Tile ==> leaf.data@ =~= Seq::new(
        512,
        |i: int| LeafData::<V>::Tile(0),
    ));
    leaf.set_value(cell, v);
    let ghost leaf_after = leaf;
    node.data.set(off, InternalData::Node(Box::new(leaf)));
    set_bit(&mut node.child_mask, off);
    clear_bit(&mut node.value_mask, off);
    proof {
        assert(node.data@ == before.data@.update(off as int, InternalData::Node(Box::new(leaf_after))));
        assert forall|i: int| 0 <= i < leaf_after.data.len() implies (mask_bit(
            leaf_after.value_mask@,
            i,
        ) <==> #[trigger] leaf_after.data[i] is Value) by {
            if i != cell {
                assert(mask_bit(leaf_before.value_mask@, i) <==> leaf_before.data[i] is Value);
            }
        }
        assert(leaf_after.wf());
        assert forall|i: int| 0 <= i < node.data.len() implies entry_wf(#[trigger] node.data[i]) by {
            if i != off {
                assert(entry_wf(before.data[i]));
            }
        }
        assert forall|i: int| 0 <= i < node.data.len() implies (mask_bit(node.child_mask@, i)
            <==> #[trigger] node.data[i] is Node) by {
            if i != off {
                assert(mask_bit(before.child_mask@, i) <==> before.data[i] is Node);
            }
        }
        assert(node.wf());
        assert forall|q: GlobalCoordinates| #[trigger]
            n4_get(*node, q) == in_n4(n4_get(before, q), p, q, v) by {
            lemma_offsets_in_range(q);
            if off4(q) == off4(p) {
                assert(n4_get(*node, q) == leaf_get(leaf_after, q));
                if off3(q) != off3(p) {
                    assert(leaf_after.data[off3(q)] == leaf_before.data[off3(q)]);
                }
                match before.data[off as int] {
                    InternalData::Node(c) => {
                        assert(n4_get(before, q) == leaf_get(leaf_before, q));
                    },
                    InternalData::Tile(t) => {
                        assert(n4_get(before, q) == VdbEndpoint::<V>::Innr(t, 4));
                        assert(leaf_get(leaf_before, q) == VdbEndpoint::<V>::Offs(0));
                    },
                }
            } else {
                assert(node.data[off4(q)] == before.data[off4(q)]);
            }
        }
    }
}

/// Writes `v` at `p` into the level-5 block that holds `p`, creating the
/// level-4 block where the entry was a tile.
#[verifier::rlimit(40)]
pub fn set_in_n5<V>(node: &mut N5<V>, p: GlobalCoordinates, v: V)
    requires
        old(node).wf(),
    ensures
        final(node).wf(),
        final(node).origin == old(node).origin,
        forall|q: GlobalCoordinates|
            #[trigger] n5_get(*final(node), q) == in_n5(n5_get(*old(node), q), p, q, v),
        n5_written(Some(*old(node)), *final(node), p, v),
{
    proof {
        lemma_offsets_in_range(p);
    }
    let ghost before = *node;
    let off: Offset = <N5<V>>::global_to_offset(p);
    let mut entry: InternalData<N4<V>> = InternalData::Tile(0);
    core::mem::swap(&mut node.data[off], &mut entry);
    assert(entry == before.data[off as int]);
    let mut child: N4<V> = match entry {
        InternalData::Node(c) => *c,
        InternalData::Tile(_) => <N4<V>>::new(<N4<V>>::global_to_node(p)),
    };
    let ghost child_before = child;
    assert(child.wf()) by {
        assert(crate::node::entry_wf(before.data[off as int]));
    }
    assert(before.data[off as int] is Tile ==> child.data@ =~= Seq::new(
        4096,
        |i: int| InternalData::<N3<V>>::Tile(0),
    ) && child.origin == key4(p)) by {
        crate::coords::lemma_axis_origin_range(7, p.x as int);
        crate::coords::lemma_axis_origin_range(7, p.y as int);
        crate::coords::lemma_axis_origin_range(7, p.z as int);
    }
    set_in_n4(&mut child, p, v);
    let ghost child_after = child;
    node.data.set(off, InternalData::Node(Box::new(child)));
    set_bit(&mut node.child_mask, off);
    clear_bit(&mut node.value_mask, off);
    proof {
        assert(node.data@ == before.data@.update(off as int, InternalData::Node(Box::new(child_after))));
        assert forall|i: int| 0 <= i < node.data.len() implies crate::node::entry_wf(
            #[trigger] node.data[i],
        ) by {
            if i != off {
                assert(crate::node::entry_wf(before.data[i]));
            }
        }
        assert forall|i: int| 0 <= i < node.data.len() implies (crate::bits::mask_bit(
            node.child_mask@,
            i,
        ) <==> #[trigger] node.data[i] is Node) by {
            if i != off {
                assert(crate::bits::mask_bit(before.child_mask@, i) <==> before.data[i] is Node);
            }
        }
        assert(node.wf());
        assert forall|q: GlobalCoordinates| #[trigger]
            n5_get(*node, q) == in_n5(n5_get(before, q), p, q, v) by {
            lemma_offsets_in_range(q);
            if off5(q) == off5(p) {
                assert(n5_get(*node, q) == n4_get(child_after, q));
                assert(n4_get(child_after, q) == in_n4(n4_get(child_before, q), p, q, v));
                match before.data[off as int] {
                    InternalData::Node(c) => {
                        assert(n5_get(before, q) == n4_get(child_before, q));
                    },
                    InternalData::Tile(t) => {
                        assert(n5_get(before, q) == VdbEndpoint::<V>::Innr(t, 5));
                        assert(n4_get(child_before, q) == VdbEndpoint::<V>::Innr(0, 4));
                    },
                }
            } else {
                assert(node.data[off5(q)] == before.data[off5(q)]);
            }
        }
    }
}

/// In a well-formed root the entry at the key of any of its positions is
/// the entry at that position.
pub proof fn lemma_entry_at<V>(root: RootNode<V, N5<V>>, i: int)
    requires
        root.wf(),
        0 <= i < root.map.len(),
    ensures
        root.has_key(root.map[i].0),
        root.entry(root.map[i].0) == Some(root.map[i].1),
{
    let key = root.map[i].0;
    let j = root.index_of(key);
    if j < i {
        assert(crate::tree::key_lt(root.map[j].0, root.map[i].0));
    } else if i < j {
        assert(crate::tree::key_lt(root.map[i].0, root.map[j].0));
    }
}

/// Two well-formed roots with the same keys have them at the same places:
/// among their first `i` entries, and the second root has that many.
#[verifier::rlimit(40)]
pub proof fn lemma_same_keys<V>(a: RootNode<V, N5<V>>, b: RootNode<V, N5<V>>, i: nat)
    requires
        a.wf(),
        b.wf(),
        forall|key: GlobalCoordinates| a.has_key(key) == b.has_key(key),
        i <= a.map.len(),
    ensures
        i <= b.map.len(),
        forall|j: int| 0 <= j < i ==> (#[trigger] a.map[j]).0 == b.map[j].0,
    decreases i,
{
    if i > 0 {
        lemma_same_keys(a, b, (i - 1) as nat);
        let m = (i - 1) as int;
        let k = a.map[m].0;
        assert(a.has_key(k));
        assert(b.has_key(k));
        let j = b.index_of(k);
        if j < m {
            assert(a.map[j].0 == b.map[j].0);
            assert(crate::tree::key_lt(a.map[j].0, a.map[m].0));
        }
        let k2 = b.map[m].0;
        assert(b.has_key(k2));
        assert(a.has_key(k2));
        let j2 = a.index_of(k2);
        if j2 < m {
            assert(a.map[j2].0 == b.map[j2].0);
            assert(crate::tree::key_lt(b.map[j2].0, b.map[m].0));
        }
        if j > m {
            assert(crate::tree::key_lt(b.map[m].0, b.map[j].0));
            if j2 > m {
                assert(crate::tree::key_lt(a.map[m].0, a.map[j2].0));
            }
        }
    }
}

/// An entry put in at a new key leaves the entry at every other key as
/// it was.
pub proof fn lemma_entry_after_insert<V>(
    a: RootNode<V, N5<V>>,
    b: RootNode<V, N5<V>>,
    idx: int,
    k: GlobalCoordinates,
)
    requires
        a.wf(),
        b.wf(),
        0 <= idx <= a.map.len(),
        b.map.len() == a.map.len() + 1,
        b.map@ == a.map@.insert(idx, b.map[idx]),
        k != b.map[idx].0,
    ensures
        a.entry(k) == b.entry(k),
        a.has_key(k) == b.has_key(k),
{
    if a.has_key(k) {
        let i = a.index_of(k);
        let j = if i < idx { i } else { i + 1 };
        assert(b.map[j] == a.map[i]);
        lemma_entry_at(a, i);
        lemma_entry_at(b, j);
    } else if b.has_key(k) {
        let j = b.index_of(k);
        let i = if j < idx { j } else { j - 1 };
        assert(b.map[j] == a.map[i]);
        lemma_entry_at(b, j);
        lemma_entry_at(a, i);
    }
}

/// An entry replaced under its key leaves the entry at every other key as
/// it was.
pub proof fn lemma_entry_after_update<V>(
    a: RootNode<V, N5<V>>,
    b: RootNode<V, N5<V>>,
    idx: int,
    k: GlobalCoordinates,
)
    requires
        a.wf(),
        b.wf(),
        0 <= idx < a.map.len(),
        b.map@ == a.map@.update(idx, b.map[idx]),
        b.map[idx].0 == a.map[idx].0,
        k != b.map[idx].0,
    ensures
        a.entry(k) == b.entry(k),
        a.has_key(k) == b.has_key(k),
{
    if a.has_key(k) {
        let i = a.index_of(k);
        assert(b.map[i] == a.map[i]);
        lemma_entry_at(a, i);
        lemma_entry_at(b, i);
    } else if b.has_key(k) {
        let j = b.index_of(k);
        assert(b.map[j] == a.map[j]);
        lemma_entry_at(b, j);
        lemma_entry_at(a, j);
    }
}

/// Whether every key is the origin of a level-5 block.
pub open spec fn keys_are_origins<V>(map: Seq<(GlobalCoordinates, RootData<N5<V>>)>) -> bool {
    forall|i: int| 0 <= i < map.len() ==> key5((#[trigger] map[i]).0) == map[i].0
}

/// Puts `data` at `key`, in place of the entry that was there if there was
/// one; the entry at every other key stays.
#[verifier::rlimit(40)]
pub fn insert_entry<V>(root: &mut RootNode<V, N5<V>>, key: GlobalCoordinates, data: RootData<N5<V>>)
    requires
        old(root).wf(),
        root_entry_wf(data),
        keys_are_origins(old(root).map@),
        key5(key) == key,
    ensures
        final(root).wf(),
        keys_are_origins(final(root).map@),
        final(root).background == old(root).background,
        final(root).entry(key) == Some(data),
        forall|k: GlobalCoordinates|
            k != key ==> final(root).entry(k) == old(root).entry(k) && final(root).has_key(k) == old(
                root,
            ).has_key(k),
{
    let ghost before = *root;
    match root.find(key) {
        Ok(i) => {
            root.map.set(i, (key, data));
            proof {
                let after = *root;
                assert forall|a: int, b: int| 0 <= a < b < after.map.len() implies crate::tree::key_lt(
                    #[trigger] after.map[a].0,
                    #[trigger] after.map[b].0,
                ) by {
                    assert(after.map[a].0 == before.map[a].0);
                    assert(after.map[b].0 == before.map[b].0);
                }
                assert forall|a: int| 0 <= a < after.map.len() implies root_entry_wf(
                    (#[trigger] after.map[a]).1,
                ) && key5(after.map[a].0) == after.map[a].0 by {
                    if a != i {
                        assert(after.map[a] == before.map[a]);
                    }
                }
                lemma_entry_at(after, i as int);
                assert forall|k: GlobalCoordinates| k != key implies after.entry(k) == before.entry(k)
                    && after.has_key(k) == before.has_key(k) by {
                    lemma_entry_after_update(before, after, i as int, k);
                }
            }
        },
        Err(i) => {
            root.map.insert(i, (key, data));
            proof {
                let after = *root;
                assert(after.map@ == before.map@.insert(i as int, (key, data)));
                assert forall|a: int, b: int| 0 <= a < b < after.map.len() implies crate::tree::key_lt(
                    #[trigger] after.map[a].0,
                    #[trigger] after.map[b].0,
                ) by {
                    if a < i && b > i {
                        assert(after.map[a] == before.map[a]);
                        assert(after.map[b] == before.map[b - 1]);
                    } else if a < i && b < i {
                        assert(after.map[a] == before.map[a]);
                        assert(after.map[b] == before.map[b]);
                    } else if a > i {
                        assert(after.map[a] == before.map[a - 1]);
                        assert(after.map[b] == before.map[b - 1]);
                    } else if a == i {
                        assert(after.map[b] == before.map[b - 1]);
                    } else {
                        assert(after.map[a] == before.map[a]);
                    }
                }
                assert forall|a: int| 0 <= a < after.map.len() implies root_entry_wf(
                    (#[trigger] after.map[a]).1,
                ) && key5(after.map[a].0) == after.map[a].0 by {
                    if a < i {
                        assert(after.map[a] == before.map[a]);
                    } else if a > i {
                        assert(after.map[a] == before.map[a - 1]);
                    }
                }
                lemma_entry_at(after, i as int);
                assert forall|k: GlobalCoordinates| k != key implies after.entry(k) == before.entry(k)
                    && after.has_key(k) == before.has_key(k) by {
                    lemma_entry_after_insert(before, after, i as int, k);
                }
            }
        },
    }
}

impl<V: Copy> VDB<V, N5<V>> {
    /// The tree is well-formed and every root key is the origin of a
    /// level-5 block.
    pub open spec fn wf(&self) -> bool {
        &&& self.root.wf()
        &&& keys_are_origins(self.root.map@)
    }

    /// What a lookup of `q` ends on.
    pub open spec fn spec_get_voxel(&self, q: GlobalCoordinates) -> VdbEndpoint<V> {
        root_get(self.root, q)
    }

    /// An empty grid: no root entry, and the zero value as background.
    pub fn new() -> (r: Self) where V: From4LeBytes
        ensures
            r.wf(),
            r.root.map@.len() == 0,
            r.root.background == value_of_word::<V>(0),
            r.grid_descriptor.name@ == "Demo"@,
            r.grid_descriptor.instance_parent@ == "What"@,
            r.grid_descriptor.grid_type@ == "Whatt"@,
            r.grid_descriptor.grid_pos == 0,
            r.grid_descriptor.block_pos == 0,
            r.grid_descriptor.end_pos == 0,
            r.grid_descriptor.bbox_min == (GlobalCoordinates { x: 0, y: 0, z: 0 }),
            r.grid_descriptor.compression.bits == 0,
            r.grid_descriptor.meta_data.0@.len() == 0,
            forall|q: GlobalCoordinates| #[trigger]
                r.spec_get_voxel(q) == VdbEndpoint::Bkgr(value_of_word::<V>(0)),
    {
        let root = RootNode::new(word_to_value::<V>(0));
        let grid_descriptor = GridDescriptor {
            name: "Demo".to_owned(),
            instance_parent: "What".to_owned(),
            grid_type: "Whatt".to_owned(),
            grid_pos: 0,
            block_pos: 0,
            end_pos: 0,
            compression: Compression::none(),
            meta_data: Metadata(Vec::new()),
            bbox_min: GlobalCoordinates { x: 0, y: 0, z: 0 },
        };
        VDB { root, grid_descriptor }
    }

    /// Returns what the lookup of `p` ends on: the value of the voxel where
    /// a leaf holds one, else the tile or the background that covers `p`.
    #[verifier::rlimit(40)]
    pub fn get_voxel(&self, p: GlobalCoordinates) -> (r: VdbEndpoint<V>)
        requires
            self.wf(),
        ensures
            r == self.spec_get_voxel(p),
    {
        proof {
            lemma_offsets_in_range(p);
            lemma_key5(p);
        }
        let root_key = <RootNode<V, N5<V>>>::root_key_from_coords(p);
        let idx: usize = match self.root.find(root_key) {
            Ok(i) => i,
            Err(_) => {
                return VdbEndpoint::Bkgr(self.root.background);
            },
        };
        proof {
            lemma_entry_at(self.root, idx as int);
            assert(root_entry_wf(self.root.map[idx as int].1));
        }
        let node5: &N5<V> = match &self.root.map[idx].1 {
            RootData::Node(n) => n,
            RootData::Tile(value, _) => {
                return VdbEndpoint::Root(*value);
            },
        };
        let bit_index_4: Offset = <N5<V>>::global_to_offset(p);
        assert(entry_wf(node5.data[bit_index_4 as int]));
        let node4: &N4<V> = match &node5.data[bit_index_4] {
            InternalData::Node(n) => n,
            InternalData::Tile(value) => {
                return VdbEndpoint::Innr(*value, 5);
            },
        };
        let bit_index_3: Offset = <N4<V>>::global_to_offset(p);
        assert(entry_wf(node4.data[bit_index_3 as int]));
        let node3: &N3<V> = match &node4.data[bit_index_3] {
            InternalData::Node(n) => n,
            InternalData::Tile(value) => {
                return VdbEndpoint::Innr(*value, 4);
            },
        };
        let bit_index_0: Offset = <N3<V>>::global_to_offset(p);
        match &node3.data[bit_index_0] {
            LeafData::Tile(offset) => VdbEndpoint::Offs(*offset),
            LeafData::Value(value) => VdbEndpoint::Leaf(*value),
        }
    }

    /// Sets the voxel at `p` to `v`. The blocks on the way to `p` are
    /// created where they were missing or tiles; every other voxel keeps its
    /// value.
    #[verifier::rlimit(40)]
    pub fn set_voxel(&mut self, p: GlobalCoordinates, v: V)
        requires
            old(self).wf(),
        ensures
            final(self).wf(),
            final(self).root.background == old(self).root.background,
            final(self).grid_descriptor == old(self).grid_descriptor,
            forall|q: GlobalCoordinates| #[trigger]
                final(self).spec_get_voxel(q) == after_set(old(self).spec_get_voxel(q), p, q, v),
            forall|k: GlobalCoordinates|
                final(self).root.has_key(k) <==> (k == key5(p) || old(self).root.has_key(k)),
            forall|k: GlobalCoordinates|
                k != key5(p) ==> final(self).root.entry(k) == old(self).root.entry(k),
            final(self).root.entry(key5(p)) matches Some(RootData::Node(block)) && n5_written(
                block_of(old(self).root.entry(key5(p))),
                *block,
                p,
                v,
            ),
    {
        proof {
            lemma_key5(p);
        }
        let ghost before = self.root;
        let root_key = <RootNode<V, N5<V>>>::root_key_from_coords(p);
        let mut node: N5<V> = take_block(&mut self.root, root_key);
        let ghost mid = self.root;
        let ghost node_before = node;
        set_in_n5(&mut node, p, v);
        let ghost node_after = node;
        insert_entry(&mut self.root, root_key, RootData::Node(Box::new(node)));
        proof {
            let after = self.root;
            assert forall|q: GlobalCoordinates| #[trigger]
                root_get(after, q) == after_set(root_get(before, q), p, q, v) by {
                lemma_set_at(before, after, node_before, node_after, p, q, v);
            }
            assert forall|k: GlobalCoordinates|
                after.has_key(k) <==> (k == key5(p) || before.has_key(k)) by {
                if k != root_key {
                    assert(after.has_key(k) == mid.has_key(k));
                }
            }
        }
    }
}

/// What a lookup of `q` gives after a write into the block at the key of
/// `p`, where every other entry of the root stayed as it was.
pub proof fn lemma_set_at<V>(
    before: RootNode<V, N5<V>>,
    after: RootNode<V, N5<V>>,
    node_before: N5<V>,
    node_after: N5<V>,
    p: GlobalCoordinates,
    q: GlobalCoordinates,
    v: V,
)
    requires
        after.background == before.background,
        after.entry(key5(p)) == Some(RootData::Node(Box::new(node_after))),
        forall|k: GlobalCoordinates| k != key5(p) ==> after.entry(k) == before.entry(k),
        match before.entry(key5(p)) {
            Some(RootData::Node(n)) => node_before == *n,
            _ => node_before.data@ == Seq::new(32768, |i: int| InternalData::<N4<V>>::Tile(0)),
        },
        n5_get(node_after, q) == in_n5(n5_get(node_before, q), p, q, v),
    ensures
        root_get(after, q) == after_set(root_get(before, q), p, q, v),
{
    lemma_offsets_in_range(q);
    if key5(q) == key5(p) {
        match before.entry(key5(p)) {
            Some(RootData::Node(n)) => {},
            _ => {
                assert(n5_get(node_before, q) == VdbEndpoint::<V>::Innr(0, 5));
            },
        }
    }
}

/// Takes the level-5 block at `key` out of the root, where there is one,
/// and leaves a tile in its place; else gives a block without children.
#[verifier::rlimit(40)]
pub fn take_block<V>(root: &mut RootNode<V, N5<V>>, key: GlobalCoordinates) -> (node: N5<V>)
    requires
        old(root).wf(),
        keys_are_origins(old(root).map@),
        key5(key) == key,
    ensures
        final(root).wf(),
        keys_are_origins(final(root).map@),
        final(root).background == old(root).background,
        node.wf(),
        forall|k: GlobalCoordinates|
            k != key ==> final(root).entry(k) == old(root).entry(k) && final(root).has_key(k) == old(
                root,
            ).has_key(k),
        match old(root).entry(key) {
            Some(RootData::Node(n)) => node == *n,
            _ => node.origin == key && node.child_mask@ == zero_mask(512) && node.value_mask@
                == zero_mask(512) && node.data@ == Seq::new(
                32768,
                |i: int| InternalData::<N4<V>>::Tile(0),
            ),
        },
{
    proof {
        lemma2_to64();
    }
    let ghost before = *root;
    match root.find(key) {
        Ok(i) => {
            let mut entry: (GlobalCoordinates, RootData<N5<V>>) = (key, RootData::Tile(0, false));
            core::mem::swap(&mut root.map[i], &mut entry);
            proof {
                let after = *root;
                assert(entry == before.map[i as int]);
                assert(root_entry_wf(before.map[i as int].1));
                lemma_entry_at(before, i as int);
                assert(after.map@ == before.map@.update(i as int, (key, RootData::Tile(0, false))));
                assert forall|a: int, b: int| 0 <= a < b < after.map.len() implies crate::tree::key_lt(
                    #[trigger] after.map[a].0,
                    #[trigger] after.map[b].0,
                ) by {
                    assert(after.map[a].0 == before.map[a].0);
                    assert(after.map[b].0 == before.map[b].0);
                }
                assert forall|a: int| 0 <= a < after.map.len() implies root_entry_wf(
                    (#[trigger] after.map[a]).1,
                ) && key5(after.map[a].0) == after.map[a].0 by {
                    if a != i {
                        assert(after.map[a] == before.map[a]);
                    }
                }
                assert forall|k: GlobalCoordinates| k != key implies after.entry(k) == before.entry(k)
                    && after.has_key(k) == before.has_key(k) by {
                    lemma_entry_after_update(before, after, i as int, k);
                }
            }
            match entry.1 {
                RootData::Node(n) => *n,
                RootData::Tile(_, _) => {
                    let node = <N5<V>>::new(key);
                    assert(node.data@ =~= Seq::new(32768, |i: int| InternalData::<N4<V>>::Tile(0)));
                    node
                },
            }
        },
        Err(_) => {
            let node = <N5<V>>::new(key);
            assert(node.data@ =~= Seq::new(32768, |i: int| InternalData::<N4<V>>::Tile(0)));
            node
        },
    }
}

/// The key of the root entry that covers `p` is a 32-bit position, and it
/// is its own key.
pub proof fn lemma_key5(p: GlobalCoordinates)
    ensures
        spec_global_to_node(12, p) == (key5(p).x as int, key5(p).y as int, key5(p).z as int),
        key5(key5(p)) == key5(p),
        crate::coords::shape_ok(5, 12),
        crate::coords::shape_ok(4, 7),
        crate::coords::shape_ok(3, 3),
{
    crate::coords::lemma_axis_origin_range(12, p.x as int);
    crate::coords::lemma_axis_origin_range(12, p.y as int);
    crate::coords::lemma_axis_origin_range(12, p.z as int);
}

/// A write at `p` is read back at `p`, and changes nothing under another
/// root key.
pub proof fn law_set_then_get<V>(
    before: VdbEndpoint<V>,
    p: GlobalCoordinates,
    q: GlobalCoordinates,
    v: V,
)
    ensures
        after_set(before, p, p, v) == VdbEndpoint::Leaf(v),
        key5(q) != key5(p) ==> after_set(before, p, q, v) == before,
{
}

/// The same write twice is one write, and of two writes at one point the
/// later one stays; a value at another point of the tree is never lost.
pub proof fn law_last_write_wins<V>(
    before: VdbEndpoint<V>,
    p: GlobalCoordinates,
    q: GlobalCoordinates,
    v: V,
    w: V,
)
    ensures
        after_set(after_set(before, p, q, v), p, q, v) == after_set(before, p, q, v),
        after_set(after_set(before, p, q, v), p, q, w) == after_set(before, p, q, w),
        before is Leaf && (key5(q) != key5(p) || off5(q) != off5(p) || off4(q) != off4(p) || off3(q)
            != off3(p)) ==> after_set(before, p, q, v) == before,
{
}

/// Whether two leaves hold the same cells, mask and flags.
pub open spec fn same_leaf<V>(a: N3<V>, b: N3<V>) -> bool {
    a.data@ == b.data@ && a.value_mask@ == b.value_mask@ && a.flags == b.flags
}

/// Whether two level-4 blocks have the same origin and masks and hold the
/// same tiles and, entry by entry, the same leaves.
pub open spec fn same_n4<V>(a: N4<V>, b: N4<V>) -> bool {
    &&& a.origin == b.origin
    &&& a.child_mask@ == b.child_mask@
    &&& a.value_mask@ == b.value_mask@
    &&& a.data@.len() == b.data@.len()
    &&& forall|i: int|
        0 <= i < a.data@.len() ==> match (#[trigger] a.data@[i], b.data@[i]) {
            (InternalData::Tile(x), InternalData::Tile(y)) => x == y,
            (InternalData::Node(x), InternalData::Node(y)) => same_leaf(*x, *y),
            _ => false,
        }
}

/// Whether two level-5 blocks have the same origin and masks and hold the
/// same tiles and, entry by entry, the same level-4 blocks.
pub open spec fn same_n5<V>(a: N5<V>, b: N5<V>) -> bool {
    &&& a.origin == b.origin
    &&& a.child_mask@ == b.child_mask@
    &&& a.value_mask@ == b.value_mask@
    &&& a.data@.len() == b.data@.len()
    &&& forall|i: int|
        0 <= i < a.data@.len() ==> match (#[trigger] a.data@[i], b.data@[i]) {
            (InternalData::Tile(x), InternalData::Tile(y)) => x == y,
            (InternalData::Node(x), InternalData::Node(y)) => same_n4(*x, *y),
            _ => false,
        }
}

/// A level-4 block is the same as itself.
pub proof fn lemma_same_n4_self<V>(a: N4<V>)
    ensures
        same_n4(a, a),
{
}

/// The same write twice is one write: a block that a write of `v` at `p`
/// left, written again with `v` at `p`, is the same block, in every entry,
/// every mask word and every cell.
#[verifier::rlimit(40)]
pub proof fn law_repeated_write<V>(
    first: Option<N5<V>>,
    once: N5<V>,
    twice: N5<V>,
    p: GlobalCoordinates,
    v: V,
)
    requires
        first matches Some(b) ==> b.wf(),
        n5_written(first, once, p, v),
        n5_written(Some(once), twice, p, v),
    ensures
        same_n5(once, twice),
{
    lemma_offsets_in_range(p);
    if first is Some {
        assert(entry_wf(first->Some_0.data@[off5(p)]));
        if first->Some_0.data@[off5(p)] is Node {
            assert(entry_wf(first->Some_0.data@[off5(p)]->Node_0.data@[off4(p)]));
        }
    }
    let i5 = off5(p);
    let i4 = off4(p);
    let i3 = off3(p);
    let kids5 = match first {
        Some(b) => b.child_mask@,
        None => zero_mask(512),
    };
    let vals5 = match first {
        Some(b) => b.value_mask@,
        None => zero_mask(512),
    };
    lemma_bit_twice(kids5, i5);
    lemma_bit_twice(vals5, i5);
    let a4 = once.data@[i5]->Node_0;
    let b4 = twice.data@[i5]->Node_0;
    let data5 = match first {
        Some(b) => b.data@,
        None => Seq::new(32768, |i: int| InternalData::<N4<V>>::Tile(0)),
    };
    let before4 = child_of(data5[i5]);
    let kids4 = match before4 {
        Some(b) => b.child_mask@,
        None => zero_mask(64),
    };
    let vals4 = match before4 {
        Some(b) => b.value_mask@,
        None => zero_mask(64),
    };
    lemma_bit_twice(kids4, i4);
    lemma_bit_twice(vals4, i4);
    let a3 = a4.data@[i4]->Node_0;
    let b3 = b4.data@[i4]->Node_0;
    let data4 = match before4 {
        Some(b) => b.data@,
        None => Seq::new(4096, |i: int| InternalData::<N3<V>>::Tile(0)),
    };
    let before3 = child_of(data4[i4]);
    let mask3 = match before3 {
        Some(b) => b.value_mask@,
        None => zero_mask(8),
    };
    lemma_bit_twice(mask3, i3);
    assert(b3.data@ =~= a3.data@);
    assert(same_leaf(*a3, *b3));
    assert forall|i: int| 0 <= i < 4096 implies match (#[trigger] a4.data@[i], b4.data@[i]) {
        (InternalData::Tile(x), InternalData::Tile(y)) => x == y,
        (InternalData::Node(x), InternalData::Node(y)) => same_leaf(*x, *y),
        _ => false,
    } by {
        if i != i4 {
            assert(b4.data@[i] == a4.data@[i]);
        }
    }
    assert(same_n4(*a4, *b4));
    assert forall|i: int| 0 <= i < 32768 implies match (#[trigger] once.data@[i], twice.data@[i]) {
        (InternalData::Tile(x), InternalData::Tile(y)) => x == y,
        (InternalData::Node(x), InternalData::Node(y)) => same_n4(*x, *y),
        _ => false,
    } by {
        if i != i5 {
            assert(twice.data@[i] == once.data@[i]);
            if once.data@[i] is Node {
                lemma_same_n4_self(*once.data@[i]->Node_0);
            }
        }
    }
}

/// A write into a grid that had no block for `p` makes a level-5 block at
/// the key of `p` and a level-4 block at the level-4 origin of `p`. Each has
/// the one child bit of `p` set and no value bit, and the leaf has the one
/// value bit of `p`.
#[verifier::rlimit(40)]
pub proof fn law_first_write<V>(block: N5<V>, p: GlobalCoordinates, v: V)
    requires
        n5_written(None, block, p, v),
    ensures
        block.origin == key5(p),
        block.child_mask@ == with_bit(zero_mask(512), off5(p)),
        block.value_mask@ == zero_mask(512),
        block.data@[off5(p)] matches InternalData::Node(child) && child.origin == key4(p)
            && child.child_mask@ == with_bit(zero_mask(64), off4(p)) && child.value_mask@
            == zero_mask(64) && (child.data@[off4(p)] matches InternalData::Node(leaf)
            && leaf.value_mask@ == with_bit(zero_mask(8), off3(p)) && leaf.flags == 0
            && leaf.data@[off3(p)] == LeafData::Value(v)),
        forall|i: int|
            0 <= i < 32768 && i != off5(p) ==> #[trigger] block.data@[i] == InternalData::<
                N4<V>,
            >::Tile(0),
{
    lemma_offsets_in_range(p);
    lemma_bit_twice(zero_mask(512), off5(p));
    lemma_bit_twice(zero_mask(64), off4(p));
}

/// Number of child entries among the first `n` entries.
pub open spec fn child_count<C>(data: Seq<InternalData<C>>, n: nat) -> nat
    decreases n,
{
    if n == 0 {
        0
    } else {
        child_count(data, (n - 1) as nat) + if data[n - 1] is Node {
            1nat
        } else {
            0nat
        }
    }
}

/// In a well-formed inner node the child mask has as many bits set as the
/// node has children, among any first `n` entries, and no entry is marked
/// in both masks.
pub proof fn law_mask_consistency<C: Node, const L: u32>(node: InternalNode<C, L>, n: nat)
    requires
        node.wf(),
        n <= node.data.len(),
    ensures
        count_ones(node.child_mask@, n) == child_count(node.data@, n),
        forall|i: int|
            0 <= i < node.data.len() ==> !(mask_bit(node.child_mask@, i) && mask_bit(
                node.value_mask@,
                i,
            )),
    decreases n,
{
    if n > 0 {
        law_mask_consistency(node, (n - 1) as nat);
        assert(mask_bit(node.child_mask@, n - 1) <==> node.data[n - 1] is Node);
    }
}

} // verus!
