//! Trees with the same contents: what it means, and that the packer gives
//! the same outputs for them.

use vstd::prelude::*;
use crate::atlas::{blocks_below, child_masks, children, inner_blocks, inner_cells, leaf_blocks,
    leaf_cells, leaf_masks, n5_blocks, n5_origins, tree_n3, tree_n4, tree_n5, value_masks};
use crate::coords::GlobalCoordinates;
use crate::node::InternalData;
use crate::point::{same_leaf, same_n4, same_n5, lemma_same_n4_self, lemma_same_keys,
    lemma_entry_at};
use crate::tree::{N3, N4, N5, RootData, RootNode};
use crate::value::From4LeBytes;

verus! {

/// Whether two root entries are the same tile or hold the same block.
pub open spec fn same_entry<V>(a: RootData<N5<V>>, b: RootData<N5<V>>) -> bool {
    match (a, b) {
        (RootData::Tile(x, s), RootData::Tile(y, t)) => x == y && s == t,
        (RootData::Node(x), RootData::Node(y)) => same_n5(*x, *y),
        _ => false,
    }
}

/// Whether two roots have the same background and, in the same order, the
/// same keys with the same entries.
pub open spec fn same_root<V>(a: RootNode<V, N5<V>>, b: RootNode<V, N5<V>>) -> bool {
    &&& a.background == b.background
    &&& a.map@.len() == b.map@.len()
    &&& forall|i: int|
        0 <= i < a.map@.len() ==> (#[trigger] a.map@[i]).0 == b.map@[i].0 && same_entry(
            a.map@[i].1,
            b.map@[i].1,
        )
}

/// Whether two lists of leaves are the same, leaf by leaf.
pub open spec fn same_leaves<V>(a: Seq<N3<V>>, b: Seq<N3<V>>) -> bool {
    a.len() == b.len() && forall|k: int| 0 <= k < a.len() ==> same_leaf(#[trigger] a[k], b[k])
}

/// Whether two lists of level-4 blocks are the same, block by block.
pub open spec fn same_n4s<V>(a: Seq<N4<V>>, b: Seq<N4<V>>) -> bool {
    a.len() == b.len() && forall|k: int| 0 <= k < a.len() ==> same_n4(#[trigger] a[k], b[k])
}

/// Whether two lists of level-5 blocks are the same, block by block.
pub open spec fn same_n5s<V>(a: Seq<N5<V>>, b: Seq<N5<V>>) -> bool {
    a.len() == b.len() && forall|k: int| 0 <= k < a.len() ==> same_n5(#[trigger] a[k], b[k])
}

/// The same roots hold the same level-5 blocks at the same origins.
pub proof fn lemma_same_n5_blocks<V>(a: RootNode<V, N5<V>>, b: RootNode<V, N5<V>>, n: nat)
    requires
        same_root(a, b),
        n <= a.map@.len(),
    ensures
        same_n5s(n5_blocks(a.map@, n), n5_blocks(b.map@, n)),
        n5_origins(a.map@, n) == n5_origins(b.map@, n),
    decreases n,
{
    if n > 0 {
        lemma_same_n5_blocks(a, b, (n - 1) as nat);
        assert(same_entry(a.map@[n - 1].1, b.map@[n - 1].1));
    }
}

/// The same level-5 blocks have the same children.
pub proof fn lemma_same_children5<V>(a: N5<V>, b: N5<V>, n: nat)
    requires
        same_n5(a, b),
        n <= a.data@.len(),
    ensures
        same_n4s(children(a.data@, n), children(b.data@, n)),
    decreases n,
{
    if n > 0 {
        lemma_same_children5(a, b, (n - 1) as nat);
    }
}

/// The same level-4 blocks have the same children.
pub proof fn lemma_same_children4<V>(a: N4<V>, b: N4<V>, n: nat)
    requires
        same_n4(a, b),
        n <= a.data@.len(),
    ensures
        same_leaves(children(a.data@, n), children(b.data@, n)),
    decreases n,
{
    if n > 0 {
        lemma_same_children4(a, b, (n - 1) as nat);
    }
}

/// Below the same level-5 blocks lie the same level-4 blocks.
pub proof fn lemma_same_below5<V>(a: Seq<N5<V>>, b: Seq<N5<V>>, n: nat)
    requires
        same_n5s(a, b),
        n <= a.len(),
    ensures
        same_n4s(blocks_below(a, n), blocks_below(b, n)),
    decreases n,
{
    if n > 0 {
        lemma_same_below5(a, b, (n - 1) as nat);
        assert(same_n5(a[n - 1], b[n - 1]));
        lemma_same_children5(a[n - 1], b[n - 1], a[n - 1].data@.len());
    }
}

/// Below the same level-4 blocks lie the same leaves.
pub proof fn lemma_same_below4<V>(a: Seq<N4<V>>, b: Seq<N4<V>>, n: nat)
    requires
        same_n4s(a, b),
        n <= a.len(),
    ensures
        same_leaves(blocks_below(a, n), blocks_below(b, n)),
    decreases n,
{
    if n > 0 {
        lemma_same_below4(a, b, (n - 1) as nat);
        assert(same_n4(a[n - 1], b[n - 1]));
        lemma_same_children4(a[n - 1], b[n - 1], a[n - 1].data@.len());
    }
}

/// The same level-5 blocks give the same atlas cells.
#[verifier::rlimit(40)]
pub proof fn lemma_same_cells5<V: From4LeBytes>(a: Seq<N5<V>>, b: Seq<N5<V>>)
    requires
        same_n5s(a, b),
    ensures
        inner_blocks::<V, N4<V>, 5>(a) == inner_blocks::<V, N4<V>, 5>(b),
{
    assert forall|k: int| 0 <= k < a.len() implies inner_blocks::<V, N4<V>, 5>(a)[k]
        == inner_blocks::<V, N4<V>, 5>(b)[k] by {
        lemma_same_below5(a, b, k as nat);
        assert(same_n5(a[k], b[k]));
        let base = blocks_below(a, k as nat).len();
        assert forall|o: int| 0 <= o < a[k].data@.len() implies inner_cells::<V, N4<V>>(
            a[k].data@,
            base,
        )[o] == inner_cells::<V, N4<V>>(b[k].data@, base)[o] by {
            lemma_same_children5(a[k], b[k], o as nat);
        }
        assert(inner_cells::<V, N4<V>>(a[k].data@, base) =~= inner_cells::<V, N4<V>>(
            b[k].data@,
            base,
        ));
    }
    assert(inner_blocks::<V, N4<V>, 5>(a) =~= inner_blocks::<V, N4<V>, 5>(b));
}

/// The same level-4 blocks give the same atlas cells.
#[verifier::rlimit(40)]
pub proof fn lemma_same_cells4<V: From4LeBytes>(a: Seq<N4<V>>, b: Seq<N4<V>>)
    requires
        same_n4s(a, b),
    ensures
        inner_blocks::<V, N3<V>, 4>(a) == inner_blocks::<V, N3<V>, 4>(b),
{
    assert forall|k: int| 0 <= k < a.len() implies inner_blocks::<V, N3<V>, 4>(a)[k]
        == inner_blocks::<V, N3<V>, 4>(b)[k] by {
        lemma_same_below4(a, b, k as nat);
        assert(same_n4(a[k], b[k]));
        let base = blocks_below(a, k as nat).len();
        assert forall|o: int| 0 <= o < a[k].data@.len() implies inner_cells::<V, N3<V>>(
            a[k].data@,
            base,
        )[o] == inner_cells::<V, N3<V>>(b[k].data@, base)[o] by {
            lemma_same_children4(a[k], b[k], o as nat);
        }
        assert(inner_cells::<V, N3<V>>(a[k].data@, base) =~= inner_cells::<V, N3<V>>(
            b[k].data@,
            base,
        ));
    }
    assert(inner_blocks::<V, N3<V>, 4>(a) =~= inner_blocks::<V, N3<V>, 4>(b));
}

/// Trees with the same contents give the same packer outputs: the same
/// origins, the same masks in each of the five lists, and the same blocks
/// in the same order for each of the three atlases, so the same number of
/// blocks for each level.
#[verifier::rlimit(40)]
pub proof fn law_same_trees<V: From4LeBytes>(a: RootNode<V, N5<V>>, b: RootNode<V, N5<V>>)
    requires
        same_root(a, b),
    ensures
        n5_origins(a.map@, a.map@.len()) == n5_origins(b.map@, b.map@.len()),
        child_masks(tree_n5(a)) == child_masks(tree_n5(b)),
        value_masks(tree_n5(a)) == value_masks(tree_n5(b)),
        child_masks(tree_n4(a)) == child_masks(tree_n4(b)),
        value_masks(tree_n4(a)) == value_masks(tree_n4(b)),
        leaf_masks(tree_n3(a)) == leaf_masks(tree_n3(b)),
        inner_blocks::<V, N4<V>, 5>(tree_n5(a)) == inner_blocks::<V, N4<V>, 5>(tree_n5(b)),
        inner_blocks::<V, N3<V>, 4>(tree_n4(a)) == inner_blocks::<V, N3<V>, 4>(tree_n4(b)),
        leaf_blocks(tree_n3(a)) == leaf_blocks(tree_n3(b)),
        tree_n5(a).len() == tree_n5(b).len(),
        tree_n4(a).len() == tree_n4(b).len(),
        tree_n3(a).len() == tree_n3(b).len(),
{
    lemma_same_n5_blocks(a, b, a.map@.len());
    let a5 = tree_n5(a);
    let b5 = tree_n5(b);
    lemma_same_below5(a5, b5, a5.len());
    let a4 = tree_n4(a);
    let b4 = tree_n4(b);
    lemma_same_below4(a4, b4, a4.len());
    let a3 = tree_n3(a);
    let b3 = tree_n3(b);
    lemma_same_cells5(a5, b5);
    lemma_same_cells4(a4, b4);
    assert(child_masks(a5) =~= child_masks(b5)) by {
        assert forall|k: int| 0 <= k < a5.len() implies a5[k].child_mask@ == b5[k].child_mask@ by {
            assert(same_n5(a5[k], b5[k]));
        }
    }
    assert(value_masks(a5) =~= value_masks(b5)) by {
        assert forall|k: int| 0 <= k < a5.len() implies a5[k].value_mask@ == b5[k].value_mask@ by {
            assert(same_n5(a5[k], b5[k]));
        }
    }
    assert(child_masks(a4) =~= child_masks(b4)) by {
        assert forall|k: int| 0 <= k < a4.len() implies a4[k].child_mask@ == b4[k].child_mask@ by {
            assert(same_n4(a4[k], b4[k]));
        }
    }
    assert(value_masks(a4) =~= value_masks(b4)) by {
        assert forall|k: int| 0 <= k < a4.len() implies a4[k].value_mask@ == b4[k].value_mask@ by {
            assert(same_n4(a4[k], b4[k]));
        }
    }
    assert(leaf_masks(a3) =~= leaf_masks(b3)) by {
        assert forall|k: int| 0 <= k < a3.len() implies a3[k].value_mask@ == b3[k].value_mask@ by {
            assert(same_leaf(a3[k], b3[k]));
        }
    }
    assert(leaf_blocks(a3) =~= leaf_blocks(b3)) by {
        assert forall|k: int| 0 <= k < a3.len() implies leaf_cells(a3[k]) == leaf_cells(b3[k]) by {
            assert(same_leaf(a3[k], b3[k]));
            assert(leaf_cells(a3[k]) =~= leaf_cells(b3[k]));
        }
    }
}

/// A level-5 block is the same as itself.
pub proof fn lemma_same_n5_self<V>(a: N5<V>)
    ensures
        same_n5(a, a),
{
    assert forall|i: int| 0 <= i < a.data@.len() implies match (#[trigger] a.data@[i], a.data@[i]) {
        (InternalData::Tile(x), InternalData::Tile(y)) => x == y,
        (InternalData::Node(x), InternalData::Node(y)) => same_n4(*x, *y),
        _ => false,
    } by {
        if a.data@[i] is Node {
            lemma_same_n4_self(*a.data@[i]->Node_0);
        }
    }
}

/// Two well-formed roots with the same keys whose entries are the same
/// under every key but `key`, and hold the same block under `key`, are the
/// same tree. With `law_repeated_write` this is: a write that is repeated
/// leaves the tree, and so its masks, origins and atlases, as they were.
#[verifier::rlimit(40)]
pub proof fn law_same_but_one<V>(a: RootNode<V, N5<V>>, b: RootNode<V, N5<V>>, key: GlobalCoordinates)
    requires
        a.wf(),
        b.wf(),
        a.background == b.background,
        forall|k: GlobalCoordinates| a.has_key(k) == b.has_key(k),
        forall|k: GlobalCoordinates| k != key ==> a.entry(k) == b.entry(k),
        a.entry(key) matches Some(RootData::Node(x)) && (b.entry(key) matches Some(
            RootData::Node(y),
        ) && same_n5(*x, *y)),
    ensures
        same_root(a, b),
{
    lemma_same_keys(a, b, a.map.len() as nat);
    lemma_same_keys(b, a, b.map.len() as nat);
    assert forall|i: int| 0 <= i < a.map@.len() implies (#[trigger] a.map@[i]).0 == b.map@[i].0
        && same_entry(a.map@[i].1, b.map@[i].1) by {
        lemma_entry_at(a, i);
        lemma_entry_at(b, i);
        if a.map@[i].0 != key {
            assert(a.entry(a.map@[i].0) == b.entry(a.map@[i].0));
            if a.map@[i].1 is Node {
                lemma_same_n5_self(*a.map@[i].1->Node_0);
            }
        }
    }
}

} // verus!
