//! Dealing with overflow and underflow along a path leaves a tree that holds
//! the same entries, with every node within its bounds, and a search tree
//! where it was one.

use vstd::prelude::*;
use crate::bag::{
    lemma_collapse_bag, lemma_distribute_bag, lemma_grow_bag, lemma_split_bag,
};
use crate::path::{lemma_on_path_nonroot, on_path};
use crate::keep_order::{
    lemma_collapse_order, lemma_distribute_order, lemma_grow_order, lemma_split_order,
};
use crate::keep_shape::{lemma_distribute_shape, lemma_grow_shape, lemma_split_shape};
use crate::order::Ranges;
use crate::shape::Shape;
use crate::view::TreeView;

verus! {

impl TreeView {
    /// How many new nodes it takes to deal with the overflow along `path`.
    pub open spec fn pending(self, path: Seq<u16>) -> nat
        decreases path.len(),
    {
        if path.len() <= 1 {
            if self.arena[0].overflows() {
                2
            } else {
                0
            }
        } else {
            let x = path.last();
            if self.arena[x].overflows() {
                1 + self.split(x, path[path.len() - 2]).pending(path.drop_last())
            } else {
                self.pending(path.drop_last())
            }
        }
    }
}

/// A tree whose root is one entry over its bounds grows into a tree with
/// every node within its bounds.
pub proof fn lemma_grow_split(v: TreeView, g: Shape, r: Ranges) -> (out: (Shape, Ranges))
    requires
        v.inv(g, Some(0u16), None),
        v.arena[0].overflows(),
        v.unique_id + 1 < u16::MAX,
    ensures
        v.grow().split(v.unique_id, 0).inv(out.0, None, None),
        v.grow().split(v.unique_id, 0).arena_bag() == v.arena_bag(),
        v.ranged(r) ==> v.grow().split(v.unique_id, 0).ranged(out.1),
{
    let y = v.unique_id;
    let v1 = v.grow();
    let g1 = v.grow_shape(g);
    let r1 = v.grow_ranges(r);
    lemma_grow_shape(v, g);
    lemma_grow_bag(v);
    let v2 = v1.split(y, 0);
    let g2 = v1.split_shape(g1, y, 0);
    let r2 = v1.split_ranges(r1, y);
    lemma_split_shape(v1, g1, Some(0u16), y, 0);
    lemma_split_bag(v1, y, 0);
    if v.ranged(r) {
        lemma_grow_order(v, g, r);
        lemma_split_order(v1, g1, Some(0u16), r1, y, 0);
    }
    assert forall|id: u16| #[trigger] v2.arena.contains_key(id) implies v2.fits(id, None, None) by {}
    (g2, r2)
}

/// Once the overflow along a path has been dealt with, the tree holds what it
/// held, every node is within its bounds, and a search tree is still one.
pub proof fn lemma_settle_up(v: TreeView, g: Shape, r: Ranges, path: Seq<u16>) -> (out: (
    Shape,
    Ranges,
))
    requires
        on_path(v, g, path),
        v.inv(g, Some(path.last()), None),
        v.unique_id + v.pending(path) <= u16::MAX,
    ensures
        v.settle_up(path).inv(out.0, None, None),
        v.settle_up(path).arena_bag() == v.arena_bag(),
        v.ranged(r) ==> v.settle_up(path).ranged(out.1),
    decreases path.len(),
{
    if path.len() <= 1 {
        if v.arena[0].overflows() {
            lemma_grow_split(v, g, r)
        } else {
            (g, r)
        }
    } else {
        let x = path.last();
        let p = path[path.len() - 2];
        if v.arena[x].overflows() {
            let v2 = v.split(x, p);
            let g2 = v.split_shape(g, x, p);
            let r2 = v.split_ranges(r, x);
            lemma_split_shape(v, g, None, x, p);
            lemma_split_bag(v, x, p);
            if v.ranged(r) {
                lemma_split_order(v, g, None, r, x, p);
            }
            lemma_settle_up(v2, g2, r2, path.drop_last())
        } else {
            lemma_settle_up(v, g, r, path.drop_last())
        }
    }
}

/// Once the underflow along a path has been dealt with, the tree holds what
/// it held, every node is within its bounds, and a search tree is still one.
pub proof fn lemma_settle_down(v: TreeView, g: Shape, r: Ranges, path: Seq<u16>) -> (out: (
    Shape,
    Ranges,
))
    requires
        on_path(v, g, path),
        v.inv(g, None, Some(path.last())),
    ensures
        v.settle_down(path).inv(out.0, None, None),
        v.settle_down(path).arena_bag() == v.arena_bag(),
        v.ranged(r) ==> v.settle_down(path).ranged(out.1),
    decreases path.len(),
{
    if path.len() <= 1 {
        if v.root_is_spare() {
            lemma_collapse_bag(v);
            if v.ranged(r) {
                lemma_collapse_order(v, g, r);
            }
            (v.collapse_shape(g), r)
        } else {
            (g, r)
        }
    } else {
        let x = path.last();
        let p = path[path.len() - 2];
        if v.arena[x].underflows() {
            let v2 = v.distribute(x, p);
            let g2 = v.distribute_shape(g, x, p);
            let r2 = v.distribute_ranges(r, x, p);
            lemma_distribute_shape(v, g, x, p);
            lemma_distribute_bag(v, g, x, p);
            if v.ranged(r) {
                lemma_distribute_order(v, g, r, x, p);
            }
            lemma_settle_down(v2, g2, r2, path.drop_last())
        } else {
            lemma_settle_down(v, g, r, path.drop_last())
        }
    }
}

/// Nodes that are the same in two trees take the same number of new nodes
/// for one more entry.
pub proof fn lemma_ids_for_same(v: TreeView, w: TreeView, path: Seq<u16>)
    requires
        forall|i: int| 0 <= i < path.len() ==> v.arena[#[trigger] path[i]] == w.arena[path[i]],
    ensures
        v.ids_for(path) == w.ids_for(path),
    decreases path.len(),
{
    if path.len() > 0 {
        let d = path.drop_last();
        assert forall|i: int| 0 <= i < d.len() implies v.arena[#[trigger] d[i]] == w.arena[d[i]] by {}
        lemma_ids_for_same(v, w, d);
    }
}

/// Where only the last node of a path may be over its bounds, dealing with
/// the overflow takes no new node if it is not, and else one for that node
/// and what one more entry in the node before it takes.
pub proof fn lemma_pending(v: TreeView, g: Shape, path: Seq<u16>)
    requires
        on_path(v, g, path),
        v.inv(g, Some(path.last()), None),
        v.unique_id + (if v.arena[path.last()].overflows() {
            1 + v.ids_for(path.drop_last())
        } else {
            0
        }) <= u16::MAX,
    ensures
        v.pending(path) == if v.arena[path.last()].overflows() {
            1 + v.ids_for(path.drop_last())
        } else {
            0
        },
    decreases path.len(),
{
    let x = path.last();
    let d = path.drop_last();
    if path.len() > 1 {
        let p = path[path.len() - 2];
        if v.arena[x].overflows() {
            let v2 = v.split(x, p);
            let g2 = v.split_shape(g, x, p);
            lemma_split_shape(v, g, None, x, p);
            let dd = d.drop_last();
            assert forall|i: int| 0 <= i < dd.len() implies v.arena[#[trigger] dd[i]]
                == v2.arena[dd[i]] by {
                lemma_on_path_nonroot(v, g, path, path.len() - 1);
            }
            lemma_ids_for_same(v, v2, dd);
            lemma_pending(v2, g2, d);
        } else {
            lemma_pending(v, g, d);
        }
    }
}

/// After an entry has been placed in the leaf at the end of a search path,
/// dealing with the overflow takes the new nodes that were counted for the
/// insertion.
pub proof fn lemma_pending_after_insert(v: TreeView, g: Shape, leaf: u16, kv: crate::entry::KeyValue, path: Seq<u16>)
    requires
        v.inv(g, None, None),
        on_path(v, g, path),
        leaf == path.last(),
        v.arena[leaf].leaf,
        v.unique_id + v.ids_for(path) <= u16::MAX,
    ensures
        v.leaf_insert(leaf, kv).pending(path) == v.ids_for(path),
        v.leaf_insert(leaf, kv).unique_id + v.leaf_insert(leaf, kv).pending(path) <= u16::MAX,
{
    let v1 = v.leaf_insert(leaf, kv);
    let es = v.arena[leaf].entries;
    crate::entry::lemma_rank_from(es, kv.key, 0);
    assert forall|id: u16| id != leaf && v.arena.contains_key(id) implies #[trigger] v.fits(
        id,
        Some(leaf),
        None,
    ) by {}
    crate::keep_shape::lemma_leaf_shape(
        v,
        g,
        None,
        None,
        leaf,
        v1.arena[leaf].entries,
        Some(leaf),
        None,
    );
    let d = path.drop_last();
    assert forall|i: int| 0 <= i < d.len() implies v.arena[#[trigger] d[i]] == v1.arena[d[i]] by {
        if path.len() >= 2 {
            lemma_on_path_nonroot(v, g, path, path.len() - 1);
        }
    }
    lemma_ids_for_same(v, v1, d);
    lemma_pending(v1, g, path);
}

} // verus!
