//! In a search tree a search ends in the one leaf that may hold the key.

use vstd::prelude::*;
use vstd::seq_lib::to_multiset_contains;
use crate::bag::{bag_below, leaf_bag};
use crate::entry::{KeyValue, route};
use crate::lists::lemma_child_index;
use crate::node::NodeView;
use crate::order::{
    Ranges, lemma_ascending_unique, lemma_child_range, lemma_leaf_list, lemma_route_is,
    lemma_route_range,
};
use crate::shape::{Shape, lemma_walk};
use crate::view::{TreeView, walk};

verus! {

/// A walk from a node that answers for `key` ends in a leaf that answers for
/// `key`.
pub proof fn lemma_walk_range(v: TreeView, g: Shape, r: Ranges, id: u16, key: u16)
    requires
        v.inv(g, None, None),
        v.ranged(r),
        v.arena.contains_key(id),
        r.lo[id] <= key < r.hi[id],
    ensures
        ({
            let leaf = walk(v.arena, id, key, g.level[id]).last();
            &&& v.arena.contains_key(leaf)
            &&& v.arena[leaf].leaf
            &&& r.lo[leaf] <= key < r.hi[leaf]
        }),
    decreases g.level[id],
{
    let n = v.arena[id];
    if !n.leaf {
        lemma_route_range(n.entries, r.lo[id], r.hi[id], r, key);
        let c = n.entries[route(n.entries, key)].value;
        lemma_walk_range(v, g, r, c, key);
    }
}

/// Where a walk from a node that answers for `key` ends, a walk from the
/// root ends too.
pub proof fn lemma_walk_up(v: TreeView, g: Shape, r: Ranges, a: u16, leaf: u16, key: u16)
    requires
        v.inv(g, None, None),
        v.ranged(r),
        v.arena.contains_key(a),
        r.lo[a] <= key < r.hi[a],
        walk(v.arena, a, key, g.level[a]).last() == leaf,
    ensures
        walk(v.arena, 0, key, g.level[0]).last() == leaf,
    decreases g.level[0] - g.level[a],
{
    if a != 0 {
        let p = g.parent[a];
        let pe = v.arena[p].entries;
        lemma_child_index(pe, a);
        let i = crate::entry::child_index(pe, a);
        lemma_child_range(pe, r.lo[p], r.hi[p], r, i);
        lemma_route_is(pe, r.lo[p], r.hi[p], r, i, key);
        lemma_walk_up(v, g, r, p, leaf, key);
    }
}

/// An entry is among those of the leaves below `n` just where one of these
/// leaves holds it.
pub proof fn lemma_bag_member(arena: Map<u16, NodeView>, n: nat, e: KeyValue)
    requires
        n <= 65536,
    ensures
        bag_below(arena, n).count(e) > 0 <==> exists|id: u16|
            id < n && #[trigger] arena.contains_key(id) && arena[id].leaf
                && arena[id].entries.contains(e),
    decreases n,
{
    if n > 0 {
        let m = (n - 1) as nat;
        let last = m as u16;
        lemma_bag_member(arena, m, e);
        if arena.contains_key(last) && arena[last].leaf {
            to_multiset_contains(arena[last].entries, e);
        }
        assert(bag_below(arena, n).count(e) == bag_below(arena, m).count(e) + leaf_bag(
            arena,
            last,
        ).count(e));
        if bag_below(arena, n).count(e) > 0 {
            if bag_below(arena, m).count(e) > 0 {
                let id = choose|id: u16|
                    id < m && #[trigger] arena.contains_key(id) && arena[id].leaf
                        && arena[id].entries.contains(e);
            }
        }
        if exists|id: u16|
            id < n && #[trigger] arena.contains_key(id) && arena[id].leaf
                && arena[id].entries.contains(e) {
            let id = choose|id: u16|
                id < n && #[trigger] arena.contains_key(id) && arena[id].leaf
                    && arena[id].entries.contains(e);
        }
    }
}

/// In a search tree, a search for the key of an entry that the tree holds
/// comes upon that very entry.
pub proof fn lemma_held_is_found(v: TreeView, e: KeyValue)
    requires
        v.wf(),
        v.sorted(),
        v.bag().count(e) > 0,
    ensures
        v.finds(e.key),
        v.found(e.key) == e,
        v.get(e.key) == Some(e.value),
{
    if v.is_leaf_root() {
        let es = v.leaf_tree.entries;
        to_multiset_contains(es, e);
        let i = choose|i: int| 0 <= i < es.len() && es[i] == e;
        lemma_ascending_unique(es, i);
    } else {
        let g = v.shape();
        let r = choose|r: Ranges| v.ranged(r);
        lemma_bag_member(v.arena, 65536, e);
        let id = choose|id: u16|
            id < 65536 && #[trigger] v.arena.contains_key(id) && v.arena[id].leaf
                && v.arena[id].entries.contains(e);
        let es = v.arena[id].entries;
        let i = choose|i: int| 0 <= i < es.len() && es[i] == e;
        lemma_leaf_list(es, r.lo[id], r.hi[id], r);
        lemma_walk_up(v, g, r, id, id, e.key);
        lemma_ascending_unique(es, i);
    }
}

/// The entry that a search comes upon is one that the tree holds.
pub proof fn lemma_found_is_held(v: TreeView, key: u16)
    requires
        v.wf(),
        v.finds(key),
    ensures
        v.bag().count(v.found(key)) > 0,
        v.found(key).key == key,
{
    let es = v.holder(key).entries;
    crate::entry::lemma_key_index_from(es, key, 0);
    let e = v.found(key);
    if v.is_leaf_root() {
        to_multiset_contains(es, e);
    } else {
        let g = v.shape();
        lemma_walk(v, g, None, None, 0, key);
        lemma_bag_member(v.arena, 65536, e);
    }
}

/// In a search tree, a key that a search does not find is the key of no
/// entry that the tree holds.
pub proof fn lemma_missing_is_absent(v: TreeView, key: u16)
    requires
        v.wf(),
        v.sorted(),
        !v.finds(key),
    ensures
        forall|e: KeyValue| v.bag().count(e) > 0 ==> e.key != key,
{
    assert forall|e: KeyValue| v.bag().count(e) > 0 implies e.key != key by {
        lemma_held_is_found(v, e);
    }
}

/// A search tree holds no entry twice.
pub proof fn lemma_count_one(v: TreeView, e: KeyValue)
    requires
        v.wf(),
        v.sorted(),
        v.bag().count(e) > 0,
    ensures
        v.bag().count(e) == 1,
{
    if v.is_leaf_root() {
        let es = v.leaf_tree.entries;
        assert(es.no_duplicates()) by {
            assert forall|i: int, j: int| 0 <= i < es.len() && 0 <= j < es.len() && i != j implies es[i]
                != es[j] by {}
        }
        es.lemma_multiset_has_no_duplicates();
    } else {
        let g = v.shape();
        let r = choose|r: Ranges| v.ranged(r);
        let leaf = v.leaf_for(e.key);
        lemma_bag_only(v, g, r, leaf, e, 65536);
        let es = v.arena[leaf].entries;
        lemma_leaf_list(es, r.lo[leaf], r.hi[leaf], r);
        assert(es.no_duplicates()) by {
            assert forall|i: int, j: int| 0 <= i < es.len() && 0 <= j < es.len() && i != j implies es[i]
                != es[j] by {}
        }
        es.lemma_multiset_has_no_duplicates();
    }
}

/// In a search tree, an entry is counted only in the leaf that a search for
/// its key ends in.
pub proof fn lemma_bag_only(v: TreeView, g: Shape, r: Ranges, leaf: u16, e: KeyValue, n: nat)
    requires
        v.inv(g, None, None),
        v.ranged(r),
        leaf == walk(v.arena, 0, e.key, g.level[0]).last(),
        n <= 65536,
    ensures
        bag_below(v.arena, n).count(e) == if leaf < n {
            leaf_bag(v.arena, leaf).count(e)
        } else {
            0
        },
    decreases n,
{
    if n > 0 {
        let m = (n - 1) as nat;
        let id = m as u16;
        lemma_bag_only(v, g, r, leaf, e, m);
        assert(bag_below(v.arena, n).count(e) == bag_below(v.arena, m).count(e) + leaf_bag(
            v.arena,
            id,
        ).count(e));
        if id != leaf && leaf_bag(v.arena, id).count(e) > 0 {
            let es = v.arena[id].entries;
            to_multiset_contains(es, e);
            lemma_leaf_list(es, r.lo[id], r.hi[id], r);
            lemma_walk_up(v, g, r, id, id, e.key);
        }
    }
}

} // verus!
