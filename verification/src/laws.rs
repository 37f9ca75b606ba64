//! What insertion and deletion do to a well-formed tree.

use vstd::prelude::*;
use vstd::seq_lib::{to_multiset_insert, to_multiset_remove};
use crate::bag::{
    lemma_leaf_insert_bag, lemma_leaf_remove_bag, lemma_split_bag, lemma_sprout_bag,
};
use crate::entry::{KeyValue, ascending, key_index, lemma_key_index_from, lemma_rank_from, rank};
use crate::keep_order::{lemma_leaf_insert_order, lemma_leaf_remove_order, lemma_split_order};
use crate::keep_shape::{lemma_leaf_shape, lemma_split_shape};
use crate::node::{NodeView, MAX_CHILD, MAX_KEY, MIN_CHILD, MIN_KEY};
use crate::order::{
    Ranges, lemma_insert_ascending, lemma_leaf_list, lemma_remove_ascending, lemma_single_list,
};
use crate::reach::{
    lemma_found_is_held, lemma_held_is_found, lemma_missing_is_absent, lemma_walk_range,
};
use crate::settle::{lemma_pending_after_insert, lemma_settle_down, lemma_settle_up};
use crate::shape::{Shape, lemma_walk};
use crate::view::TreeView;

verus! {

impl TreeView {
    /// Every node below the root holds a number of entries within its
    /// bounds: a leaf between `MIN_KEY` and `MAX_KEY`, an internal node
    /// between `MIN_CHILD + 1` and `MAX_CHILD`.
    pub open spec fn bounded(self) -> bool {
        forall|id: u16| #[trigger]
            self.arena.contains_key(id) && id != 0 ==> {
                let n = self.arena[id];
                if n.leaf {
                    MIN_KEY <= n.entries.len() <= MAX_KEY
                } else {
                    MIN_CHILD + 1 <= n.entries.len() <= MAX_CHILD
                }
            }
    }

    /// Outside the first phase, the cached root is the arena's node 0.
    pub open spec fn cached(self) -> bool {
        self.is_leaf_root() || (self.arena.contains_key(0) && self.root == self.arena[0])
    }
}

/// In a well-formed tree every node below the root is within its bounds, the
/// cached root is the arena's node 0, and the arena is empty during the first
/// phase.
pub proof fn lemma_wf(v: TreeView)
    requires
        v.wf(),
    ensures
        v.bounded(),
        v.cached(),
        v.is_leaf_root() ==> v.arena == Map::<u16, NodeView>::empty(),
        v.is_leaf_root() ==> v.leaf_tree.entries.len() <= MAX_KEY,
        !v.is_leaf_root() ==> v.arena.contains_key(0) && v.arena[0].entries.len() <= MAX_CHILD,
{
    if !v.is_leaf_root() {
        assert forall|id: u16| #[trigger] v.arena.contains_key(id) && id != 0 implies {
            let n = v.arena[id];
            if n.leaf {
                MIN_KEY <= n.entries.len() <= MAX_KEY
            } else {
                MIN_CHILD + 1 <= n.entries.len() <= MAX_CHILD
            }
        } by {}
    }
}

/// The two nodes that a buffer over its capacity becomes, the leaf split at
/// once, are a tree that holds the buffer's entries, and a search tree where
/// the buffer's keys ascend.
pub proof fn lemma_sprout(v: TreeView, es: Seq<KeyValue>) -> (out: (Shape, Ranges))
    requires
        v.budding(),
        es.len() == MAX_KEY + 1,
    ensures
        v.sprouted(es).inv(
            Shape {
                level: Map::<u16, nat>::empty().insert(0u16, 1nat).insert(1u16, 0nat),
                parent: Map::<u16, u16>::empty().insert(1u16, 0u16),
            },
            Some(1u16),
            Some(0u16),
        ),
        v.sprouted(es).split(1, 0).inv(out.0, None, None),
        v.sprouted(es).split(1, 0).arena_bag() == es.to_multiset(),
        ascending(es) ==> v.sprouted(es).split(1, 0).ranged(out.1),
{
    let v1 = v.sprouted(es);
    let g1 = Shape {
        level: Map::<u16, nat>::empty().insert(0u16, 1nat).insert(1u16, 0nat),
        parent: Map::<u16, u16>::empty().insert(1u16, 0u16),
    };
    let r1 = Ranges {
        lo: Map::<u16, int>::empty().insert(0u16, 0int).insert(1u16, 0int),
        hi: Map::<u16, int>::empty().insert(0u16, 65536int).insert(1u16, 65536int),
    };
    assert(v1.arena[0].entries[0].value == 1);
    assert forall|id: u16| #[trigger] v1.arena.contains_key(id) implies id < v1.unique_id
        && v1.node_ok(g1, id) && v1.fits(id, Some(1u16), Some(0u16)) by {}
    lemma_split_shape(v1, g1, Some(0u16), 1, 0);
    let v2 = v1.split(1, 0);
    let g2 = v1.split_shape(g1, 1, 0);
    let r2 = v1.split_ranges(r1, 1);
    assert forall|id: u16| #[trigger] v2.arena.contains_key(id) implies v2.fits(id, None, None) by {}
    lemma_sprout_bag(v, es);
    lemma_split_bag(v1, 1, 0);
    if ascending(es) {
        assert forall|id: u16| #[trigger] v1.arena.contains_key(id) implies v1.range_ok(r1, id) by {
            if id == 0 {
                lemma_single_list(1, 0, 65536, r1);
            } else {
                lemma_leaf_list(es, 0, 65536, r1);
            }
        }
        lemma_split_order(v1, g1, Some(0u16), r1, 1, 0);
    }
    (g2, r2)
}

/// An insertion leaves a well-formed tree. Unless identifiers have run out,
/// the tree then holds the new entry besides what it held; and a search tree
/// that did not find the new key is a search tree still.
pub proof fn lemma_inserted(v: TreeView, kv: KeyValue)
    requires
        v.wf(),
    ensures
        v.inserted(kv).wf(),
        v.has_room(kv.key) ==> v.inserted(kv).bag() == v.bag().insert(kv),
        !v.has_room(kv.key) ==> v.inserted(kv) == v,
        v.sorted() && !v.finds(kv.key) ==> v.inserted(kv).sorted(),
        v.inserted(kv).is_leaf_root() == (v.is_leaf_root() && v.leaf_tree.entries.len() < MAX_KEY),
{
    if v.is_leaf_root() {
        let old_es = v.leaf_tree.entries;
        lemma_rank_from(old_es, kv.key, 0);
        let es = old_es.insert(rank(old_es, kv.key), kv);
        to_multiset_insert(old_es, rank(old_es, kv.key), kv);
        if v.sorted() && !v.finds(kv.key) {
            lemma_insert_ascending(old_es, kv);
        }
        if es.len() > MAX_KEY {
            let out = lemma_sprout(v, es);
            let s = v.sprouted(es).split(1, 0);
            lemma_refreshed(s, out.0, out.1);
        }
    } else if v.has_room(kv.key) {
        let g = v.shape();
        let path = v.search_path(kv.key);
        let leaf = v.leaf_for(kv.key);
        lemma_walk(v, g, None, None, 0, kv.key);
        let v1 = v.leaf_insert(leaf, kv);
        let es = v.arena[leaf].entries;
        lemma_rank_from(es, kv.key, 0);
        assert forall|id: u16| id != leaf && v.arena.contains_key(id) implies #[trigger] v.fits(
            id,
            Some(leaf),
            None,
        ) by {}
        lemma_leaf_shape(v, g, None, None, leaf, v1.arena[leaf].entries, Some(leaf), None);
        lemma_leaf_insert_bag(v, leaf, kv);
        let r = if v.sorted() {
            choose|r: Ranges| v.ranged(r)
        } else {
            arbitrary()
        };
        if v.sorted() && !v.finds(kv.key) {
            lemma_walk_range(v, g, r, 0, kv.key);
            lemma_leaf_insert_order(v, r, leaf, kv);
        }
        lemma_pending_after_insert(v, g, leaf, kv, path);
        let out = lemma_settle_up(v1, g, r, path);
        let s = v1.settle_up(path);
        lemma_refreshed(s, out.0, out.1);
    }
}

/// Bringing the cached root up to date makes a tree well formed and leaves
/// alone what it holds.
pub proof fn lemma_refreshed(v: TreeView, g: Shape, r: Ranges)
    requires
        v.inv(g, None, None),
    ensures
        v.refreshed().wf(),
        v.refreshed().inv(g, None, None),
        v.refreshed().bag() == v.arena_bag(),
        v.ranged(r) ==> v.refreshed().sorted(),
        !v.refreshed().is_leaf_root(),
{
    let t = v.refreshed();
    assert forall|id: u16| #[trigger] t.arena.contains_key(id) implies id < t.unique_id
        && t.node_ok(g, id) && t.fits(id, None, None) by {}
    assert(t.inv(g, None, None));
    if v.ranged(r) {
        assert forall|id: u16| #[trigger] t.arena.contains_key(id) implies t.range_ok(r, id) by {}
        assert(t.ranged(r));
    }
}

/// A deletion leaves a well-formed tree, which holds what it held but for the
/// entry that a search for the key came upon, and all that it held where the
/// search found nothing. A search tree is a search tree still.
pub proof fn lemma_deleted(v: TreeView, key: u16)
    requires
        v.wf(),
    ensures
        v.deleted(key).wf(),
        v.finds(key) ==> v.deleted(key).bag() == v.bag().remove(v.found(key)),
        !v.finds(key) ==> v.deleted(key) == v,
        v.sorted() ==> v.deleted(key).sorted(),
        v.deleted(key).is_leaf_root() == v.is_leaf_root(),
{
    if v.finds(key) && v.is_leaf_root() {
        let es = v.leaf_tree.entries;
        lemma_key_index_from(es, key, 0);
        to_multiset_remove(es, key_index(es, key));
        if v.sorted() {
            lemma_remove_ascending(es, key_index(es, key));
        }
    } else if v.finds(key) {
        let g = v.shape();
        let path = v.search_path(key);
        let leaf = v.leaf_for(key);
        lemma_walk(v, g, None, None, 0, key);
        let v1 = v.leaf_remove(leaf, key);
        let es = v.arena[leaf].entries;
        lemma_key_index_from(es, key, 0);
        assert forall|id: u16| id != leaf && v.arena.contains_key(id) implies #[trigger] v.fits(
            id,
            None,
            Some(leaf),
        ) by {}
        lemma_leaf_shape(v, g, None, None, leaf, v1.arena[leaf].entries, None, Some(leaf));
        lemma_leaf_remove_bag(v, leaf, key);
        let r = if v.sorted() {
            choose|r: Ranges| v.ranged(r)
        } else {
            arbitrary()
        };
        if v.sorted() {
            lemma_leaf_remove_order(v, r, leaf, key);
        }
        let out = lemma_settle_down(v1, g, r, path);
        let s = v1.settle_down(path);
        lemma_refreshed(s, out.0, out.1);
    }
}

/// In a search tree no key is held twice.
pub proof fn lemma_keys_unique(v: TreeView, a: KeyValue, b: KeyValue)
    requires
        v.wf(),
        v.sorted(),
        v.bag().count(a) > 0,
        v.bag().count(b) > 0,
        a.key == b.key,
    ensures
        a == b,
{
    lemma_held_is_found(v, a);
    lemma_held_is_found(v, b);
}

/// After an insertion into a search tree that did not find the key, a lookup
/// of the new key gives the new payload, and a lookup of any other key gives
/// what it gave before.
pub proof fn lemma_insert_then_get(v: TreeView, kv: KeyValue, key: u16)
    requires
        v.wf(),
        v.sorted(),
        !v.finds(kv.key),
        v.has_room(kv.key),
    ensures
        v.inserted(kv).get(kv.key) == Some(kv.value),
        key != kv.key ==> v.inserted(kv).get(key) == v.get(key),
{
    let t = v.inserted(kv);
    lemma_inserted(v, kv);
    lemma_held_is_found(t, kv);
    if key != kv.key {
        if v.finds(key) {
            lemma_found_is_held(v, key);
            lemma_held_is_found(t, v.found(key));
        } else if t.finds(key) {
            lemma_found_is_held(t, key);
            lemma_missing_is_absent(v, key);
        }
    }
}

/// After a deletion from a search tree, a lookup of the deleted key gives
/// nothing, and a lookup of any other key gives what it gave before.
pub proof fn lemma_delete_then_get(v: TreeView, gone: u16, key: u16)
    requires
        v.wf(),
        v.sorted(),
    ensures
        v.deleted(gone).get(gone) == None::<u16>,
        key != gone ==> v.deleted(gone).get(key) == v.get(key),
{
    let t = v.deleted(gone);
    lemma_deleted(v, gone);
    if v.finds(gone) {
        lemma_found_is_held(v, gone);
    }
    if t.finds(gone) {
        lemma_found_is_held(t, gone);
        let e = t.found(gone);
        if v.finds(gone) {
            lemma_held_is_found(v, e);
            crate::reach::lemma_count_one(v, e);
        } else {
            lemma_missing_is_absent(v, gone);
        }
    }
    if key != gone {
        if v.finds(key) {
            lemma_found_is_held(v, key);
            lemma_held_is_found(t, v.found(key));
        } else if t.finds(key) {
            lemma_found_is_held(t, key);
            lemma_missing_is_absent(v, key);
        }
    }
}

/// Inserting a new key into a search tree and deleting it again gives a tree
/// that holds just what the first one held, and in which the key is not
/// found.
pub proof fn lemma_insert_then_delete(v: TreeView, kv: KeyValue)
    requires
        v.wf(),
        v.sorted(),
        !v.finds(kv.key),
        v.has_room(kv.key),
    ensures
        v.inserted(kv).deleted(kv.key).wf(),
        v.inserted(kv).deleted(kv.key).sorted(),
        v.inserted(kv).deleted(kv.key).bag() == v.bag(),
        !v.inserted(kv).deleted(kv.key).finds(kv.key),
{
    let t = v.inserted(kv);
    let u = t.deleted(kv.key);
    lemma_inserted(v, kv);
    lemma_held_is_found(t, kv);
    lemma_deleted(t, kv.key);
    if u.finds(kv.key) {
        lemma_found_is_held(u, kv.key);
        lemma_missing_is_absent(v, kv.key);
    }
}

impl TreeView {
    /// The tree after the entries of `kvs` have been inserted one after the
    /// other.
    pub open spec fn inserted_all(self, kvs: Seq<KeyValue>) -> TreeView
        decreases kvs.len(),
    {
        if kvs.len() == 0 {
            self
        } else {
            self.inserted_all(kvs.drop_last()).inserted(kvs.last())
        }
    }

    /// Whether every entry of `kvs`, inserted one after the other, comes with
    /// a key that is not yet found and meets a tree with the identifiers that
    /// its insertion needs.
    pub open spec fn takes_all(self, kvs: Seq<KeyValue>) -> bool
        decreases kvs.len(),
    {
        if kvs.len() == 0 {
            true
        } else {
            let t = self.inserted_all(kvs.drop_last());
            &&& self.takes_all(kvs.drop_last())
            &&& !t.finds(kvs.last().key)
            &&& t.has_room(kvs.last().key)
        }
    }
}

/// A search tree that takes a sequence of entries with new keys is a search
/// tree afterwards.
pub proof fn lemma_inserted_all_sorted(v: TreeView, kvs: Seq<KeyValue>)
    requires
        v.wf(),
        v.sorted(),
        v.takes_all(kvs),
    ensures
        v.inserted_all(kvs).wf(),
        v.inserted_all(kvs).sorted(),
    decreases kvs.len(),
{
    if kvs.len() > 0 {
        lemma_inserted_all_sorted(v, kvs.drop_last());
        lemma_inserted(v.inserted_all(kvs.drop_last()), kvs.last());
    }
}

/// After a sequence of entries with new keys has been inserted into a search
/// tree, a lookup of the key of any of them gives its payload, and a search
/// for the key ends in a leaf that holds the entry.
pub proof fn lemma_inserted_all_found(v: TreeView, kvs: Seq<KeyValue>, i: int)
    requires
        v.wf(),
        v.sorted(),
        v.takes_all(kvs),
        0 <= i < kvs.len(),
    ensures
        v.inserted_all(kvs).get(kvs[i].key) == Some(kvs[i].value),
        v.inserted_all(kvs).holder(kvs[i].key).entries.contains(kvs[i]),
    decreases kvs.len(),
{
    let before = kvs.drop_last();
    let t = v.inserted_all(before);
    let u = v.inserted_all(kvs);
    lemma_inserted_all_sorted(v, before);
    lemma_inserted_all_sorted(v, kvs);
    if i < kvs.len() - 1 {
        lemma_inserted_all_found(v, before, i);
        lemma_insert_then_get(t, kvs.last(), kvs[i].key);
    } else {
        lemma_insert_then_get(t, kvs.last(), kvs[i].key);
    }
    lemma_found_is_held(u, kvs[i].key);
    if i < kvs.len() - 1 {
        lemma_found_is_held(t, kvs[i].key);
    } else {
        lemma_held_is_found(u, kvs.last());
    }
    let es = u.holder(kvs[i].key).entries;
    lemma_key_index_from(es, kvs[i].key, 0);
}

} // verus!
