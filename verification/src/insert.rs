//! Insertion: into the buffer during the first phase, later into the leaf
//! that the key is dispatched to, with the splits that follow.

use vstd::prelude::*;
use crate::entry::{KeyValue, index_of_child, lemma_rank_from, rank_of};
use crate::keep_shape::{lemma_grow_shape, lemma_split_shape};
use crate::laws::{lemma_insert_then_get, lemma_inserted, lemma_sprout, lemma_wf};
use crate::node::{Node, MAX_CHILD, MAX_KEY, SENTINEL};
use crate::settle::lemma_pending_after_insert;
use crate::path::{lemma_on_path_nonroot, lemma_on_path_shorter, on_path};
use crate::shape::{Shape, lemma_walk};
use crate::tree::BPlusTree;
use crate::view::walk;

verus! {

impl BPlusTree {
    /// Splits the node `current`, which is one entry over its bounds, under
    /// `parent`: the lower half of its entries goes to a new node, listed by
    /// the parent just before `current`.
    pub(crate) fn split(
        &mut self,
        current: u16,
        parent: u16,
        Ghost(g): Ghost<Shape>,
        Ghost(under): Ghost<Option<u16>>,
    ) -> (done: bool)
        requires
            old(self)@.inv(g, Some(current), under),
            old(self)@.arena.contains_key(current),
            current != 0,
            parent == g.parent[current],
            old(self)@.arena[current].overflows(),
            old(self)@.unique_id < u16::MAX,
        ensures
            done,
            final(self)@ == old(self)@.split(current, parent),
            final(self)@.inv(old(self)@.split_shape(g, current, parent), Some(parent), under),
    {
        proof {
            lemma_split_shape(old(self)@, g, under, current, parent);
        }
        let node = self.take(current);
        let leaf = node.is_leaf();
        let mut lower = node.into_entries();
        let middle_index = lower.len() / 2;
        let upper = lower.split_off(middle_index);
        let divider = if leaf {
            upper[0].key
        } else {
            let last = lower[middle_index - 1];
            lower[middle_index - 1] = KeyValue { key: SENTINEL, value: last.value };
            last.key
        };
        let new_node_id = self.fresh_id();
        self.store(new_node_id, Node::with_entries(leaf, lower, false));
        self.store(current, Node::with_entries(leaf, upper, false));
        let mut parent_node = self.take(parent);
        let pkvs = parent_node.extract();
        let current_index = index_of_child(pkvs, current);
        pkvs.insert(current_index, KeyValue { key: divider, value: new_node_id });
        self.store(parent, parent_node);
        assert(self@.arena =~= old(self)@.split(current, parent).arena);
        true
    }

    /// Has the tree grow by one level: a new node takes over the entries of
    /// the root, which is one entry over its bounds, and is split under it.
    pub(crate) fn split_root(&mut self, root_id: u16, Ghost(g): Ghost<Shape>)
        requires
            root_id == 0,
            old(self)@.inv(g, Some(0u16), None),
            old(self)@.arena[0].overflows(),
            old(self)@.unique_id + 1 < u16::MAX,
        ensures
            final(self)@ == old(self)@.grow().split(old(self)@.unique_id, 0),
            final(self)@.inv(
                old(self)@.grow().split_shape(old(self)@.grow_shape(g), old(self)@.unique_id, 0),
                None,
                None,
            ),
    {
        proof {
            lemma_grow_shape(old(self)@, g);
        }
        let new_node_id = self.fresh_id();
        let root = self.take(root_id);
        let leaf = root.is_leaf();
        let mut pkvs: Vec<KeyValue> = Vec::new();
        pkvs.push(KeyValue { key: SENTINEL, value: new_node_id });
        self.store(new_node_id, Node::with_entries(leaf, root.into_entries(), false));
        self.store(root_id, Node::with_entries(false, pkvs, true));
        assert(self@.arena =~= old(self)@.grow().arena);
        self.split(new_node_id, root_id, Ghost(old(self)@.grow_shape(g)), Ghost(Some(0u16)));
        proof {
            let v2 = self@;
            assert forall|id: u16| #[trigger] v2.arena.contains_key(id) implies v2.fits(
                id,
                None,
                None,
            ) by {}
        }
    }

    /// Whether the identifiers that are left suffice for the new nodes that
    /// one more entry in the last node of `path` takes.
    pub(crate) fn has_ids_for(&self, path: &Vec<u16>) -> (enough: bool)
        requires
            forall|i: int| 0 <= i < path@.len() ==> self@.arena.contains_key(#[trigger] path@[i]),
        ensures
            enough == (self@.unique_id + self@.ids_for(path@) <= u16::MAX),
    {
        let left = (u16::MAX - self.unique_id()) as usize;
        let mut need: usize = 0;
        let mut i = path.len();
        assert(path@.take(i as int) =~= path@);
        while i > 0
            invariant
                i <= path@.len(),
                need <= left,
                left == u16::MAX - self@.unique_id,
                self@.ids_for(path@) == need + self@.ids_for(path@.take(i as int)),
                forall|j: int| 0 <= j < path@.len() ==> self@.arena.contains_key(#[trigger] path@[j]),
            decreases i,
        {
            let ghost upto = path@.take(i as int);
            assert(upto.drop_last() =~= path@.take(i - 1));
            let node = self.peek(path[i - 1]);
            let full = if node.is_leaf() {
                node.entries().len() >= MAX_KEY
            } else {
                node.entries().len() >= MAX_CHILD
            };
            if !full {
                return true;
            }
            if need >= left {
                return false;
            }
            need = need + 1;
            i = i - 1;
        }
        need < left
    }

    /// Walks down from `current` to the leaf that the key of `new_kv` is
    /// dispatched to, noting every node on the way in `parents`, and places
    /// the entry there, unless too few identifiers are left.
    pub(crate) fn insert_recursive(
        &mut self,
        new_kv: KeyValue,
        current: u16,
        parents: &mut Vec<u16>,
        Ghost(g): Ghost<Shape>,
    ) -> (placed: bool)
        requires
            old(self)@.inv(g, None, None),
            old(self)@.arena.contains_key(current),
            forall|i: int|
                0 <= i < old(parents)@.len() ==> old(self)@.arena.contains_key(
                    #[trigger] old(parents)@[i],
                ),
        ensures
            final(parents)@ == old(parents)@ + walk(
                old(self)@.arena,
                current,
                new_kv.key,
                g.level[current],
            ),
            placed == (old(self)@.unique_id + old(self)@.ids_for(final(parents)@) <= u16::MAX),
            placed ==> final(self)@ == old(self)@.leaf_insert(final(parents)@.last(), new_kv),
            !placed ==> final(self)@ == old(self)@,
        decreases g.level[current],
    {
        let node = self.peek(current);
        parents.push(current);
        if node.is_leaf() {
            assert forall|i: int| 0 <= i < parents@.len() implies self@.arena.contains_key(
                #[trigger] parents@[i],
            ) by {}
            if !self.has_ids_for(parents) {
                return false;
            }
            let mut leaf = self.take(current);
            let kvs = leaf.extract();
            let insertion_idx = rank_of(kvs, new_kv.key);
            kvs.insert(insertion_idx, new_kv);
            self.store(current, leaf);
            assert(self@.arena =~= old(self)@.leaf_insert(current, new_kv).arena);
            true
        } else {
            let next_node_id = node.get_child(new_kv.key);
            proof {
                assert(walk(old(self)@.arena, current, new_kv.key, g.level[current]) == seq![
                    current,
                ] + walk(
                    old(self)@.arena,
                    next_node_id,
                    new_kv.key,
                    g.level[next_node_id],
                ));
            }
            assert forall|i: int| 0 <= i < parents@.len() implies old(self)@.arena.contains_key(
                #[trigger] parents@[i],
            ) by {}
            let placed = self.insert_recursive(new_kv, next_node_id, parents, Ghost(g));
            assert(parents@ =~= old(parents)@ + walk(
                old(self)@.arena,
                current,
                new_kv.key,
                g.level[current],
            ));
            placed
        }
    }

    /// Inserts into the buffer of the first phase. When that takes the buffer
    /// over its capacity, the entries move into the arena: a root with
    /// identifier 0, one leaf under it, and that leaf split at once.
    pub(crate) fn insert_leaf_tree(&mut self, new_kv: KeyValue)
        requires
            old(self)@.wf(),
            old(self)@.is_leaf_root(),
        ensures
            final(self)@ == old(self)@.inserted(new_kv),
            final(self)@.wf(),
    {
        let buffer = self.leaf_tree_mut();
        let kvs = buffer.extract();
        let idx = rank_of(kvs, new_kv.key);
        kvs.insert(idx, new_kv);
        let cells = kvs.clone();
        if !self.is_leaf_root() {
            let id = self.unique_id();
            let mut pkvs: Vec<KeyValue> = Vec::new();
            pkvs.push(KeyValue { key: SENTINEL, value: id });
            let root = Node::with_entries(false, pkvs, true);
            self.set_root(root.clone());
            self.store(0, root);
            let leaf_id = self.fresh_id();
            self.store(leaf_id, Node::with_entries(true, cells, false));
            let ghost g1 = Shape {
                level: Map::<u16, nat>::empty().insert(0u16, 1nat).insert(1u16, 0nat),
                parent: Map::<u16, u16>::empty().insert(1u16, 0u16),
            };
            proof {
                lemma_sprout(old(self)@, cells@);
            }
            self.split(leaf_id, 0, Ghost(g1), Ghost(Some(0u16)));
            self.refresh_root();
        }
        proof {
            lemma_inserted(old(self)@, new_kv);
        }
    }

    /// Inserts `new_kv`; an entry with the same key may be there already and
    /// stays. Returns `false`, and leaves the tree as it was, only where too few
    /// identifiers are left for the new nodes that the insertion takes: one for
    /// every node that it splits, and one more where the tree grows.
    pub fn insert(&mut self, new_kv: KeyValue) -> (done: bool)
        requires
            old(self)@.wf(),
        ensures
            final(self)@.wf(),
            done == old(self)@.has_room(new_kv.key),
            final(self)@ == old(self)@.inserted(new_kv),
            done ==> final(self)@.bag() == old(self)@.bag().insert(new_kv),
            !done ==> final(self)@ == old(self)@,
            old(self)@.sorted() && !old(self)@.finds(new_kv.key) ==> final(self)@.sorted(),
            done && old(self)@.sorted() && !old(self)@.finds(new_kv.key) ==> forall|key: u16|
                #[trigger] final(self)@.get(key) == if key == new_kv.key {
                    Some(new_kv.value)
                } else {
                    old(self)@.get(key)
                },
            final(self)@.bounded(),
            final(self)@.cached(),
            final(self)@.is_leaf_root() == (old(self)@.is_leaf_root()
                && old(self)@.leaf_tree.entries.len() < MAX_KEY),
    {
        proof {
            let v = old(self)@;
            lemma_inserted(v, new_kv);
            lemma_wf(v.inserted(new_kv));
            if v.has_room(new_kv.key) && v.sorted() && !v.finds(new_kv.key) {
                assert forall|key: u16| #[trigger]
                    v.inserted(new_kv).get(key) == if key == new_kv.key {
                        Some(new_kv.value)
                    } else {
                        v.get(key)
                    } by {
                    lemma_insert_then_get(v, new_kv, key);
                }
            }
        }
        if self.is_leaf_root() {
            self.insert_leaf_tree(new_kv);
            return true;
        }
        let ghost v0 = self@;
        let ghost g0 = v0.shape();
        let ghost path = v0.search_path(new_kv.key);
        let mut parents: Vec<u16> = Vec::new();
        let placed = self.insert_recursive(new_kv, 0, &mut parents, Ghost(g0));
        proof {
            lemma_walk(v0, g0, None, None, 0, new_kv.key);
        }
        if !placed {
            return false;
        }
        let ghost v1 = self@;
        let ghost leaf = path.last();
        let ghost mut g = g0;
        proof {
            lemma_rank_from(v0.arena[leaf].entries, new_kv.key, 0);
            assert forall|id: u16| id != leaf && v0.arena.contains_key(id) implies #[trigger] v0.fits(
                id,
                Some(leaf),
                None,
            ) by {}
            lemma_pending_after_insert(v0, g0, leaf, new_kv, path);
        }
        while parents.len() > 1
            invariant
                parents@.len() >= 1,
                self@.inv(g, Some(parents@.last()), None),
                on_path(self@, g, parents@),
                self@.unique_id + self@.pending(parents@) <= u16::MAX,
                self@.settle_up(parents@) == v1.settle_up(path),
            decreases parents@.len(),
        {
            let ghost before = self@;
            let ghost whole = parents@;
            let node_id = parents.pop().unwrap();
            let parent = parents[parents.len() - 1];
            proof {
                lemma_on_path_nonroot(before, g, whole, whole.len() - 1);
            }
            if self.is_overflow(self.peek(node_id)) {
                self.split(node_id, parent, Ghost(g), Ghost(None));
                proof {
                    g = before.split_shape(g, node_id, parent);
                }
            } else {
                proof {
                    lemma_on_path_shorter(before, g, whole);
                }
            }
        }
        let ghost before = self@;
        assert(before.pending(parents@) == if before.arena[0].overflows() {
            2nat
        } else {
            0nat
        });
        let root_id = parents.pop().unwrap();
        if self.is_overflow(self.peek(root_id)) {
            self.split_root(root_id, Ghost(g));
        }
        self.refresh_root();
        true
    }
}

} // verus!
