//! Point lookup: from the root down to the leaf that a key is dispatched to.

use vstd::prelude::*;
use crate::entry::{KeyValue, index_of_key, lemma_key_index_from};
use crate::reach::lemma_held_is_found;
use crate::node::Node;
use crate::shape::{Shape, lemma_route, lemma_walk};
use crate::tree::BPlusTree;
use crate::view::walk;

verus! {

impl BPlusTree {
    /// Descends from `current`, whose parent is `parent`, to the leaf that
    /// `key` is dispatched to, and returns that leaf and its parent.
    pub(crate) fn search_tree(
        &self,
        current: u16,
        parent: u16,
        key: u16,
        Ghost(g): Ghost<Shape>,
    ) -> (found: (u16, u16))
        requires
            self@.inv(g, None, None),
            self@.arena.contains_key(current),
        ensures
            ({
                let path = walk(self@.arena, current, key, g.level[current]);
                &&& found.0 == path.last()
                &&& found.1 == if path.len() >= 2 {
                    path[path.len() - 2]
                } else {
                    parent
                }
            }),
        decreases g.level[current],
    {
        let node = self.peek(current);
        if node.is_leaf() {
            (current, parent)
        } else {
            let pointer = node.get_child(key);
            proof {
                lemma_route(self@, g, None, None, current, key);
            }
            self.search_tree(pointer, current, key, Ghost(g))
        }
    }

    /// The identifiers of the leaf that `k` is dispatched to and of the node
    /// just above it. Where the root is itself that leaf, both are 0.
    ///
    /// The tree must have left its first phase: before that no node has an
    /// identifier.
    pub fn search(&self, k: u16) -> (found: (u16, u16))
        requires
            self@.wf(),
            !self@.is_leaf_root(),
        ensures
            found.0 == self@.leaf_for(k),
            found.1 == self@.parent_for(k),
            self@.arena.contains_key(found.0),
            self@.arena[found.0].leaf,
            self@.sorted() ==> forall|e: KeyValue|
                e.key == k && #[trigger] self@.bag().count(e) > 0 ==> self@.arena[found.0].entries.contains(
                    e,
                ),
    {
        proof {
            lemma_walk(self@, self@.shape(), None, None, 0, k);
            if self@.sorted() {
                assert forall|e: KeyValue| e.key == k && #[trigger] self@.bag().count(e)
                    > 0 implies self@.arena[self@.leaf_for(k)].entries.contains(e) by {
                    lemma_held_is_found(self@, e);
                    lemma_key_index_from(self@.arena[self@.leaf_for(k)].entries, k, 0);
                }
            }
        }
        self.search_tree(0, 0, k, Ghost(self@.shape()))
    }

    /// A copy of the node that holds the entries with `key`, if any node
    /// does: the buffer in the first phase, later the leaf that `key` is
    /// dispatched to.
    pub fn get_node(&self, key: u16) -> (node: Node)
        requires
            self@.wf(),
        ensures
            node@ == self@.holder(key),
    {
        if self.is_leaf_root() {
            self.leaf_tree().clone()
        } else {
            let (node_id, _parent_id) = self.search(key);
            self.peek(node_id).clone()
        }
    }

    /// The node that holds the entries with `key`, if any node does, to be
    /// changed in place. Whoever changes it answers for the tree's order and
    /// bounds.
    pub fn mut_node(&mut self, key: u16) -> (node: &mut Node)
        requires
            old(self)@.wf(),
        ensures
            node@ == old(self)@.holder(key),
            old(self)@.is_leaf_root() ==> final(self)@.leaf_tree == final(node)@,
            old(self)@.is_leaf_root() ==> final(self)@.arena == old(self)@.arena,
            !old(self)@.is_leaf_root() ==> final(self)@.leaf_tree == old(self)@.leaf_tree,
            !old(self)@.is_leaf_root() ==> final(self)@.arena == old(self)@.arena.insert(
                old(self)@.leaf_for(key),
                final(node)@,
            ),
            final(self)@.root == old(self)@.root,
            final(self)@.unique_id == old(self)@.unique_id,
    {
        if self.is_leaf_root() {
            self.leaf_tree_mut()
        } else {
            let (node_id, _parent_id) = self.search(key);
            self.peek_mut(node_id)
        }
    }

    /// The payload of the first entry with `key` in the node that holds the
    /// entries with that key; `None` if there is none.
    pub fn lookup(&self, key: u16) -> (payload: Option<u16>)
        requires
            self@.wf(),
        ensures
            payload == self@.get(key),
    {
        let node = if self.is_leaf_root() {
            self.leaf_tree()
        } else {
            let (node_id, _parent_id) = self.search(key);
            self.peek(node_id)
        };
        let kvs = node.entries();
        let at = index_of_key(kvs, key);
        if at < kvs.len() {
            Some(kvs[at].value)
        } else {
            None
        }
    }
}

} // verus!
