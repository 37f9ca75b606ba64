//! Deletion: out of the buffer during the first phase, later out of the leaf
//! that the key is dispatched to, with the merging and borrowing that follow.

use vstd::prelude::*;
use crate::entry::{
    KeyValue, child_index, has_key, index_of_child, index_of_key, lemma_key_index_from,
};
use crate::path::{
    lemma_on_path_distribute, lemma_on_path_nonroot, lemma_on_path_shorter, on_path,
};
use crate::keep_shape::{lemma_collapse_shape, lemma_distribute_shape, lemma_neighbour};
use crate::laws::{lemma_delete_then_get, lemma_deleted};
use crate::node::{Node, MAX_CHILD, MAX_KEY, SENTINEL};
use crate::shape::{Shape, lemma_slack, lemma_walk};
use crate::steps::{head, joined};
use crate::tree::BPlusTree;
use crate::view::walk;

verus! {

impl BPlusTree {
    /// The node `current` with its place under `parent`, and the neighbour
    /// that helps it out with the neighbour's place: the right neighbour for
    /// the parent's first child, the left one for any other. Each comes as an
    /// entry whose key is the node's identifier and whose value is its index
    /// in the parent.
    pub(crate) fn get_sibling(&self, current: u16, parent: u16) -> (pair: Vec<KeyValue>)
        requires
            self@.arena.contains_key(parent),
            2 <= self@.arena[parent].entries.len() <= MAX_CHILD + 1,
        ensures
            pair@.len() == 2,
            ({
                let pe = self@.arena[parent].entries;
                let i = child_index(pe, current);
                let j = if i == 0 {
                    1
                } else {
                    i - 1
                };
                &&& pair@[0] == (KeyValue { key: current, value: i as u16 })
                &&& pair@[1] == (KeyValue { key: pe[j].value, value: j as u16 })
                &&& 0 <= j < pe.len()
            }),
    {
        let pkvs = self.peek(parent).entries();
        let index_current = index_of_child(pkvs, current);
        let mut return_vec: Vec<KeyValue> = Vec::new();
        return_vec.push(KeyValue { key: current, value: index_current as u16 });
        if index_current == 0 {
            return_vec.push(KeyValue { key: pkvs[1].value, value: 1 });
        } else {
            return_vec.push(
                KeyValue { key: pkvs[index_current - 1].value, value: (index_current - 1) as u16 },
            );
        }
        return_vec
    }

    /// Merges the node `left` into `right`, its right neighbour under
    /// `parent`, where the parent lists `left` at index `at`.
    pub(crate) fn merge_nodes(&mut self, left: u16, right: u16, parent: u16, at: usize)
        requires
            old(self)@.arena.contains_key(left),
            old(self)@.arena.contains_key(right),
            old(self)@.arena.contains_key(parent),
            left != right,
            left != parent,
            right != parent,
            at == child_index(old(self)@.arena[parent].entries, left),
            at < old(self)@.arena[parent].entries.len(),
            old(self)@.arena[left].leaf || old(self)@.arena[left].entries.len() > 0,
            old(self)@.arena[left].leaf == old(self)@.arena[right].leaf,
        ensures
            final(self)@ == old(self)@.merge(left, right, parent),
    {
        let mut cells = self.take(left).into_entries();
        let mut parent_node = self.take(parent);
        let pkvs = parent_node.extract();
        let gone = pkvs.remove(at);
        self.store(parent, parent_node);
        let mut right_node = self.take(right);
        let leaf = right_node.is_leaf();
        let kvs = right_node.extract();
        if !leaf {
            let last = cells.len() - 1;
            let closing = cells[last];
            cells[last] = KeyValue { key: gone.key, value: closing.value };
        }
        cells.append(kvs);
        let merged = Node::with_entries(leaf, cells, right_node.is_root);
        self.store(right, merged);
        assert(cells@ =~= joined(
            old(self)@.arena[left],
            old(self)@.arena[parent].entries[at as int].key,
            old(self)@.arena[right],
        ));
        assert(self@.arena =~= old(self)@.merge(left, right, parent).arena);
    }

    /// Moves the first entry of `right` to the end of `left`, its left
    /// neighbour under `parent`, where the parent lists `left` at index `at`.
    pub(crate) fn borrow_from_right(&mut self, left: u16, right: u16, parent: u16, at: usize)
        requires
            old(self)@.arena.contains_key(left),
            old(self)@.arena.contains_key(right),
            old(self)@.arena.contains_key(parent),
            left != right,
            left != parent,
            right != parent,
            at == child_index(old(self)@.arena[parent].entries, left),
            at < old(self)@.arena[parent].entries.len(),
            old(self)@.arena[parent].entries[at as int].value == left,
            old(self)@.arena[left].entries.len() >= 1,
            old(self)@.arena[right].entries.len() >= 2,
            old(self)@.arena[left].leaf == old(self)@.arena[right].leaf,
        ensures
            final(self)@ == old(self)@.shift(
                left,
                right,
                parent,
                old(self)@.arena[left].entries.len() as int + 1,
            ),
    {
        let ghost v = old(self)@;
        let ghost c = joined(v.arena[left], v.arena[parent].entries[at as int].key, v.arena[right]);
        let ghost k: int = v.arena[left].entries.len() as int + 1;
        let mut right_node = self.take(right);
        let leaf = right_node.is_leaf();
        let kvs = right_node.extract();
        let moved_value = kvs.remove(0);
        let new_bound = if leaf {
            kvs[0].key
        } else {
            moved_value.key
        };
        assert(kvs@ =~= c.skip(k));
        self.store(right, right_node);
        let mut parent_node = self.take(parent);
        let pkvs = parent_node.extract();
        let internal_divider = pkvs[at].key;
        pkvs[at] = KeyValue { key: new_bound, value: left };
        self.store(parent, parent_node);
        let mut left_node = self.take(left);
        let kvs1 = left_node.extract();
        if leaf {
            kvs1.push(moved_value);
        } else {
            let last_idx = kvs1.len() - 1;
            let closing = kvs1[last_idx];
            kvs1[last_idx] = KeyValue { key: internal_divider, value: closing.value };
            kvs1.push(KeyValue { key: SENTINEL, value: moved_value.value });
        }
        assert(kvs1@ =~= head(leaf, c, k));
        self.store(left, left_node);
        assert(self@.arena =~= v.shift(left, right, parent, k).arena);
    }

    /// Moves the last entry of `left` to the front of `right`, its right
    /// neighbour under `parent`, where the parent lists `left` at index `at`.
    pub(crate) fn borrow_from_left(&mut self, left: u16, right: u16, parent: u16, at: usize)
        requires
            old(self)@.arena.contains_key(left),
            old(self)@.arena.contains_key(right),
            old(self)@.arena.contains_key(parent),
            left != right,
            left != parent,
            right != parent,
            at == child_index(old(self)@.arena[parent].entries, left),
            at < old(self)@.arena[parent].entries.len(),
            old(self)@.arena[parent].entries[at as int].value == left,
            old(self)@.arena[left].entries.len() >= 2,
            old(self)@.arena[left].leaf == old(self)@.arena[right].leaf,
        ensures
            final(self)@ == old(self)@.shift(
                left,
                right,
                parent,
                old(self)@.arena[left].entries.len() - 1,
            ),
    {
        let ghost v = old(self)@;
        let ghost c = joined(v.arena[left], v.arena[parent].entries[at as int].key, v.arena[right]);
        let ghost k: int = v.arena[left].entries.len() - 1;
        let mut left_node = self.take(left);
        let leaf = left_node.is_leaf();
        let kvs = left_node.extract();
        let moved_value = kvs.pop().unwrap();
        let last_idx = kvs.len() - 1;
        let new_bound = if leaf {
            moved_value.key
        } else {
            let closing = kvs[last_idx];
            kvs[last_idx] = KeyValue { key: SENTINEL, value: closing.value };
            closing.key
        };
        assert(kvs@ =~= head(leaf, c, k));
        self.store(left, left_node);
        let mut parent_node = self.take(parent);
        let pkvs = parent_node.extract();
        let internal_divider = pkvs[at].key;
        pkvs[at] = KeyValue { key: new_bound, value: left };
        self.store(parent, parent_node);
        let mut right_node = self.take(right);
        let kvs1 = right_node.extract();
        if leaf {
            kvs1.insert(0, moved_value);
        } else {
            kvs1.insert(0, KeyValue { key: internal_divider, value: moved_value.value });
        }
        assert(kvs1@ =~= c.skip(k));
        self.store(right, right_node);
        assert(self@.arena =~= v.shift(left, right, parent, k).arena);
    }

    /// Sets right the node `current`, which is one entry under its bounds,
    /// under `parent`: merges it with its neighbour where the entries of both
    /// fit into one node, and else takes one entry over from the neighbour.
    pub(crate) fn distribute_mini(&mut self, current: u16, parent: u16, Ghost(g): Ghost<Shape>)
        requires
            old(self)@.inv(g, None, Some(current)),
            old(self)@.arena.contains_key(current),
            current != 0,
            parent == g.parent[current],
            old(self)@.arena[current].underflows(),
        ensures
            final(self)@ == old(self)@.distribute(current, parent),
            final(self)@.inv(old(self)@.distribute_shape(g, current, parent), None, Some(parent)),
    {
        proof {
            lemma_neighbour(old(self)@, g, current, parent);
            lemma_distribute_shape(old(self)@, g, current, parent);
        }
        let siblings = self.get_sibling(current, parent);
        let current_index = siblings[0].value as usize;
        let sibling = siblings[1].key;
        let sibling_index = siblings[1].value as usize;
        let node = self.peek(current);
        let capacity = if node.is_leaf() {
            MAX_KEY
        } else {
            MAX_CHILD
        };
        let cells_len = node.entries().len() + self.peek(sibling).entries().len();
        if siblings[0].value < siblings[1].value {
            if cells_len <= capacity {
                self.merge_nodes(current, sibling, parent, current_index);
            } else {
                self.borrow_from_right(current, sibling, parent, current_index);
            }
        } else {
            if cells_len <= capacity {
                self.merge_nodes(sibling, current, parent, sibling_index);
            } else {
                self.borrow_from_left(sibling, current, parent, sibling_index);
            }
        }
    }

    /// Collapses a root that is an internal node with a single child: the
    /// root takes over the child's entries and kind, and the child leaves the
    /// arena. A child that is a leaf thus makes the root a leaf. Returns
    /// whether the root was collapsed.
    pub(crate) fn merge_root(&mut self, root_id: u16, Ghost(g): Ghost<Shape>) -> (collapsed: bool)
        requires
            root_id == 0,
            old(self)@.inv(g, None, Some(0u16)),
        ensures
            collapsed == old(self)@.root_is_spare(),
            collapsed ==> final(self)@ == old(self)@.collapse() && final(self)@.inv(
                old(self)@.collapse_shape(g),
                None,
                None,
            ),
            !collapsed ==> final(self)@ == old(self)@ && final(self)@.inv(g, None, None),
    {
        let root = self.peek(root_id);
        if root.is_leaf() || root.entries().len() > 1 {
            proof {
                lemma_slack(old(self)@, g, None, Some(0u16), None, None);
            }
            return false;
        }
        proof {
            lemma_collapse_shape(old(self)@, g);
        }
        let child_id = root.entries()[0].value;
        let child = self.take(child_id);
        let leaf = child.is_leaf();
        self.store(root_id, Node::with_entries(leaf, child.into_entries(), true));
        true
    }

    /// Walks down from `current` to the leaf that `key` is dispatched to,
    /// noting every internal node on the way in `parents`. Where the leaf
    /// holds an entry with `key`, the first such entry is removed and the leaf
    /// is noted too. Returns whether an entry was removed.
    pub(crate) fn delete_recursive(
        &mut self,
        key_d: u16,
        current: u16,
        parents: &mut Vec<u16>,
        Ghost(g): Ghost<Shape>,
    ) -> (exists: bool)
        requires
            old(self)@.inv(g, None, None),
            old(self)@.arena.contains_key(current),
        ensures
            ({
                let path = walk(old(self)@.arena, current, key_d, g.level[current]);
                &&& exists == has_key(old(self)@.arena[path.last()].entries, key_d)
                &&& exists ==> final(parents)@ == old(parents)@ + path && final(self)@ == old(
                    self,
                )@.leaf_remove(path.last(), key_d)
                &&& !exists ==> final(parents)@ == old(parents)@ + path.drop_last() && final(self)@
                    == old(self)@
            }),
        decreases g.level[current],
    {
        let node = self.peek(current);
        if node.is_leaf() {
            let at = index_of_key(node.entries(), key_d);
            if at < node.entries().len() {
                let mut leaf = self.take(current);
                let kvs = leaf.extract();
                kvs.remove(at);
                self.store(current, leaf);
                parents.push(current);
                assert(self@.arena =~= old(self)@.leaf_remove(current, key_d).arena);
                true
            } else {
                false
            }
        } else {
            parents.push(current);
            let next_node_id = node.get_child(key_d);
            proof {
                lemma_walk(old(self)@, g, None, None, next_node_id, key_d);
                assert(walk(old(self)@.arena, current, key_d, g.level[current]) == seq![current]
                    + walk(old(self)@.arena, next_node_id, key_d, g.level[next_node_id]));
            }
            let exists = self.delete_recursive(key_d, next_node_id, parents, Ghost(g));
            exists
        }
    }

    /// Deletes the first entry with `key_d` that a search comes upon: out of
    /// the buffer in the first phase, later out of the leaf that the key is
    /// dispatched to, with the nodes that this leaves under their bounds set
    /// right. Where a search finds no such entry, the tree stays as it is.
    /// Returns `true` either way; `remove` tells the two apart.
    pub fn delete(&mut self, key_d: u16) -> (done: bool)
        requires
            old(self)@.wf(),
        ensures
            done,
            final(self)@.wf(),
            final(self)@ == old(self)@.deleted(key_d),
            old(self)@.finds(key_d) ==> final(self)@.bag() == old(self)@.bag().remove(
                old(self)@.found(key_d),
            ),
            !old(self)@.finds(key_d) ==> final(self)@ == old(self)@,
            old(self)@.sorted() ==> final(self)@.sorted(),
            old(self)@.sorted() ==> forall|key: u16|
                #[trigger] final(self)@.get(key) == if key == key_d {
                    None
                } else {
                    old(self)@.get(key)
                },
            final(self)@.bounded(),
            final(self)@.cached(),
            final(self)@.is_leaf_root() == old(self)@.is_leaf_root(),
    {
        proof {
            let v = old(self)@;
            lemma_deleted(v, key_d);
            if v.sorted() {
                assert forall|key: u16| #[trigger]
                    v.deleted(key_d).get(key) == if key == key_d {
                        None
                    } else {
                        v.get(key)
                    } by {
                    lemma_delete_then_get(v, key_d, key);
                }
            }
        }
        if self.is_leaf_root() {
            let at = index_of_key(self.leaf_tree().entries(), key_d);
            if at < self.leaf_tree().entries().len() {
                let kvs = self.leaf_tree_mut().extract();
                kvs.remove(at);
            }
            return true;
        }
        let ghost v0 = self@;
        let ghost g0 = v0.shape();
        let ghost path = v0.search_path(key_d);
        let mut parents: Vec<u16> = Vec::new();
        let exists = self.delete_recursive(key_d, 0, &mut parents, Ghost(g0));
        proof {
            lemma_walk(v0, g0, None, None, 0, key_d);
        }
        if !exists {
            self.refresh_root();
            return true;
        }
        let ghost v1 = self@;
        let ghost leaf = path.last();
        let ghost mut g = g0;
        proof {
            lemma_key_index_from(v0.arena[leaf].entries, key_d, 0);
            assert forall|id: u16| id != leaf && v0.arena.contains_key(id) implies #[trigger] v0.fits(
                id,
                None,
                Some(leaf),
            ) by {}
        }
        while parents.len() > 1
            invariant
                parents@.len() >= 1,
                self@.inv(g, None, Some(parents@.last())),
                on_path(self@, g, parents@),
                self@.settle_down(parents@) == v1.settle_down(path),
            decreases parents@.len(),
        {
            let ghost before = self@;
            let ghost whole = parents@;
            let node_id = parents.pop().unwrap();
            let parent = parents[parents.len() - 1];
            proof {
                lemma_on_path_nonroot(before, g, whole, whole.len() - 1);
            }
            if self.is_underflow(self.peek(node_id)) {
                self.distribute_mini(node_id, parent, Ghost(g));
                proof {
                    lemma_on_path_distribute(before, g, whole, node_id, parent);
                    g = before.distribute_shape(g, node_id, parent);
                }
            } else {
                proof {
                    lemma_on_path_shorter(before, g, whole);
                }
            }
        }
        let root_id = parents.pop().unwrap();
        self.merge_root(root_id, Ghost(g));
        self.refresh_root();
        true
    }

    /// Deletes as `delete` does, and returns whether an entry was removed.
    pub fn remove(&mut self, key: u16) -> (removed: bool)
        requires
            old(self)@.wf(),
        ensures
            removed == old(self)@.finds(key),
            final(self)@.wf(),
            final(self)@ == old(self)@.deleted(key),
            removed ==> final(self)@.bag() == old(self)@.bag().remove(old(self)@.found(key)),
            !removed ==> final(self)@ == old(self)@,
            old(self)@.sorted() ==> final(self)@.sorted(),
            old(self)@.sorted() ==> forall|other: u16|
                #[trigger] final(self)@.get(other) == if other == key {
                    None
                } else {
                    old(self)@.get(other)
                },
    {
        let removed = self.lookup(key).is_some();
        self.delete(key);
        removed
    }
}

} // verus!
