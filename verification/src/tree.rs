//! The tree's storage: the arena of nodes, the identifier counter, the cached
//! root and the buffer of the first phase.

use vstd::prelude::*;
use vstd::multiset::Multiset;
use std::collections::HashMap;
use std::collections::hash_map::Entry;
use crate::entry::KeyValue;
use crate::node::{Node, NodeType, NodeView, MAX_CHILD, MAX_KEY, MIN_CHILD, MIN_KEY};
use crate::view::TreeView;

verus! {

/// A B+ tree from `u16` keys to `u16` payloads.
///
/// A fresh tree keeps its entries in one bare leaf, `leaf_tree`. The
/// insertion that takes this leaf over its capacity moves the entries into the
/// arena, under a root with identifier 0, and from then on the buffer is left
/// alone. `root` is a copy of the arena's node 0, brought up to date at the
/// end of every insertion and deletion.
#[derive(Debug)]
pub struct BPlusTree {
    root: Node,
    leaf_tree: Node,
    unique_id: u16,
    nodes: HashMap<u16, Node>,
}

impl View for BPlusTree {
    type V = TreeView;

    closed spec fn view(&self) -> TreeView {
        TreeView {
            arena: Map::new(|id: u16| self.nodes@.contains_key(id), |id: u16| self.nodes@[id]@),
            root: self.root@,
            leaf_tree: self.leaf_tree@,
            unique_id: self.unique_id,
        }
    }
}

impl Clone for BPlusTree {
    fn clone(&self) -> (copy: Self)
        ensures
            copy@ == self@,
    {
        let copy = BPlusTree {
            root: self.root.clone(),
            leaf_tree: self.leaf_tree.clone(),
            unique_id: self.unique_id,
            nodes: self.nodes.clone(),
        };
        copy
    }
}

impl BPlusTree {
    /// An empty tree, in its first phase.
    pub fn new() -> (tree: Self)
        ensures
            tree@ == (TreeView {
                arena: Map::<u16, NodeView>::empty(),
                root: NodeView { leaf: false, entries: Seq::<KeyValue>::empty(), is_root: true },
                leaf_tree: NodeView { leaf: true, entries: Seq::<KeyValue>::empty(), is_root: true },
                unique_id: 1,
            }),
            tree@.wf(),
            tree@.sorted(),
            tree@.is_leaf_root(),
            tree@.bag() == Multiset::<KeyValue>::empty(),
    {
        let tree = BPlusTree {
            root: Node::new(true),
            leaf_tree: Node { node_type: NodeType::Leaf(Vec::new()), is_root: true },
            unique_id: 1,
            nodes: HashMap::new(),
        };
        proof {
            assert(tree@.arena =~= Map::<u16, NodeView>::empty());
            let held = tree@.leaf_tree.entries.to_multiset();
            vstd::seq_lib::to_multiset_len(tree@.leaf_tree.entries);
            assert forall|e: KeyValue| held.count(e) == 0 by {
                vstd::multiset::axiom_count_le_len(held, e);
            }
        }
        tree
    }

    /// Whether the tree is still in its first phase.
    pub fn is_leaf_root(&self) -> (first: bool)
        ensures
            first == self@.is_leaf_root(),
    {
        self.leaf_tree.entries().len() < MAX_KEY + 1
    }

    /// The node stored under `id`, if there is one.
    pub fn node(&self, id: u16) -> (found: Option<&Node>)
        ensures
            found is Some == self@.arena.contains_key(id),
            found is Some ==> found->0@ == self@.arena[id],
    {
        self.nodes.get(&id)
    }

    /// The cached copy of the root.
    pub fn root(&self) -> (root: &Node)
        ensures
            root@ == self@.root,
    {
        &self.root
    }

    /// The buffer that holds the entries during the first phase.
    pub fn leaf_tree(&self) -> (buffer: &Node)
        ensures
            buffer@ == self@.leaf_tree,
    {
        &self.leaf_tree
    }

    /// The identifier that the next new node gets.
    pub fn unique_id(&self) -> (next: u16)
        ensures
            next == self@.unique_id,
    {
        self.unique_id
    }

    /// The node stored under `id`.
    pub(crate) fn peek(&self, id: u16) -> (node: &Node)
        requires
            self@.arena.contains_key(id),
        ensures
            node@ == self@.arena[id],
    {
        self.nodes.get(&id).unwrap()
    }

    /// The node stored under `id`, to be changed in place.
    pub(crate) fn peek_mut(&mut self, id: u16) -> (node: &mut Node)
        requires
            old(self)@.arena.contains_key(id),
        ensures
            node@ == old(self)@.arena[id],
            final(self)@.arena == old(self)@.arena.insert(id, final(node)@),
            final(self)@.root == old(self)@.root,
            final(self)@.leaf_tree == old(self)@.leaf_tree,
            final(self)@.unique_id == old(self)@.unique_id,
    {
        match self.nodes.entry(id) {
            Entry::Occupied(slot) => slot.into_mut(),
            Entry::Vacant(slot) => {
                slot.insert(Node::new(false))
            },
        }
    }

    /// Stores `node` under `id`, in place of what was there.
    pub(crate) fn store(&mut self, id: u16, node: Node)
        ensures
            final(self)@ == old(self)@.put(id, node@),
    {
        self.nodes.insert(id, node);
        assert(final(self)@.arena =~= old(self)@.arena.insert(id, node@));
    }

    /// Takes the node `id` out of the arena.
    pub(crate) fn take(&mut self, id: u16) -> (node: Node)
        requires
            old(self)@.arena.contains_key(id),
        ensures
            node@ == old(self)@.arena[id],
            final(self)@ == old(self)@.without(id),
    {
        let node = self.nodes.remove(&id).unwrap();
        assert(final(self)@.arena =~= old(self)@.arena.remove(id));
        node
    }

    /// Hands out the next free identifier.
    pub(crate) fn fresh_id(&mut self) -> (id: u16)
        requires
            old(self)@.unique_id < u16::MAX,
        ensures
            id == old(self)@.unique_id,
            final(self)@ == old(self)@.bumped(),
    {
        let id = self.unique_id;
        self.unique_id = id + 1;
        id
    }

    /// Brings the cached root up to date.
    pub(crate) fn refresh_root(&mut self)
        requires
            old(self)@.arena.contains_key(0),
        ensures
            final(self)@ == old(self)@.refreshed(),
    {
        self.root = self.nodes.get(&0).unwrap().clone();
    }

    /// Whether `node` holds fewer entries than a node below the root may.
    pub fn is_underflow(&self, node: &Node) -> (under: bool)
        ensures
            under == node@.underflows(),
    {
        match &node.node_type {
            NodeType::Internal(keys) => keys.len() < MIN_CHILD + 1,
            NodeType::Leaf(kvs) => kvs.len() < MIN_KEY,
        }
    }

    /// Whether `node` holds more entries than it may.
    pub fn is_overflow(&self, node: &Node) -> (over: bool)
        ensures
            over == node@.overflows(),
    {
        match &node.node_type {
            NodeType::Internal(keys) => keys.len() > MAX_CHILD,
            NodeType::Leaf(kvs) => kvs.len() > MAX_KEY,
        }
    }

    /// The first phase's buffer, to be changed in place.
    pub(crate) fn leaf_tree_mut(&mut self) -> (buffer: &mut Node)
        ensures
            buffer@ == old(self)@.leaf_tree,
            final(self)@ == (TreeView { leaf_tree: final(buffer)@, ..old(self)@ }),
    {
        &mut self.leaf_tree
    }

    /// Replaces the cached root.
    pub(crate) fn set_root(&mut self, node: Node)
        ensures
            final(self)@ == (TreeView { root: node@, ..old(self)@ }),
    {
        self.root = node;
    }
}

} // verus!
