//! Nodes: an ordered entry list tagged as internal or leaf.

use vstd::prelude::*;
use crate::entry::{KeyValue, route, rank_from};

verus! {

/// Degree of the tree.
pub const BTREE_MAX: usize = 4;

/// Fewest entries a leaf other than the root may hold.
pub const MIN_KEY: usize = BTREE_MAX / 2;

/// Most entries a leaf may hold.
pub const MAX_KEY: usize = BTREE_MAX;

/// An internal node other than the root holds at least `MIN_CHILD + 1` entries.
pub const MIN_CHILD: usize = (BTREE_MAX + 1) / 2;

/// Most entries an internal node may hold.
pub const MAX_CHILD: usize = BTREE_MAX + 1;

/// The separator of an internal node's last entry, which bounds nothing.
pub const SENTINEL: u16 = 0;

/// The two kinds of node, each with its ordered entries.
#[derive(Debug)]
pub enum NodeType {
    Internal(Vec<KeyValue>),
    Leaf(Vec<KeyValue>),
}

/// A node of the tree.
#[derive(Debug)]
pub struct Node {
    pub node_type: NodeType,
    pub is_root: bool,
}

/// What a node is, as plain data.
pub struct NodeView {
    pub leaf: bool,
    pub entries: Seq<KeyValue>,
    pub is_root: bool,
}

impl NodeView {
    /// Most entries the node may hold.
    pub open spec fn cap(self) -> int {
        if self.leaf {
            MAX_KEY as int
        } else {
            MAX_CHILD as int
        }
    }

    /// Whether the node holds more entries than it may.
    pub open spec fn overflows(self) -> bool {
        self.entries.len() > self.cap()
    }

    /// Whether the node holds fewer entries than a node below the root may.
    pub open spec fn underflows(self) -> bool {
        if self.leaf {
            self.entries.len() < MIN_KEY
        } else {
            self.entries.len() < MIN_CHILD + 1
        }
    }

    /// The same node with other entries.
    pub open spec fn with(self, entries: Seq<KeyValue>) -> NodeView {
        NodeView { entries, ..self }
    }
}

impl View for NodeType {
    type V = Seq<KeyValue>;

    open spec fn view(&self) -> Seq<KeyValue> {
        match self {
            NodeType::Internal(es) => es@,
            NodeType::Leaf(es) => es@,
        }
    }
}

impl Clone for NodeType {
    fn clone(&self) -> (copy: Self)
        ensures
            copy@ == self@,
            copy is Leaf == self is Leaf,
    {
        match self {
            NodeType::Internal(es) => {
                let copy = es.clone();
                assert(copy@ =~= es@);
                NodeType::Internal(copy)
            },
            NodeType::Leaf(es) => {
                let copy = es.clone();
                assert(copy@ =~= es@);
                NodeType::Leaf(copy)
            },
        }
    }
}

impl View for Node {
    type V = NodeView;

    open spec fn view(&self) -> NodeView {
        NodeView { leaf: self.node_type is Leaf, entries: self.node_type@, is_root: self.is_root }
    }
}

impl Clone for Node {
    fn clone(&self) -> (copy: Self)
        ensures
            copy@ == self@,
    {
        Node { node_type: self.node_type.clone(), is_root: self.is_root }
    }
}

impl Node {
    /// An internal node without entries.
    pub fn new(is_root: bool) -> (node: Self)
        ensures
            node@ == (NodeView { leaf: false, entries: Seq::<KeyValue>::empty(), is_root }),
    {
        Node { node_type: NodeType::Internal(Vec::new()), is_root }
    }

    /// A node of the given kind with the given entries.
    pub fn with_entries(leaf: bool, entries: Vec<KeyValue>, is_root: bool) -> (node: Self)
        ensures
            node@ == (NodeView { leaf, entries: entries@, is_root }),
    {
        if leaf {
            Node { node_type: NodeType::Leaf(entries), is_root }
        } else {
            Node { node_type: NodeType::Internal(entries), is_root }
        }
    }

    /// Whether the node is a leaf.
    pub fn is_leaf(&self) -> (leaf: bool)
        ensures
            leaf == self@.leaf,
    {
        match &self.node_type {
            NodeType::Internal(_) => false,
            NodeType::Leaf(_) => true,
        }
    }

    /// The node's entries, in order.
    pub fn entries(&self) -> (es: &Vec<KeyValue>)
        ensures
            es@ == self@.entries,
    {
        match &self.node_type {
            NodeType::Internal(es) => es,
            NodeType::Leaf(es) => es,
        }
    }

    /// The child that `key` is dispatched to: that of the first entry, the
    /// last one excepted, whose separator exceeds `key`, and that of the last
    /// entry if no separator does.
    pub fn get_child(&self, key: u16) -> (child: u16)
        requires
            !self@.leaf,
            self@.entries.len() > 0,
        ensures
            child == self@.entries[route(self@.entries, key)].value,
            0 <= route(self@.entries, key) < self@.entries.len(),
    {
        let es = self.entries();
        let last = es.len() - 1;
        let mut i: usize = 0;
        while i < last
            invariant
                es@ == self@.entries,
                last == es@.len() - 1,
                i <= last,
                route(es@, key) == rank_from(es@.drop_last(), key, i as int),
            decreases last - i,
        {
            assert(es@.drop_last()[i as int] == es@[i as int]);
            if key < es[i].key {
                return es[i].value;
            }
            i = i + 1;
        }
        es[last].value
    }

    /// The entry list, the node given up for it.
    pub fn into_entries(self) -> (es: Vec<KeyValue>)
        ensures
            es@ == self@.entries,
    {
        match self.node_type {
            NodeType::Internal(es) => es,
            NodeType::Leaf(es) => es,
        }
    }

    /// The entry list, to be changed in place.
    pub fn extract(&mut self) -> (es: &mut Vec<KeyValue>)
        ensures
            es@ == old(self)@.entries,
            final(self)@ == old(self)@.with(final(es)@),
    {
        match &mut self.node_type {
            NodeType::Internal(es) => es,
            NodeType::Leaf(es) => es,
        }
    }
}

} // verus!
