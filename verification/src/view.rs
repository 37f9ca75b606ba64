//! The tree as plain data, and what a search walks through.

use vstd::prelude::*;
use crate::entry::route;
use crate::node::{NodeView, MAX_KEY};

verus! {

/// The whole tree as plain data: the arena, the cached root, the buffer of
/// the first phase and the next free identifier.
pub struct TreeView {
    pub arena: Map<u16, NodeView>,
    pub root: NodeView,
    pub leaf_tree: NodeView,
    pub unique_id: u16,
}

/// The identifiers met when `key` is dispatched downwards from `id`, at most
/// `depth` steps deep: `id` first, a leaf last.
pub open spec fn walk(arena: Map<u16, NodeView>, id: u16, key: u16, depth: nat) -> Seq<u16>
    decreases depth,
{
    if depth == 0 || !arena.contains_key(id) || arena[id].leaf || arena[id].entries.len() == 0 {
        seq![id]
    } else {
        let es = arena[id].entries;
        seq![id] + walk(arena, es[route(es, key)].value, key, (depth - 1) as nat)
    }
}

impl TreeView {
    /// The first phase: the index is the bare buffer, which is not yet over
    /// its capacity.
    pub open spec fn is_leaf_root(self) -> bool {
        self.leaf_tree.entries.len() < MAX_KEY + 1
    }

    /// The same tree with `node` stored under `id`.
    pub open spec fn put(self, id: u16, node: NodeView) -> TreeView {
        TreeView { arena: self.arena.insert(id, node), ..self }
    }

    /// The same tree without the node `id`.
    pub open spec fn without(self, id: u16) -> TreeView {
        TreeView { arena: self.arena.remove(id), ..self }
    }

    /// The same tree with the next free identifier taken.
    pub open spec fn bumped(self) -> TreeView {
        TreeView { unique_id: (self.unique_id + 1) as u16, ..self }
    }

    /// The same tree with the cached root brought up to date.
    pub open spec fn refreshed(self) -> TreeView {
        TreeView { root: self.arena[0], ..self }
    }
}

} // verus!
