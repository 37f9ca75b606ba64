//! What makes an arena a tree: every node but the root hangs under exactly
//! one parent, all leaves lie at the same depth, and every node holds a
//! number of entries within its bounds.

use vstd::prelude::*;
use crate::entry::{
    KeyValue, distinct_children, has_child, has_key, key_index, lemma_rank_from, route,
};
use crate::node::{NodeView, MIN_KEY, MIN_CHILD};
use crate::view::{TreeView, walk};

verus! {

/// For every node, its height above the leaves and its parent.
pub struct Shape {
    pub level: Map<u16, nat>,
    pub parent: Map<u16, u16>,
}

/// Fewest entries that the node `id` may hold.
pub open spec fn floor(node: NodeView, id: u16) -> int {
    if id == 0 {
        if node.leaf {
            0
        } else {
            2
        }
    } else if node.leaf {
        MIN_KEY as int
    } else {
        MIN_CHILD as int + 1
    }
}

/// `a` if `id` is the node named by `slack`, else 0.
pub open spec fn allow(slack: Option<u16>, id: u16, a: int) -> int {
    if slack == Some(id) {
        a
    } else {
        0
    }
}

impl TreeView {
    /// `child` is in the arena and hangs under `id`.
    pub open spec fn child_ok(self, g: Shape, id: u16, child: u16) -> bool {
        &&& child != 0
        &&& self.arena.contains_key(child)
        &&& g.parent[child] == id
    }

    /// `id` is listed by its parent, an internal node one level up.
    pub open spec fn linked(self, g: Shape, id: u16) -> bool {
        let p = g.parent[id];
        &&& self.arena.contains_key(p)
        &&& !self.arena[p].leaf
        &&& g.level[p] == g.level[id] + 1
        &&& has_child(self.arena[p].entries, id)
    }

    /// The node `id` is in its place in the tree.
    pub open spec fn node_ok(self, g: Shape, id: u16) -> bool {
        let n = self.arena[id];
        &&& n.is_root == (id == 0)
        &&& n.leaf == (g.level[id] == 0)
        &&& g.level[id] <= g.level[0]
        &&& id != 0 ==> self.linked(g, id)
        &&& !n.leaf ==> {
            &&& n.entries.len() >= 1
            &&& distinct_children(n.entries)
            &&& forall|i: int|
                0 <= i < n.entries.len() ==> self.child_ok(g, id, (#[trigger] n.entries[i]).value)
        }
    }

    /// The node `id` holds a number of entries within its bounds, where the
    /// node `over` may hold one too many and the node `under` one too few.
    pub open spec fn fits(self, id: u16, over: Option<u16>, under: Option<u16>) -> bool {
        let n = self.arena[id];
        floor(n, id) - allow(under, id, 1) <= n.entries.len() <= n.cap() + allow(over, id, 1)
    }

    /// The arena is a tree of the shape `g`, but for one node that may be over
    /// its bounds and one that may be under.
    pub open spec fn inv(self, g: Shape, over: Option<u16>, under: Option<u16>) -> bool {
        &&& !self.is_leaf_root()
        &&& self.leaf_tree.leaf
        &&& self.leaf_tree.is_root
        &&& self.arena.contains_key(0)
        &&& forall|id: u16| #[trigger]
            self.arena.contains_key(id) ==> id < self.unique_id && self.node_ok(g, id) && self.fits(
                id,
                over,
                under,
            )
    }

    /// The arena is a tree.
    pub open spec fn shaped(self) -> bool {
        exists|g: Shape| self.inv(g, None, None)
    }

    /// A shape of the arena.
    pub open spec fn shape(self) -> Shape {
        choose|g: Shape| self.inv(g, None, None)
    }

    /// The tree before it has grown an arena: the buffer holds everything.
    pub open spec fn budding(self) -> bool {
        &&& self.is_leaf_root()
        &&& self.leaf_tree.leaf
        &&& self.leaf_tree.is_root
        &&& self.arena == Map::<u16, NodeView>::empty()
        &&& self.unique_id == 1
        &&& self.root == (NodeView { leaf: false, entries: Seq::<KeyValue>::empty(), is_root: true })
    }

    /// The tree is well formed: either it is in its first phase, with an empty
    /// arena, or the arena is a tree whose root the cache repeats.
    pub open spec fn wf(self) -> bool {
        if self.is_leaf_root() {
            self.budding()
        } else {
            self.shaped() && self.root == self.arena[0]
        }
    }

    /// Levels between the root and the leaves; 0 while the root is a leaf.
    pub open spec fn height(self) -> nat {
        self.shape().level[0]
    }

    /// The identifiers that a search for `key` visits, from the root to a leaf.
    pub open spec fn search_path(self, key: u16) -> Seq<u16> {
        walk(self.arena, 0, key, self.height())
    }

    /// The leaf that a search for `key` ends in.
    pub open spec fn leaf_for(self, key: u16) -> u16 {
        self.search_path(key).last()
    }

    /// The node just above the leaf that a search for `key` ends in; 0 where
    /// that leaf is the root and has none above it.
    pub open spec fn parent_for(self, key: u16) -> u16 {
        let path = self.search_path(key);
        if path.len() >= 2 {
            path[path.len() - 2]
        } else {
            0
        }
    }

    /// The node that holds the entries with `key`, if any node does: the
    /// buffer in the first phase, later the leaf that a search ends in.
    pub open spec fn holder(self, key: u16) -> NodeView {
        if self.is_leaf_root() {
            self.leaf_tree
        } else {
            self.arena[self.leaf_for(key)]
        }
    }

    /// Whether a search for `key` finds an entry.
    pub open spec fn finds(self, key: u16) -> bool {
        has_key(self.holder(key).entries, key)
    }

    /// The first entry that a search for `key` comes upon.
    pub open spec fn found(self, key: u16) -> KeyValue {
        let es = self.holder(key).entries;
        es[key_index(es, key)]
    }

    /// The payload stored with `key`, if a search finds the key.
    pub open spec fn get(self, key: u16) -> Option<u16> {
        if self.finds(key) {
            Some(self.found(key).value)
        } else {
            None
        }
    }
}

/// Two shapes of one arena give every node the same level.
pub proof fn lemma_level_unique(v: TreeView, g1: Shape, g2: Shape, id: u16)
    requires
        v.inv(g1, None, None),
        v.inv(g2, None, None),
        v.arena.contains_key(id),
    ensures
        g1.level[id] == g2.level[id],
    decreases g1.level[id],
{
    let n = v.arena[id];
    if !n.leaf {
        let c = n.entries[0].value;
        lemma_level_unique(v, g1, g2, c);
    }
}

/// Any shape of the arena tells the tree's height.
pub proof fn lemma_height(v: TreeView, g: Shape)
    requires
        v.inv(g, None, None),
    ensures
        v.shaped(),
        v.height() == g.level[0],
{
    lemma_level_unique(v, v.shape(), g, 0);
}

/// The child that a key is dispatched to is a node one level down.
pub proof fn lemma_route(v: TreeView, g: Shape, over: Option<u16>, under: Option<u16>, id: u16, key: u16)
    requires
        v.inv(g, over, under),
        v.arena.contains_key(id),
        !v.arena[id].leaf,
    ensures
        0 <= route(v.arena[id].entries, key) < v.arena[id].entries.len(),
        ({
            let c = v.arena[id].entries[route(v.arena[id].entries, key)].value;
            &&& v.arena.contains_key(c)
            &&& c != 0
            &&& g.parent[c] == id
            &&& g.level[c] + 1 == g.level[id]
        }),
{
    let es = v.arena[id].entries;
    lemma_rank_from(es.drop_last(), key, 0);
}

/// A walk from a node, as deep as the node is high, has one identifier per
/// level and ends in a leaf.
pub proof fn lemma_walk(v: TreeView, g: Shape, over: Option<u16>, under: Option<u16>, id: u16, key: u16)
    requires
        v.inv(g, over, under),
        v.arena.contains_key(id),
    ensures
        ({
            let w = walk(v.arena, id, key, g.level[id]);
            &&& w.len() == g.level[id] + 1
            &&& w[0] == id
            &&& forall|i: int|
                0 <= i < w.len() ==> v.arena.contains_key(#[trigger] w[i]) && g.level[w[i]] + i
                    == g.level[id]
            &&& forall|i: int| 0 < i < w.len() ==> g.parent[#[trigger] w[i]] == w[i - 1]
            &&& v.arena[w.last()].leaf
        }),
    decreases g.level[id],
{
    let n = v.arena[id];
    let w = walk(v.arena, id, key, g.level[id]);
    if !n.leaf {
        lemma_route(v, g, over, under, id, key);
        let c = n.entries[route(n.entries, key)].value;
        lemma_walk(v, g, over, under, c, key);
        assert forall|i: int| 0 <= i < w.len() implies v.arena.contains_key(#[trigger] w[i])
            && g.level[w[i]] + i == g.level[id] by {}
        assert forall|i: int| 0 < i < w.len() implies g.parent[#[trigger] w[i]] == w[i - 1] by {}
    }
}

/// A node that is within its bounds needs no allowance.
pub proof fn lemma_slack(
    v: TreeView,
    g: Shape,
    over: Option<u16>,
    under: Option<u16>,
    over2: Option<u16>,
    under2: Option<u16>,
)
    requires
        v.inv(g, over, under),
        over is Some && over != over2 ==> v.arena.contains_key(over->0) ==> !v.arena[over->0].overflows(),
        under is Some && under != under2 ==> v.arena.contains_key(under->0) ==> v.fits(
            under->0,
            None,
            None,
        ),
    ensures
        v.inv(g, over2, under2),
{
    assert forall|id: u16| #[trigger] v.arena.contains_key(id) implies v.fits(id, over2, under2) by {}
}

} // verus!
