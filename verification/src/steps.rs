//! The steps that change a tree, each as a function on the tree's view:
//! placing and removing an entry in a leaf, splitting a node, merging two
//! siblings, moving an entry between siblings, and growing or collapsing the
//! root.

use vstd::prelude::*;
use crate::entry::{KeyValue, child_index, has_child, key_index, rank};
use crate::node::{NodeView, MAX_KEY, SENTINEL};
use crate::shape::Shape;
use crate::view::TreeView;

verus! {

/// The entries of two neighbouring siblings as one list. Between internal
/// nodes, the left one's closing entry takes the separator `sep` that the
/// parent holds for the left node.
pub open spec fn joined(l: NodeView, sep: u16, r: NodeView) -> Seq<KeyValue> {
    if l.leaf {
        l.entries + r.entries
    } else {
        l.entries.update(
            l.entries.len() - 1,
            KeyValue { key: sep, value: l.entries.last().value },
        ) + r.entries
    }
}

/// The first `k` entries of `c` as the entries of a node: in an internal node
/// the last of them closes the node, with the sentinel for its separator.
pub open spec fn head(leaf: bool, c: Seq<KeyValue>, k: int) -> Seq<KeyValue> {
    if leaf {
        c.take(k)
    } else {
        c.take(k).update(k - 1, KeyValue { key: SENTINEL, value: c[k - 1].value })
    }
}

/// The separator between the first `k` entries of `c` and the rest.
pub open spec fn cut_key(leaf: bool, c: Seq<KeyValue>, k: int) -> u16 {
    if leaf {
        c[k].key
    } else {
        c[k - 1].key
    }
}

/// The parents after the children listed in `es` have come under `to`.
pub open spec fn adopt(parent: Map<u16, u16>, leaf: bool, es: Seq<KeyValue>, to: u16) -> Map<
    u16,
    u16,
> {
    if leaf {
        parent
    } else {
        Map::new(
            |c: u16| true,
            |c: u16|
                if has_child(es, c) {
                    to
                } else {
                    parent[c]
                },
        )
    }
}

impl TreeView {
    /// The entry `kv` placed in the leaf `leaf`, behind the entries whose key
    /// does not exceed its own.
    pub open spec fn leaf_insert(self, leaf: u16, kv: KeyValue) -> TreeView {
        let n = self.arena[leaf];
        self.put(leaf, n.with(n.entries.insert(rank(n.entries, kv.key), kv)))
    }

    /// The first entry with `key` taken out of the leaf `leaf`.
    pub open spec fn leaf_remove(self, leaf: u16, key: u16) -> TreeView {
        let n = self.arena[leaf];
        self.put(leaf, n.with(n.entries.remove(key_index(n.entries, key))))
    }

    /// The node `x` split under its parent `p`: the lower half of its entries
    /// goes to a new node, which the parent lists just before `x`.
    pub open spec fn split(self, x: u16, p: u16) -> TreeView {
        let n = self.arena[x];
        let c = n.entries;
        let k = c.len() as int / 2;
        let y = self.unique_id;
        let pn = self.arena[p];
        let at = child_index(pn.entries, x);
        TreeView {
            arena: self.arena.insert(
                y,
                NodeView { leaf: n.leaf, entries: head(n.leaf, c, k), is_root: false },
            ).insert(x, n.with(c.skip(k))).insert(
                p,
                pn.with(pn.entries.insert(at, KeyValue { key: cut_key(n.leaf, c, k), value: y })),
            ),
            unique_id: (y + 1) as u16,
            ..self
        }
    }

    /// The shape after `split`.
    pub open spec fn split_shape(self, g: Shape, x: u16, p: u16) -> Shape {
        let n = self.arena[x];
        let k = n.entries.len() as int / 2;
        let y = self.unique_id;
        Shape {
            level: g.level.insert(y, g.level[x]),
            parent: adopt(g.parent, n.leaf, head(n.leaf, n.entries, k), y).insert(y, p),
        }
    }

    /// The node `l` merged into its right neighbour `r` under their parent
    /// `p`: `r` holds the entries of both, `l` and the parent's entry for it
    /// are gone.
    pub open spec fn merge(self, l: u16, r: u16, p: u16) -> TreeView {
        let pn = self.arena[p];
        let at = child_index(pn.entries, l);
        let c = joined(self.arena[l], pn.entries[at].key, self.arena[r]);
        TreeView {
            arena: self.arena.remove(l).insert(r, self.arena[r].with(c)).insert(
                p,
                pn.with(pn.entries.remove(at)),
            ),
            ..self
        }
    }

    /// The shape after `merge`.
    pub open spec fn merge_shape(self, g: Shape, l: u16, r: u16) -> Shape {
        Shape { parent: adopt(g.parent, self.arena[l].leaf, self.arena[l].entries, r), ..g }
    }

    /// The entries of the neighbours `l` and `r` under `p` dealt anew: `l`
    /// gets the first `k` of them, `r` the rest, and the parent's separator
    /// for `l` follows.
    pub open spec fn shift(self, l: u16, r: u16, p: u16, k: int) -> TreeView {
        let pn = self.arena[p];
        let at = child_index(pn.entries, l);
        let leaf = self.arena[l].leaf;
        let c = joined(self.arena[l], pn.entries[at].key, self.arena[r]);
        TreeView {
            arena: self.arena.insert(l, self.arena[l].with(head(leaf, c, k))).insert(
                r,
                self.arena[r].with(c.skip(k)),
            ).insert(
                p,
                pn.with(pn.entries.update(at, KeyValue { key: cut_key(leaf, c, k), value: l })),
            ),
            ..self
        }
    }

    /// The shape after `shift`.
    pub open spec fn shift_shape(self, g: Shape, l: u16, r: u16, p: u16, k: int) -> Shape {
        let pn = self.arena[p];
        let at = child_index(pn.entries, l);
        let leaf = self.arena[l].leaf;
        let c = joined(self.arena[l], pn.entries[at].key, self.arena[r]);
        Shape { parent: adopt(adopt(g.parent, leaf, head(leaf, c, k), l), leaf, c.skip(k), r), ..g }
    }

    /// The tree one level higher: a new node takes over all that the root
    /// held, and the root keeps one entry, for that node.
    pub open spec fn grow(self) -> TreeView {
        let n = self.arena[0];
        let y = self.unique_id;
        TreeView {
            arena: self.arena.insert(y, NodeView { is_root: false, ..n }).insert(
                0,
                NodeView {
                    leaf: false,
                    entries: seq![KeyValue { key: SENTINEL, value: y }],
                    is_root: true,
                },
            ),
            unique_id: (y + 1) as u16,
            ..self
        }
    }

    /// The shape after `grow`.
    pub open spec fn grow_shape(self, g: Shape) -> Shape {
        let n = self.arena[0];
        let y = self.unique_id;
        Shape {
            level: g.level.insert(y, g.level[0]).insert(0, g.level[0] + 1),
            parent: adopt(g.parent, n.leaf, n.entries, y).insert(y, 0),
        }
    }

    /// The tree one level lower: the root takes over all that its only child
    /// held, kind included, and the child is gone.
    pub open spec fn collapse(self) -> TreeView {
        let c = self.arena[0].entries[0].value;
        TreeView {
            arena: self.arena.remove(c).insert(0, NodeView { is_root: true, ..self.arena[c] }),
            ..self
        }
    }

    /// The shape after `collapse`.
    pub open spec fn collapse_shape(self, g: Shape) -> Shape {
        let c = self.arena[0].entries[0].value;
        Shape {
            level: g.level.insert(0, g.level[c]),
            parent: adopt(g.parent, self.arena[c].leaf, self.arena[c].entries, 0),
        }
    }
}

impl TreeView {
    /// The tree after the overflow along `path` has been dealt with, from the
    /// path's last node up: a node over its bounds is split under the node
    /// before it, and a root over its bounds has the tree grow and is split
    /// under the new root.
    pub open spec fn settle_up(self, path: Seq<u16>) -> TreeView
        decreases path.len(),
    {
        if path.len() <= 1 {
            if self.arena[0].overflows() {
                self.grow().split(self.unique_id, 0)
            } else {
                self
            }
        } else {
            let x = path.last();
            let next = if self.arena[x].overflows() {
                self.split(x, path[path.len() - 2])
            } else {
                self
            };
            next.settle_up(path.drop_last())
        }
    }

    /// How many new nodes it takes to place one more entry in the last node
    /// of `path`: one for every node at the path's end that is full, and one
    /// more where all are full and the tree must grow.
    pub open spec fn ids_for(self, path: Seq<u16>) -> nat
        decreases path.len(),
    {
        if path.len() == 0 {
            1
        } else if self.arena[path.last()].entries.len() >= self.arena[path.last()].cap() {
            1 + self.ids_for(path.drop_last())
        } else {
            0
        }
    }

    /// Whether the identifiers that are left suffice for the nodes that an
    /// insertion of `key` needs. The last identifier, `u16::MAX`, is never
    /// given to a node.
    pub open spec fn has_room(self, key: u16) -> bool {
        self.is_leaf_root() || self.unique_id + self.ids_for(self.search_path(key)) <= u16::MAX
    }

    /// The arena's first two nodes, made from a buffer that has gone over its
    /// capacity: a root with one entry and, under it, a leaf with the
    /// buffer's entries.
    pub open spec fn sprouted(self, es: Seq<KeyValue>) -> TreeView {
        let root = NodeView {
            leaf: false,
            entries: seq![KeyValue { key: SENTINEL, value: self.unique_id }],
            is_root: true,
        };
        TreeView {
            arena: self.arena.insert(0, root).insert(
                self.unique_id,
                NodeView { leaf: true, entries: es, is_root: false },
            ),
            root,
            leaf_tree: self.leaf_tree.with(es),
            unique_id: (self.unique_id + 1) as u16,
        }
    }

    /// The tree after `kv` has been inserted.
    ///
    /// In the first phase the entry goes into the buffer; once the buffer is
    /// over its capacity, its entries move into the arena and are split under
    /// a new root. Later the entry goes into the leaf that a search for its
    /// key ends in, and the nodes on the way back are split as far as they
    /// overflow. Where too few identifiers are left for these splits, nothing
    /// changes.
    pub open spec fn inserted(self, kv: KeyValue) -> TreeView {
        if self.is_leaf_root() {
            let es = self.leaf_tree.entries.insert(rank(self.leaf_tree.entries, kv.key), kv);
            if es.len() <= MAX_KEY {
                TreeView { leaf_tree: self.leaf_tree.with(es), ..self }
            } else {
                self.sprouted(es).split(self.unique_id, 0).refreshed()
            }
        } else if !self.has_room(kv.key) {
            self
        } else {
            self.leaf_insert(self.leaf_for(kv.key), kv).settle_up(
                self.search_path(kv.key),
            ).refreshed()
        }
    }
}

impl TreeView {
    /// Whether the entries of the nodes `a` and `b` fit into one node.
    pub open spec fn fit_together(self, a: u16, b: u16) -> bool {
        self.arena[a].entries.len() + self.arena[b].entries.len() <= self.arena[a].cap()
    }

    /// The node `x`, which is under its bounds, set right under its parent
    /// `p` with the help of a neighbour: the right one for the parent's first
    /// child, the left one for any other. Where the entries of both fit into
    /// one node, the left of the two is merged into the right; else one entry
    /// moves over from the neighbour.
    pub open spec fn distribute(self, x: u16, p: u16) -> TreeView {
        let pe = self.arena[p].entries;
        let i = child_index(pe, x);
        if i == 0 {
            let s = pe[1].value;
            if self.fit_together(x, s) {
                self.merge(x, s, p)
            } else {
                self.shift(x, s, p, self.arena[x].entries.len() as int + 1)
            }
        } else {
            let s = pe[i - 1].value;
            if self.fit_together(x, s) {
                self.merge(s, x, p)
            } else {
                self.shift(s, x, p, self.arena[s].entries.len() - 1)
            }
        }
    }

    /// The shape after `distribute`.
    pub open spec fn distribute_shape(self, g: Shape, x: u16, p: u16) -> Shape {
        let pe = self.arena[p].entries;
        let i = child_index(pe, x);
        if i == 0 {
            let s = pe[1].value;
            if self.fit_together(x, s) {
                self.merge_shape(g, x, s)
            } else {
                self.shift_shape(g, x, s, p, self.arena[x].entries.len() as int + 1)
            }
        } else {
            let s = pe[i - 1].value;
            if self.fit_together(x, s) {
                self.merge_shape(g, s, x)
            } else {
                self.shift_shape(g, s, x, p, self.arena[s].entries.len() - 1)
            }
        }
    }

    /// Whether the root is an internal node with a single child.
    pub open spec fn root_is_spare(self) -> bool {
        !self.arena[0].leaf && self.arena[0].entries.len() == 1
    }

    /// The tree after the underflow along `path` has been dealt with, from
    /// the path's last node up to the root's child, and a root left with a
    /// single child has been collapsed.
    pub open spec fn settle_down(self, path: Seq<u16>) -> TreeView
        decreases path.len(),
    {
        if path.len() <= 1 {
            if self.root_is_spare() {
                self.collapse()
            } else {
                self
            }
        } else {
            let x = path.last();
            let next = if self.arena[x].underflows() {
                self.distribute(x, path[path.len() - 2])
            } else {
                self
            };
            next.settle_down(path.drop_last())
        }
    }

    /// The tree after the first entry with `key` that a search comes upon has
    /// been deleted; the tree itself where a search finds none.
    pub open spec fn deleted(self, key: u16) -> TreeView {
        if !self.finds(key) {
            self
        } else if self.is_leaf_root() {
            let es = self.leaf_tree.entries;
            TreeView { leaf_tree: self.leaf_tree.with(es.remove(key_index(es, key))), ..self }
        } else {
            self.leaf_remove(self.leaf_for(key), key).settle_down(
                self.search_path(key),
            ).refreshed()
        }
    }
}

} // verus!
