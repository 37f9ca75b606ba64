//! Every step leaves a search tree a search tree.

use vstd::prelude::*;
use crate::entry::{KeyValue, child_index, has_key, key_index, lemma_key_index_from, rank};
use crate::keep_shape::{lemma_neighbour, neighbour, siblings};
use crate::lists::lemma_child_index;
use crate::order::{
    Ranges, lemma_child_range, lemma_cut_ok, lemma_insert_ascending, lemma_joined_ok,
    lemma_leaf_list, lemma_list_ok_same, lemma_parent_insert_ok, lemma_parent_rekey_ok,
    lemma_parent_remove_ok, lemma_sep_between, lemma_single_list,
};
use crate::shape::Shape;
use crate::steps::{cut_key, head, joined};
use crate::view::TreeView;

verus! {

impl TreeView {
    /// The ranges after `split`.
    pub open spec fn split_ranges(self, r: Ranges, x: u16) -> Ranges {
        let n = self.arena[x];
        let d = cut_key(n.leaf, n.entries, n.entries.len() as int / 2) as int;
        let y = self.unique_id;
        Ranges { lo: r.lo.insert(y, r.lo[x]).insert(x, d), hi: r.hi.insert(y, d) }
    }

    /// The ranges after `merge`.
    pub open spec fn merge_ranges(self, r: Ranges, l: u16, rt: u16) -> Ranges {
        Ranges { lo: r.lo.insert(rt, r.lo[l]), hi: r.hi }
    }

    /// The ranges after `shift`.
    pub open spec fn shift_ranges(self, r: Ranges, l: u16, rt: u16, p: u16, k: int) -> Ranges {
        let pn = self.arena[p];
        let at = child_index(pn.entries, l);
        let c = joined(self.arena[l], pn.entries[at].key, self.arena[rt]);
        let d = cut_key(self.arena[l].leaf, c, k) as int;
        Ranges { lo: r.lo.insert(rt, d), hi: r.hi.insert(l, d) }
    }

    /// The ranges after `distribute`.
    pub open spec fn distribute_ranges(self, r: Ranges, x: u16, p: u16) -> Ranges {
        let pe = self.arena[p].entries;
        let i = child_index(pe, x);
        if i == 0 {
            let s = pe[1].value;
            if self.fit_together(x, s) {
                self.merge_ranges(r, x, s)
            } else {
                self.shift_ranges(r, x, s, p, self.arena[x].entries.len() as int + 1)
            }
        } else {
            let s = pe[i - 1].value;
            if self.fit_together(x, s) {
                self.merge_ranges(r, s, x)
            } else {
                self.shift_ranges(r, s, x, p, self.arena[s].entries.len() - 1)
            }
        }
    }

    /// The ranges after `grow`.
    pub open spec fn grow_ranges(self, r: Ranges) -> Ranges {
        Ranges { lo: r.lo.insert(self.unique_id, 0), hi: r.hi.insert(self.unique_id, 65536) }
    }
}

/// An entry with a new key, placed in the leaf that answers for the key,
/// leaves a search tree.
pub proof fn lemma_leaf_insert_order(v: TreeView, r: Ranges, leaf: u16, kv: KeyValue)
    requires
        v.ranged(r),
        v.arena.contains_key(leaf),
        v.arena[leaf].leaf,
        r.lo[leaf] <= kv.key < r.hi[leaf],
        !has_key(v.arena[leaf].entries, kv.key),
    ensures
        v.leaf_insert(leaf, kv).ranged(r),
{
    let v2 = v.leaf_insert(leaf, kv);
    let es = v.arena[leaf].entries;
    let at = rank(es, kv.key);
    let t = es.insert(at, kv);
    lemma_leaf_list(es, r.lo[leaf], r.hi[leaf], r);
    lemma_leaf_list(t, r.lo[leaf], r.hi[leaf], r);
    lemma_insert_ascending(es, kv);
    assert forall|id: u16| #[trigger] v2.arena.contains_key(id) implies v2.range_ok(r, id) by {
        if id == leaf {
            assert forall|i: int| 0 <= i < t.len() implies r.lo[leaf] <= (#[trigger] t[i]).key
                < r.hi[leaf] by {
                if i < at {
                    assert(t[i] == es[i]);
                } else if i > at {
                    assert(t[i] == es[i - 1]);
                }
            }
        }
    }
}

/// An entry taken out of a leaf leaves a search tree.
pub proof fn lemma_leaf_remove_order(v: TreeView, r: Ranges, leaf: u16, key: u16)
    requires
        v.ranged(r),
        v.arena.contains_key(leaf),
        v.arena[leaf].leaf,
        has_key(v.arena[leaf].entries, key),
    ensures
        v.leaf_remove(leaf, key).ranged(r),
{
    let v2 = v.leaf_remove(leaf, key);
    let es = v.arena[leaf].entries;
    lemma_key_index_from(es, key, 0);
    let at = key_index(es, key);
    let t = es.remove(at);
    lemma_leaf_list(es, r.lo[leaf], r.hi[leaf], r);
    lemma_leaf_list(t, r.lo[leaf], r.hi[leaf], r);
    assert forall|id: u16| #[trigger] v2.arena.contains_key(id) implies v2.range_ok(r, id) by {
        if id == leaf {
            assert forall|i: int| 0 <= i < t.len() implies r.lo[leaf] <= (#[trigger] t[i]).key
                < r.hi[leaf] by {
                if i < at {
                    assert(t[i] == es[i]);
                } else {
                    assert(t[i] == es[i + 1]);
                }
            }
        }
    }
}

/// The children of a node in a tree are other nodes than the node, its
/// parent and any node that is not in the arena.
pub proof fn lemma_children_apart(v: TreeView, g: Shape, over: Option<u16>, under: Option<u16>, id: u16)
    requires
        v.inv(g, over, under),
        v.arena.contains_key(id),
        !v.arena[id].leaf,
    ensures
        forall|i: int|
            0 <= i < v.arena[id].entries.len() ==> {
                let c = (#[trigger] v.arena[id].entries[i]).value;
                &&& v.arena.contains_key(c)
                &&& c != 0
                &&& c != id
                &&& g.parent[c] == id
                &&& g.level[c] + 1 == g.level[id]
            },
{
    assert forall|i: int| 0 <= i < v.arena[id].entries.len() implies {
        let c = (#[trigger] v.arena[id].entries[i]).value;
        &&& v.arena.contains_key(c)
        &&& c != 0
        &&& c != id
        &&& g.parent[c] == id
        &&& g.level[c] + 1 == g.level[id]
    } by {
        let c = v.arena[id].entries[i].value;
        assert(v.child_ok(g, id, c));
    }
}

/// A split leaves a search tree.
pub proof fn lemma_split_order(v: TreeView, g: Shape, under: Option<u16>, r: Ranges, x: u16, p: u16)
    requires
        v.inv(g, Some(x), under),
        v.ranged(r),
        v.arena.contains_key(x),
        x != 0,
        p == g.parent[x],
        v.arena[x].entries.len() == v.arena[x].cap() + 1,
        v.unique_id < u16::MAX,
    ensures
        v.split(x, p).ranged(v.split_ranges(r, x)),
{
    let v2 = v.split(x, p);
    let r2 = v.split_ranges(r, x);
    let n = v.arena[x];
    let c = n.entries;
    let k = c.len() as int / 2;
    let y = v.unique_id;
    let pn = v.arena[p];
    let pe = pn.entries;
    let at = child_index(pe, x);
    let d = cut_key(n.leaf, c, k);

    lemma_child_index(pe, x);
    lemma_cut_ok(n.leaf, c, k, r.lo[x], r.hi[x], r);
    lemma_child_range(pe, r.lo[p], r.hi[p], r, at);
    if !n.leaf {
        lemma_children_apart(v, g, Some(x), under, x);
    }

    assert forall|id: u16| #[trigger] v2.arena.contains_key(id) implies v2.range_ok(r2, id) by {
        if id == y {
            let hd = head(n.leaf, c, k);
            if !n.leaf {
                assert forall|i: int| 0 <= i < hd.len() implies r2.lo[(#[trigger] hd[i]).value]
                    == r.lo[hd[i].value] && r2.hi[hd[i].value] == r.hi[hd[i].value] by {
                    assert(hd[i].value == c[i].value);
                }
            }
            lemma_list_ok_same(n.leaf, hd, r.lo[x], d as int, r, r2);
        } else if id == x {
            let tl = c.skip(k);
            if !n.leaf {
                assert forall|i: int| 0 <= i < tl.len() implies r2.lo[(#[trigger] tl[i]).value]
                    == r.lo[tl[i].value] && r2.hi[tl[i].value] == r.hi[tl[i].value] by {
                    assert(tl[i] == c[i + k]);
                }
            }
            lemma_list_ok_same(n.leaf, tl, d as int, r.hi[x], r, r2);
        } else if id == p {
            assert forall|i: int| 0 <= i < pe.len() && i != at implies r2.lo[(
            #[trigger] pe[i]).value] == r.lo[pe[i].value] && r2.hi[pe[i].value]
                == r.hi[pe[i].value] by {
                assert(v.node_ok(g, p));
            }
            lemma_parent_insert_ok(pe, at, d, y, r.lo[p], r.hi[p], r, r2);
        } else {
            let m = v.arena[id];
            if !m.leaf {
                assert forall|i: int| 0 <= i < m.entries.len() implies r2.lo[(
                #[trigger] m.entries[i]).value] == r.lo[m.entries[i].value]
                    && r2.hi[m.entries[i].value] == r.hi[m.entries[i].value] by {}
            }
            lemma_list_ok_same(m.leaf, m.entries, r.lo[id], r.hi[id], r, r2);
        }
    }
}

/// Two neighbours under one parent, the left one listed just before the
/// right one.
pub open spec fn adjacent(v: TreeView, l: u16, rt: u16, p: u16) -> bool {
    let pe = v.arena[p].entries;
    let at = child_index(pe, l);
    &&& 0 <= at < pe.len() - 1
    &&& pe[at].value == l
    &&& pe[at + 1].value == rt
}

/// A merge of two neighbours leaves a search tree.
pub proof fn lemma_merge_order(v: TreeView, g: Shape, u: u16, r: Ranges, l: u16, rt: u16, p: u16)
    requires
        v.inv(g, None, Some(u)),
        v.ranged(r),
        siblings(v, g, l, rt, p),
        adjacent(v, l, rt, p),
        v.arena[l].leaf == v.arena[rt].leaf,
        v.arena.contains_key(p),
        !v.arena[p].leaf,
    ensures
        v.merge(l, rt, p).ranged(v.merge_ranges(r, l, rt)),
{
    let v2 = v.merge(l, rt, p);
    let r2 = v.merge_ranges(r, l, rt);
    let ln = v.arena[l];
    let rn = v.arena[rt];
    let pe = v.arena[p].entries;
    let at = child_index(pe, l);
    let mid = pe[at].key;
    let c = joined(ln, mid, rn);
    assert(l != p && rt != p) by {
        assert(v.node_ok(g, l) && v.node_ok(g, rt));
    }
    lemma_child_range(pe, r.lo[p], r.hi[p], r, at);
    lemma_child_range(pe, r.lo[p], r.hi[p], r, at + 1);
    lemma_sep_between(pe, r.lo[p], r.hi[p], r, at);
    lemma_joined_ok(ln, rn, r.lo[l], mid, r.hi[rt], r);
    if !ln.leaf {
        lemma_children_apart(v, g, None, Some(u), l);
    }
    assert forall|id: u16| #[trigger] v2.arena.contains_key(id) implies v2.range_ok(r2, id) by {
        if id == rt {
            if !ln.leaf {
                assert forall|i: int| 0 <= i < c.len() implies r2.lo[(#[trigger] c[i]).value]
                    == r.lo[c[i].value] && r2.hi[c[i].value] == r.hi[c[i].value] by {
                    let n1 = ln.entries.len() as int;
                    if i < n1 {
                        assert(c[i].value == ln.entries[i].value);
                    } else {
                        assert(c[i] == rn.entries[i - n1]);
                    }
                }
            }
            lemma_list_ok_same(ln.leaf, c, r.lo[l], r.hi[rt], r, r2);
        } else if id == p {
            assert forall|i: int| 0 <= i < pe.len() && i != at && i != at + 1 implies r2.lo[(
            #[trigger] pe[i]).value] == r.lo[pe[i].value] && r2.hi[pe[i].value]
                == r.hi[pe[i].value] by {
                assert(v.node_ok(g, p));
            }
            lemma_parent_remove_ok(pe, at, r.lo[p], r.hi[p], r, r2);
        } else {
            let m = v.arena[id];
            if !m.leaf {
                assert forall|i: int| 0 <= i < m.entries.len() implies r2.lo[(
                #[trigger] m.entries[i]).value] == r.lo[m.entries[i].value]
                    && r2.hi[m.entries[i].value] == r.hi[m.entries[i].value] by {}
            }
            lemma_list_ok_same(m.leaf, m.entries, r.lo[id], r.hi[id], r, r2);
        }
    }
}

/// Dealing the entries of two neighbours anew leaves a search tree.
pub proof fn lemma_shift_order(
    v: TreeView,
    g: Shape,
    u: u16,
    r: Ranges,
    l: u16,
    rt: u16,
    p: u16,
    k: int,
)
    requires
        v.inv(g, None, Some(u)),
        v.ranged(r),
        siblings(v, g, l, rt, p),
        adjacent(v, l, rt, p),
        v.arena[l].leaf == v.arena[rt].leaf,
        v.arena.contains_key(p),
        !v.arena[p].leaf,
        0 < k < v.arena[l].entries.len() + v.arena[rt].entries.len(),
    ensures
        v.shift(l, rt, p, k).ranged(v.shift_ranges(r, l, rt, p, k)),
{
    let v2 = v.shift(l, rt, p, k);
    let r2 = v.shift_ranges(r, l, rt, p, k);
    let ln = v.arena[l];
    let rn = v.arena[rt];
    let pe = v.arena[p].entries;
    let at = child_index(pe, l);
    let mid = pe[at].key;
    let leaf = ln.leaf;
    let c = joined(ln, mid, rn);
    let d = cut_key(leaf, c, k);
    let hd = head(leaf, c, k);
    let tl = c.skip(k);
    assert(l != p && rt != p) by {
        assert(v.node_ok(g, l) && v.node_ok(g, rt));
    }
    lemma_child_range(pe, r.lo[p], r.hi[p], r, at);
    lemma_child_range(pe, r.lo[p], r.hi[p], r, at + 1);
    lemma_sep_between(pe, r.lo[p], r.hi[p], r, at);
    lemma_joined_ok(ln, rn, r.lo[l], mid, r.hi[rt], r);
    lemma_cut_ok(leaf, c, k, r.lo[l], r.hi[rt], r);
    if !leaf {
        lemma_children_apart(v, g, None, Some(u), l);
    }
    assert forall|i: int| 0 <= i < c.len() && !leaf implies r2.lo[(#[trigger] c[i]).value]
        == r.lo[c[i].value] && r2.hi[c[i].value] == r.hi[c[i].value] by {
        let n1 = ln.entries.len() as int;
        if i < n1 {
            assert(c[i].value == ln.entries[i].value);
        } else {
            assert(c[i] == rn.entries[i - n1]);
        }
    }
    assert forall|id: u16| #[trigger] v2.arena.contains_key(id) implies v2.range_ok(r2, id) by {
        if id == l {
            if !leaf {
                assert forall|i: int| 0 <= i < hd.len() implies r2.lo[(#[trigger] hd[i]).value]
                    == r.lo[hd[i].value] && r2.hi[hd[i].value] == r.hi[hd[i].value] by {
                    assert(hd[i].value == c[i].value);
                }
            }
            lemma_list_ok_same(leaf, hd, r.lo[l], d as int, r, r2);
        } else if id == rt {
            if !leaf {
                assert forall|i: int| 0 <= i < tl.len() implies r2.lo[(#[trigger] tl[i]).value]
                    == r.lo[tl[i].value] && r2.hi[tl[i].value] == r.hi[tl[i].value] by {
                    assert(tl[i] == c[i + k]);
                }
            }
            lemma_list_ok_same(leaf, tl, d as int, r.hi[rt], r, r2);
        } else if id == p {
            assert forall|i: int| 0 <= i < pe.len() && i != at && i != at + 1 implies r2.lo[(
            #[trigger] pe[i]).value] == r.lo[pe[i].value] && r2.hi[pe[i].value]
                == r.hi[pe[i].value] by {
                assert(v.node_ok(g, p));
            }
            lemma_parent_rekey_ok(pe, at, d, r.lo[p], r.hi[p], r, r2);
        } else {
            let m = v.arena[id];
            if !m.leaf {
                assert forall|i: int| 0 <= i < m.entries.len() implies r2.lo[(
                #[trigger] m.entries[i]).value] == r.lo[m.entries[i].value]
                    && r2.hi[m.entries[i].value] == r.hi[m.entries[i].value] by {}
            }
            lemma_list_ok_same(m.leaf, m.entries, r.lo[id], r.hi[id], r, r2);
        }
    }
}

/// Setting right a node under its bounds leaves a search tree.
pub proof fn lemma_distribute_order(v: TreeView, g: Shape, r: Ranges, x: u16, p: u16)
    requires
        v.inv(g, None, Some(x)),
        v.ranged(r),
        v.arena.contains_key(x),
        x != 0,
        p == g.parent[x],
        v.arena[x].underflows(),
    ensures
        v.distribute(x, p).ranged(v.distribute_ranges(r, x, p)),
{
    lemma_neighbour(v, g, x, p);
    let s = neighbour(v, x, p);
    let pe = v.arena[p].entries;
    let i = child_index(pe, x);
    if i == 0 {
        if v.fit_together(x, s) {
            lemma_merge_order(v, g, x, r, x, s, p);
        } else {
            lemma_shift_order(v, g, x, r, x, s, p, v.arena[x].entries.len() as int + 1);
        }
    } else {
        if v.fit_together(x, s) {
            lemma_merge_order(v, g, x, r, s, x, p);
        } else {
            lemma_shift_order(v, g, x, r, s, x, p, v.arena[s].entries.len() - 1);
        }
    }
}

/// A search tree that grows is a search tree.
pub proof fn lemma_grow_order(v: TreeView, g: Shape, r: Ranges)
    requires
        v.inv(g, Some(0u16), None),
        v.ranged(r),
        v.unique_id < u16::MAX,
    ensures
        v.grow().ranged(v.grow_ranges(r)),
{
    let v2 = v.grow();
    let r2 = v.grow_ranges(r);
    let y = v.unique_id;
    let n = v.arena[0];
    assert forall|id: u16| #[trigger] v2.arena.contains_key(id) implies v2.range_ok(r2, id) by {
        if id == y {
            if !n.leaf {
                assert forall|i: int| 0 <= i < n.entries.len() implies r2.lo[(
                #[trigger] n.entries[i]).value] == r.lo[n.entries[i].value]
                    && r2.hi[n.entries[i].value] == r.hi[n.entries[i].value] by {}
            }
            lemma_list_ok_same(n.leaf, n.entries, 0, 65536, r, r2);
        } else if id == 0 {
            lemma_single_list(y, 0, 65536, r2);
        } else {
            let m = v.arena[id];
            if !m.leaf {
                assert forall|i: int| 0 <= i < m.entries.len() implies r2.lo[(
                #[trigger] m.entries[i]).value] == r.lo[m.entries[i].value]
                    && r2.hi[m.entries[i].value] == r.hi[m.entries[i].value] by {}
            }
            lemma_list_ok_same(m.leaf, m.entries, r.lo[id], r.hi[id], r, r2);
        }
    }
}

/// A search tree that collapses is a search tree.
pub proof fn lemma_collapse_order(v: TreeView, g: Shape, r: Ranges)
    requires
        v.inv(g, None, Some(0u16)),
        v.ranged(r),
        v.root_is_spare(),
    ensures
        v.collapse().ranged(r),
{
    let v2 = v.collapse();
    assert(v.range_ok(r, 0));
    lemma_child_range(v.arena[0].entries, 0, 65536, r, 0);
    assert forall|id: u16| #[trigger] v2.arena.contains_key(id) implies v2.range_ok(r, id) by {
        assert(v.arena.contains_key(id));
    }
}

} // verus!
