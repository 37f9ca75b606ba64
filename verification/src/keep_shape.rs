//! Every step leaves the arena a tree.

use vstd::prelude::*;
use crate::entry::{KeyValue, child_index, distinct_children, has_child};
use crate::lists::{
    lemma_child_index, lemma_has_child_cut, lemma_has_child_head, lemma_has_child_insert,
    lemma_has_child_joined, lemma_has_child_rekey, lemma_has_child_remove,
};
use crate::shape::Shape;
use crate::steps::{cut_key, head, joined};
use crate::view::TreeView;

verus! {

/// Placing or removing an entry in a leaf leaves the tree's shape alone.
pub proof fn lemma_leaf_shape(
    v: TreeView,
    g: Shape,
    over: Option<u16>,
    under: Option<u16>,
    leaf: u16,
    es: Seq<KeyValue>,
    over2: Option<u16>,
    under2: Option<u16>,
)
    requires
        v.inv(g, over, under),
        v.arena.contains_key(leaf),
        v.arena[leaf].leaf,
        v.put(leaf, v.arena[leaf].with(es)).fits(leaf, over2, under2),
        forall|id: u16| id != leaf && v.arena.contains_key(id) ==> #[trigger] v.fits(id, over2, under2),
    ensures
        v.put(leaf, v.arena[leaf].with(es)).inv(g, over2, under2),
{
    let v2 = v.put(leaf, v.arena[leaf].with(es));
    assert forall|id: u16| #[trigger] v2.arena.contains_key(id) implies id < v2.unique_id
        && v2.node_ok(g, id) && v2.fits(id, over2, under2) by {
        if id != leaf {
            assert(v.fits(id, over2, under2));
            assert(v2.arena[id] == v.arena[id]);
            if id != 0 {
                let p = g.parent[id];
                assert(v.node_ok(g, p));
            }
        } else {
            if id != 0 {
                let p = g.parent[id];
                assert(p != leaf);
            }
        }
    }
}

/// Splitting a node that is one entry over its bounds leaves a tree in which
/// only the parent may be over its bounds.
pub proof fn lemma_split_shape(v: TreeView, g: Shape, under: Option<u16>, x: u16, p: u16)
    requires
        v.inv(g, Some(x), under),
        v.arena.contains_key(x),
        x != 0,
        p == g.parent[x],
        v.arena[x].entries.len() == v.arena[x].cap() + 1,
        v.unique_id < u16::MAX,
    ensures
        v.split(x, p).inv(v.split_shape(g, x, p), Some(p), under),
        has_child(v.arena[p].entries, x),
        0 <= child_index(v.arena[p].entries, x) < v.arena[p].entries.len(),
        forall|a: u16| #[trigger]
            v.arena.contains_key(a) ==> v.split_shape(g, x, p).level[a] == g.level[a] && (
            g.parent[a] != x ==> v.split_shape(g, x, p).parent[a] == g.parent[a]),
{
    let v2 = v.split(x, p);
    let g2 = v.split_shape(g, x, p);
    let n = v.arena[x];
    let c = n.entries;
    let k = c.len() as int / 2;
    let y = v.unique_id;
    let pn = v.arena[p];
    let pe = pn.entries;
    let at = child_index(pe, x);
    let hd = head(n.leaf, c, k);
    let pe2 = pe.insert(at, KeyValue { key: cut_key(n.leaf, c, k), value: y });

    lemma_child_index(pe, x);
    assert(!v.arena.contains_key(y));
    assert(x != p);
    lemma_has_child_head(n.leaf, c, k, 0);
    lemma_has_child_cut(c, k, 0);

    // which nodes the new node takes over
    assert forall|id: u16| !n.leaf && has_child(hd, id) implies v.arena.contains_key(id) && id != 0
        && g.parent[id] == x && has_child(c, id) && !has_child(c.skip(k), id) by {
        lemma_has_child_head(n.leaf, c, k, id);
    }
    assert forall|id: u16| id != y implies g2.parent[id] == (if !n.leaf && has_child(hd, id) {
        y
    } else {
        g.parent[id]
    }) by {}
    assert forall|a: u16| #[trigger] v.arena.contains_key(a) implies g2.level[a] == g.level[a] && (
    g.parent[a] != x ==> g2.parent[a] == g.parent[a]) by {}

    assert forall|id: u16| #[trigger] v2.arena.contains_key(id) implies id < v2.unique_id
        && v2.node_ok(g2, id) && v2.fits(id, Some(p), under) by {
        if id == y {
            assert(v2.linked(g2, y)) by {
                lemma_has_child_insert(pe, at, pe2[at], y);
            }
            if !n.leaf {
                assert forall|i: int| 0 <= i < hd.len() implies v2.child_ok(
                    g2,
                    y,
                    (#[trigger] hd[i]).value,
                ) by {
                    assert(has_child(hd, hd[i].value));
                }
            }
        } else if id == x {
            assert(v2.linked(g2, x)) by {
                lemma_has_child_insert(pe, at, pe2[at], x);
            }
            if !n.leaf {
                let sk = c.skip(k);
                assert forall|i: int| 0 <= i < sk.len() implies v2.child_ok(
                    g2,
                    x,
                    (#[trigger] sk[i]).value,
                ) by {
                    assert(sk[i] == c[i + k]);
                }
            }
        } else if id == p {
            if p != 0 {
                let q = g.parent[p];
                assert(v2.arena[q] == v.arena[q]);
            }
            assert forall|i: int| 0 <= i < pe2.len() implies v2.child_ok(
                g2,
                p,
                (#[trigger] pe2[i]).value,
            ) by {
                if i < at {
                    assert(v.child_ok(g, p, pe[i].value));
                } else if i > at {
                    assert(v.child_ok(g, p, pe[i - 1].value));
                }
            }
            assert(distinct_children(pe2)) by {
                assert forall|i: int, j: int| 0 <= i < j < pe2.len() implies pe2[i].value
                    != pe2[j].value by {
                    let a = if i < at { i } else { i - 1 };
                    let b = if j < at { j } else { j - 1 };
                    if i != at && j != at {
                        assert(pe2[i] == pe[a] && pe2[j] == pe[b]);
                    } else if i == at {
                        assert(pe2[j] == pe[b]);
                    } else {
                        assert(pe2[i] == pe[a]);
                    }
                }
            }
        } else {
            assert(v.arena.contains_key(id));
            assert(v.node_ok(g, id));
            assert(v2.arena[id] == v.arena[id]);
            let m = v.arena[id];
            if id != 0 {
                let q = g.parent[id];
                if !n.leaf && has_child(hd, id) {
                    assert(v2.linked(g2, id));
                } else if q == x {
                    lemma_has_child_cut(c, k, id);
                    lemma_has_child_head(n.leaf, c, k, id);
                } else if q == p {
                    lemma_has_child_insert(pe, at, pe2[at], id);
                } else {
                    assert(v2.arena[q] == v.arena[q]);
                }
            }
            if !m.leaf {
                assert forall|i: int| 0 <= i < m.entries.len() implies v2.child_ok(
                    g2,
                    id,
                    (#[trigger] m.entries[i]).value,
                ) by {
                    assert(v.child_ok(g, id, m.entries[i].value));
                }
            }
        }
    }
}

/// Two siblings of one kind under one parent.
pub open spec fn siblings(v: TreeView, g: Shape, l: u16, r: u16, p: u16) -> bool {
    &&& v.arena.contains_key(l)
    &&& v.arena.contains_key(r)
    &&& l != r
    &&& l != 0
    &&& r != 0
    &&& g.parent[l] == p
    &&& g.parent[r] == p
}

/// Merging two siblings whose entries fit into one node leaves a tree in
/// which only the parent may be under its bounds.
pub proof fn lemma_merge_shape(v: TreeView, g: Shape, u: u16, l: u16, r: u16, p: u16)
    requires
        v.inv(g, None, Some(u)),
        siblings(v, g, l, r, p),
        u == l || u == r,
        v.arena[l].entries.len() + v.arena[r].entries.len() <= v.arena[r].cap(),
    ensures
        v.merge(l, r, p).inv(v.merge_shape(g, l, r), None, Some(p)),
        has_child(v.arena[p].entries, l),
        0 <= child_index(v.arena[p].entries, l) < v.arena[p].entries.len(),
        v.arena[l].leaf == v.arena[r].leaf,
        v.merge_shape(g, l, r).level == g.level,
        forall|a: u16| #[trigger]
            v.arena.contains_key(a) ==> (g.parent[a] != l ==> v.merge_shape(g, l, r).parent[a]
                == g.parent[a]),
{
    let v2 = v.merge(l, r, p);
    let g2 = v.merge_shape(g, l, r);
    let ln = v.arena[l];
    let rn = v.arena[r];
    let pn = v.arena[p];
    let pe = pn.entries;
    let at = child_index(pe, l);
    let c = joined(ln, pe[at].key, rn);
    let pe2 = pe.remove(at);

    assert(v.fits(l, None, Some(u)) && v.fits(r, None, Some(u)) && v.fits(p, None, Some(u)));
    lemma_child_index(pe, l);
    assert(l != p && r != p);
    lemma_has_child_joined(ln, pe[at].key, rn, 0);

    assert forall|id: u16| !ln.leaf && has_child(ln.entries, id) implies v.arena.contains_key(id)
        && id != 0 && g.parent[id] == l by {
        let i = choose|i: int| 0 <= i < ln.entries.len() && (#[trigger] ln.entries[i]).value == id;
        assert(v.child_ok(g, l, ln.entries[i].value));
    }
    assert forall|id: u16| !rn.leaf && has_child(rn.entries, id) implies v.arena.contains_key(id)
        && id != 0 && g.parent[id] == r by {
        let i = choose|i: int| 0 <= i < rn.entries.len() && (#[trigger] rn.entries[i]).value == id;
        assert(v.child_ok(g, r, rn.entries[i].value));
    }
    assert forall|id: u16| g2.parent[id] == (if !ln.leaf && has_child(ln.entries, id) {
        r
    } else {
        g.parent[id]
    }) by {}

    assert forall|id: u16| #[trigger] v2.arena.contains_key(id) implies id < v2.unique_id
        && v2.node_ok(g2, id) && v2.fits(id, None, Some(p)) by {
        if id == r {
            assert(v2.linked(g2, r)) by {
                lemma_has_child_remove(pe, at, r);
            }
            if !rn.leaf {
                assert forall|i: int| 0 <= i < c.len() implies v2.child_ok(
                    g2,
                    r,
                    (#[trigger] c[i]).value,
                ) by {
                    lemma_has_child_joined(ln, pe[at].key, rn, c[i].value);
                }
                assert(distinct_children(c)) by {
                    assert forall|i: int, j: int| 0 <= i < j < c.len() implies c[i].value
                        != c[j].value by {
                        let n1 = ln.entries.len() as int;
                        if j < n1 {
                            assert(c[i].value == ln.entries[i].value);
                        } else if i >= n1 {
                            assert(c[i] == rn.entries[i - n1]);
                        } else {
                            assert(c[i].value == ln.entries[i].value);
                        }
                    }
                }
            }
        } else if id == p {
            if p != 0 {
                assert(v.linked(g, p));
            }
            assert forall|i: int| 0 <= i < pe2.len() implies v2.child_ok(
                g2,
                p,
                (#[trigger] pe2[i]).value,
            ) by {
                let a = if i < at { i } else { i + 1 };
                assert(pe2[i] == pe[a]);
            }
            assert(pe2.len() >= 1) by {
                lemma_child_index(pe, r);
            }
        } else {
            let m = v.arena[id];
            if id != 0 {
                let q = g.parent[id];
                if !ln.leaf && has_child(ln.entries, id) {
                    lemma_has_child_joined(ln, pe[at].key, rn, id);
                } else if q == r {
                    lemma_has_child_joined(ln, pe[at].key, rn, id);
                } else if q == p {
                    lemma_has_child_remove(pe, at, id);
                } else {
                    assert(v2.linked(g2, id));
                }
            }
            if !m.leaf {
                assert forall|i: int| 0 <= i < m.entries.len() implies v2.child_ok(
                    g2,
                    id,
                    (#[trigger] m.entries[i]).value,
                ) by {
                    assert(v.child_ok(g, id, m.entries[i].value));
                }
            }
        }
    }
}

/// Dealing the entries of two siblings anew, so that both are within their
/// bounds, leaves a tree with every node within its bounds.
pub proof fn lemma_shift_shape(v: TreeView, g: Shape, u: u16, l: u16, r: u16, p: u16, k: int)
    requires
        v.inv(g, None, Some(u)),
        siblings(v, g, l, r, p),
        u == l || u == r,
        crate::shape::floor(v.arena[l], l) <= k <= v.arena[l].cap(),
        crate::shape::floor(v.arena[r], r) <= v.arena[l].entries.len() + v.arena[r].entries.len()
            - k <= v.arena[r].cap(),
    ensures
        v.shift(l, r, p, k).inv(v.shift_shape(g, l, r, p, k), None, None),
        has_child(v.arena[p].entries, l),
        0 <= child_index(v.arena[p].entries, l) < v.arena[p].entries.len(),
        v.arena[l].leaf == v.arena[r].leaf,
        v.shift_shape(g, l, r, p, k).level == g.level,
        forall|a: u16| #[trigger]
            v.arena.contains_key(a) ==> (g.parent[a] != l && g.parent[a] != r ==> v.shift_shape(
                g,
                l,
                r,
                p,
                k,
            ).parent[a] == g.parent[a]),
{
    let v2 = v.shift(l, r, p, k);
    let g2 = v.shift_shape(g, l, r, p, k);
    let ln = v.arena[l];
    let rn = v.arena[r];
    let pn = v.arena[p];
    let pe = pn.entries;
    let at = child_index(pe, l);
    let leaf = ln.leaf;
    let c = joined(ln, pe[at].key, rn);
    let hd = head(leaf, c, k);
    let tl = c.skip(k);
    let pe2 = pe.update(at, KeyValue { key: cut_key(leaf, c, k), value: l });

    assert(v.node_ok(g, l) && v.node_ok(g, r));
    lemma_child_index(pe, l);
    lemma_has_child_joined(ln, pe[at].key, rn, 0);

    assert(!leaf ==> distinct_children(c)) by {
        if !leaf {
            assert forall|i: int, j: int| 0 <= i < j < c.len() implies c[i].value != c[j].value by {
                let n1 = ln.entries.len() as int;
                if j < n1 {
                    assert(c[i].value == ln.entries[i].value);
                } else if i >= n1 {
                    assert(c[i] == rn.entries[i - n1]);
                } else {
                    assert(c[i].value == ln.entries[i].value);
                }
            }
        }
    }
    assert forall|id: u16| !leaf && has_child(c, id) implies v.arena.contains_key(id) && id != 0
        && (g.parent[id] == l || g.parent[id] == r) && (has_child(hd, id) != has_child(tl, id)) by {
        lemma_has_child_cut(c, k, id);
        if has_child(ln.entries, id) {
            let i = choose|i: int|
                0 <= i < ln.entries.len() && (#[trigger] ln.entries[i]).value == id;
        } else {
            let i = choose|i: int|
                0 <= i < rn.entries.len() && (#[trigger] rn.entries[i]).value == id;
        }
    }
    assert forall|id: u16| g2.parent[id] == (if !leaf && has_child(tl, id) {
        r
    } else if !leaf && has_child(hd, id) {
        l
    } else {
        g.parent[id]
    }) by {}
    assert forall|id: u16| has_child(hd, id) || has_child(tl, id) implies has_child(c, id) by {
        lemma_has_child_cut(c, k, id);
    }

    assert forall|id: u16| #[trigger] v2.arena.contains_key(id) implies id < v2.unique_id
        && v2.node_ok(g2, id) && v2.fits(id, None, None) by {
        if id == l {
            assert(v2.linked(g2, l)) by {
                lemma_has_child_rekey(pe, at, cut_key(leaf, c, k), l);
            }
            if !leaf {
                assert forall|i: int| 0 <= i < hd.len() implies v2.child_ok(
                    g2,
                    l,
                    (#[trigger] hd[i]).value,
                ) by {
                    assert(has_child(hd, hd[i].value));
                }
            }
        } else if id == r {
            assert(v2.linked(g2, r)) by {
                lemma_has_child_rekey(pe, at, cut_key(leaf, c, k), r);
            }
            if !leaf {
                assert forall|i: int| 0 <= i < tl.len() implies v2.child_ok(
                    g2,
                    r,
                    (#[trigger] tl[i]).value,
                ) by {
                    assert(has_child(tl, tl[i].value));
                }
            }
        } else if id == p {
            if p != 0 {
                assert(v.linked(g, p));
            }
            assert forall|i: int| 0 <= i < pe2.len() implies v2.child_ok(
                g2,
                p,
                (#[trigger] pe2[i]).value,
            ) by {
                assert(pe2[i].value == pe[i].value);
            }
        } else {
            let m = v.arena[id];
            if id != 0 {
                let q = g.parent[id];
                if !leaf && has_child(c, id) {
                    assert(v2.linked(g2, id));
                } else if q == l || q == r {
                    lemma_has_child_joined(ln, pe[at].key, rn, id);
                } else if q == p {
                    lemma_has_child_rekey(pe, at, cut_key(leaf, c, k), id);
                } else {
                    assert(v2.arena[q] == v.arena[q]);
                }
            }
            if !m.leaf {
                assert forall|i: int| 0 <= i < m.entries.len() implies v2.child_ok(
                    g2,
                    id,
                    (#[trigger] m.entries[i]).value,
                ) by {
                    assert(v.child_ok(g, id, m.entries[i].value));
                }
            }
        }
    }
}

/// Growing a tree whose root is one entry over its bounds leaves a tree in
/// which the new node is over its bounds and the root under.
pub proof fn lemma_grow_shape(v: TreeView, g: Shape)
    requires
        v.inv(g, Some(0u16), None),
        v.arena[0].entries.len() == v.arena[0].cap() + 1,
        v.unique_id < u16::MAX,
    ensures
        v.grow().inv(v.grow_shape(g), Some(v.unique_id), Some(0u16)),
        v.grow_shape(g).parent[v.unique_id] == 0,
        v.grow().arena[v.unique_id].entries == v.arena[0].entries,
        v.grow().arena[v.unique_id].leaf == v.arena[0].leaf,
{
    let v2 = v.grow();
    let g2 = v.grow_shape(g);
    let n = v.arena[0];
    let y = v.unique_id;
    let es = seq![KeyValue { key: crate::node::SENTINEL, value: y }];
    assert(es[0].value == y);
    assert forall|id: u16| !n.leaf && has_child(n.entries, id) implies v.arena.contains_key(id)
        && id != 0 && g.parent[id] == 0 by {
        let i = choose|i: int| 0 <= i < n.entries.len() && (#[trigger] n.entries[i]).value == id;
        assert(v.child_ok(g, 0, n.entries[i].value));
    }
    assert forall|id: u16| id != y implies g2.parent[id] == (if !n.leaf && has_child(
        n.entries,
        id,
    ) {
        y
    } else {
        g.parent[id]
    }) by {}
    assert forall|id: u16| #[trigger] v2.arena.contains_key(id) implies id < v2.unique_id
        && v2.node_ok(g2, id) && v2.fits(id, Some(y), Some(0u16)) by {
        if id == y {
            if !n.leaf {
                assert forall|i: int| 0 <= i < n.entries.len() implies v2.child_ok(
                    g2,
                    y,
                    (#[trigger] n.entries[i]).value,
                ) by {
                    assert(v.child_ok(g, 0, n.entries[i].value));
                }
            }
        } else if id == 0 {
            assert(v2.child_ok(g2, 0, y));
        } else {
            let m = v.arena[id];
            let q = g.parent[id];
            if q == 0 {
                assert(has_child(n.entries, id));
            } else {
                assert(v.node_ok(g, q));
            }
            if !m.leaf {
                assert forall|i: int| 0 <= i < m.entries.len() implies v2.child_ok(
                    g2,
                    id,
                    (#[trigger] m.entries[i]).value,
                ) by {
                    assert(v.child_ok(g, id, m.entries[i].value));
                }
            }
        }
    }
}

/// Collapsing a root that holds a single child leaves a tree with every node
/// within its bounds.
pub proof fn lemma_collapse_shape(v: TreeView, g: Shape)
    requires
        v.inv(g, None, Some(0u16)),
        !v.arena[0].leaf,
        v.arena[0].entries.len() == 1,
    ensures
        v.collapse().inv(v.collapse_shape(g), None, None),
        v.arena.contains_key(v.arena[0].entries[0].value),
        v.arena[0].entries[0].value != 0,
{
    let v2 = v.collapse();
    let g2 = v.collapse_shape(g);
    let c = v.arena[0].entries[0].value;
    let cn = v.arena[c];
    assert forall|id: u16| !cn.leaf && has_child(cn.entries, id) implies v.arena.contains_key(id)
        && id != 0 && g.parent[id] == c by {
        let i = choose|i: int| 0 <= i < cn.entries.len() && (#[trigger] cn.entries[i]).value == id;
        assert(v.child_ok(g, c, cn.entries[i].value));
    }
    assert forall|id: u16| g2.parent[id] == (if !cn.leaf && has_child(cn.entries, id) {
        0u16
    } else {
        g.parent[id]
    }) by {}
    assert forall|id: u16| #[trigger] v2.arena.contains_key(id) implies id < v2.unique_id
        && v2.node_ok(g2, id) && v2.fits(id, None, None) by {
        if id == 0 {
            if !cn.leaf {
                assert forall|i: int| 0 <= i < cn.entries.len() implies v2.child_ok(
                    g2,
                    0,
                    (#[trigger] cn.entries[i]).value,
                ) by {
                    assert(v.child_ok(g, c, cn.entries[i].value));
                }
            }
        } else {
            let m = v.arena[id];
            let q = g.parent[id];
            if q == c {
                assert(v2.linked(g2, id));
            } else if q == 0 {
                let i = choose|i: int|
                    0 <= i < v.arena[0].entries.len() && (#[trigger] v.arena[0].entries[i]).value
                        == id;
            } else {
                assert(v.linked(g, q));
            }
            if !m.leaf {
                assert forall|i: int| 0 <= i < m.entries.len() implies v2.child_ok(
                    g2,
                    id,
                    (#[trigger] m.entries[i]).value,
                ) by {
                    assert(v.child_ok(g, id, m.entries[i].value));
                }
            }
        }
    }
}

/// The neighbour that helps out a node under its bounds: the right one for
/// the parent's first child, the left one for any other.
pub open spec fn neighbour(v: TreeView, x: u16, p: u16) -> u16 {
    let pe = v.arena[p].entries;
    let i = child_index(pe, x);
    if i == 0 {
        pe[1].value
    } else {
        pe[i - 1].value
    }
}

/// A node that is one entry under its bounds has a neighbour of its kind
/// under the same parent.
pub proof fn lemma_neighbour(v: TreeView, g: Shape, x: u16, p: u16)
    requires
        v.inv(g, None, Some(x)),
        v.arena.contains_key(x),
        x != 0,
        p == g.parent[x],
        v.arena[x].underflows(),
    ensures
        ({
            let pe = v.arena[p].entries;
            let i = child_index(pe, x);
            let j = if i == 0 {
                1
            } else {
                i - 1
            };
            let s = neighbour(v, x, p);
            &&& v.arena.contains_key(p)
            &&& !v.arena[p].leaf
            &&& 2 <= pe.len() <= crate::node::MAX_CHILD
            &&& 0 <= i < pe.len()
            &&& pe[i].value == x
            &&& s == pe[j].value
            &&& child_index(pe, s) == j
            &&& siblings(v, g, x, s, p)
            &&& s != p
            &&& x != p
            &&& v.arena[s].leaf == v.arena[x].leaf
            &&& v.arena[x].entries.len() == crate::shape::floor(v.arena[x], x) - 1
            &&& v.arena[x].entries.len() >= 1
            &&& crate::shape::floor(v.arena[s], s) <= v.arena[s].entries.len() <= v.arena[s].cap()
            &&& v.arena[s].entries.len() >= 2
            &&& g.level[s] == g.level[x]
        }),
{
    let pe = v.arena[p].entries;
    lemma_child_index(pe, x);
    let i = child_index(pe, x);
    let j = if i == 0 { 1 } else { i - 1 };
    assert(v.child_ok(g, p, pe[j].value));
    crate::lists::lemma_child_index_at(pe, j);
}

/// A node other than the root lies one level below its parent.
pub proof fn lemma_parent_level(v: TreeView, g: Shape, over: Option<u16>, under: Option<u16>, a: u16)
    requires
        v.inv(g, over, under),
        v.arena.contains_key(a),
        a != 0,
    ensures
        g.level[g.parent[a]] == g.level[a] + 1,
        v.arena.contains_key(g.parent[a]),
{
    assert(v.node_ok(g, a));
}

/// Setting right a node that is one entry under its bounds leaves a tree in
/// which only the parent may be under its bounds. Every node keeps its level;
/// every node of another level than the children of the two neighbours keeps
/// its parent; and every node of another level than the two stays.
pub proof fn lemma_distribute_shape(v: TreeView, g: Shape, x: u16, p: u16)
    requires
        v.inv(g, None, Some(x)),
        v.arena.contains_key(x),
        x != 0,
        p == g.parent[x],
        v.arena[x].underflows(),
    ensures
        v.distribute(x, p).inv(v.distribute_shape(g, x, p), None, Some(p)),
        v.distribute_shape(g, x, p).level == g.level,
        forall|a: u16| #[trigger]
            v.arena.contains_key(a) && a != 0 && g.level[a] + 1 != g.level[x]
                ==> v.distribute_shape(g, x, p).parent[a] == g.parent[a],
        forall|a: u16| #[trigger]
            v.arena.contains_key(a) && g.level[a] != g.level[x] ==> v.distribute(
                x,
                p,
            ).arena.contains_key(a),
{
    lemma_neighbour(v, g, x, p);
    let s = neighbour(v, x, p);
    let i = child_index(v.arena[p].entries, x);
    assert forall|a: u16| #[trigger] v.arena.contains_key(a) && a != 0 && g.level[a] + 1
        != g.level[x] implies g.parent[a] != x && g.parent[a] != s by {
        lemma_parent_level(v, g, None, Some(x), a);
    }
    if i == 0 {
        if v.fit_together(x, s) {
            lemma_merge_shape(v, g, x, x, s, p);
        } else {
            let k = v.arena[x].entries.len() as int + 1;
            lemma_shift_shape(v, g, x, x, s, p, k);
        }
    } else {
        if v.fit_together(x, s) {
            lemma_merge_shape(v, g, x, s, x, p);
        } else {
            let k = v.arena[s].entries.len() - 1;
            lemma_shift_shape(v, g, x, s, x, p, k);
        }
    }
}

} // verus!
