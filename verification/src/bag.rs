//! What a tree holds: the entries of all its leaves as a multiset. No step
//! that moves entries between nodes changes it.

use vstd::prelude::*;
use vstd::multiset::Multiset;
use vstd::seq_lib::{lemma_multiset_commutative, to_multiset_insert, to_multiset_remove};
use crate::entry::{KeyValue, child_index, key_index, lemma_key_index_from, lemma_rank_from, rank};
use crate::keep_shape::{lemma_neighbour, neighbour};
use crate::node::NodeView;
use crate::shape::Shape;
use crate::view::TreeView;

verus! {

/// The entries that the node `id` adds to the tree's contents: its own where
/// it is a leaf, none where it is an internal node or no node.
pub open spec fn leaf_bag(arena: Map<u16, NodeView>, id: u16) -> Multiset<KeyValue> {
    if arena.contains_key(id) && arena[id].leaf {
        arena[id].entries.to_multiset()
    } else {
        Multiset::empty()
    }
}

/// The entries of the leaves with an identifier below `n`.
pub open spec fn bag_below(arena: Map<u16, NodeView>, n: nat) -> Multiset<KeyValue>
    decreases n,
{
    if n == 0 {
        Multiset::empty()
    } else {
        bag_below(arena, (n - 1) as nat).add(leaf_bag(arena, (n - 1) as u16))
    }
}

/// The part of `x` in `bag_below`.
pub open spec fn part(arena: Map<u16, NodeView>, x: u16, n: nat) -> Multiset<KeyValue> {
    if x < n {
        leaf_bag(arena, x)
    } else {
        Multiset::empty()
    }
}

impl TreeView {
    /// The entries of all leaves in the arena.
    pub open spec fn arena_bag(self) -> Multiset<KeyValue> {
        bag_below(self.arena, 65536)
    }

    /// The entries that the tree holds: those of the buffer in the first
    /// phase, later those of all leaves in the arena.
    pub open spec fn bag(self) -> Multiset<KeyValue> {
        if self.is_leaf_root() {
            self.leaf_tree.entries.to_multiset()
        } else {
            self.arena_bag()
        }
    }
}

/// Two arenas that differ in two nodes at most hold the same but for what
/// these two nodes hold.
pub proof fn lemma_bag_two(
    a: Map<u16, NodeView>,
    b: Map<u16, NodeView>,
    x: u16,
    y: u16,
    n: nat,
)
    requires
        x != y,
        n <= 65536,
        forall|id: u16| id != x && id != y ==> leaf_bag(a, id) == leaf_bag(b, id),
    ensures
        bag_below(a, n).add(part(b, x, n)).add(part(b, y, n)) == bag_below(b, n).add(
            part(a, x, n),
        ).add(part(a, y, n)),
    decreases n,
{
    if n > 0 {
        let m = (n - 1) as nat;
        lemma_bag_two(a, b, x, y, m);
        let lhs = bag_below(a, n).add(part(b, x, n)).add(part(b, y, n));
        let rhs = bag_below(b, n).add(part(a, x, n)).add(part(a, y, n));
        let lhs0 = bag_below(a, m).add(part(b, x, m)).add(part(b, y, m));
        let rhs0 = bag_below(b, m).add(part(a, x, m)).add(part(a, y, m));
        assert forall|e: KeyValue| lhs.count(e) == rhs.count(e) by {
            assert(lhs0.count(e) == rhs0.count(e));
        }
    } else {
        assert(bag_below(a, n).add(part(b, x, n)).add(part(b, y, n)) =~= bag_below(b, n).add(
            part(a, x, n),
        ).add(part(a, y, n)));
    }
}

/// Entries that move between two nodes stay in the tree.
pub proof fn lemma_bag_moved(a: Map<u16, NodeView>, b: Map<u16, NodeView>, x: u16, y: u16)
    requires
        x != y,
        forall|id: u16| id != x && id != y ==> leaf_bag(a, id) == leaf_bag(b, id),
        leaf_bag(a, x).add(leaf_bag(a, y)) == leaf_bag(b, x).add(leaf_bag(b, y)),
    ensures
        bag_below(a, 65536) == bag_below(b, 65536),
{
    lemma_bag_two(a, b, x, y, 65536);
    let p = bag_below(a, 65536);
    let q = bag_below(b, 65536);
    let lhs = p.add(leaf_bag(b, x)).add(leaf_bag(b, y));
    let rhs = q.add(leaf_bag(a, x)).add(leaf_bag(a, y));
    let sa = leaf_bag(a, x).add(leaf_bag(a, y));
    let sb = leaf_bag(b, x).add(leaf_bag(b, y));
    assert forall|e: KeyValue| p.count(e) == q.count(e) by {
        assert(lhs.count(e) == rhs.count(e));
        assert(sa.count(e) == sb.count(e));
    }
}

/// What an arena holds changes with one node as that node's entries do.
pub proof fn lemma_bag_one(a: Map<u16, NodeView>, b: Map<u16, NodeView>, x: u16)
    requires
        forall|id: u16| id != x ==> leaf_bag(a, id) == leaf_bag(b, id),
    ensures
        bag_below(a, 65536).add(leaf_bag(b, x)) == bag_below(b, 65536).add(leaf_bag(a, x)),
{
    let y: u16 = if x == 0 {
        1
    } else {
        0
    };
    lemma_bag_two(a, b, x, y, 65536);
    let p = bag_below(a, 65536);
    let q = bag_below(b, 65536);
    let lhs = p.add(leaf_bag(b, x)).add(leaf_bag(b, y));
    let rhs = q.add(leaf_bag(a, x)).add(leaf_bag(a, y));
    assert forall|e: KeyValue| p.add(leaf_bag(b, x)).count(e) == q.add(leaf_bag(a, x)).count(e) by {
        assert(lhs.count(e) == rhs.count(e));
    }
}

/// An arena without nodes holds nothing.
pub proof fn lemma_bag_empty(n: nat)
    ensures
        bag_below(Map::<u16, NodeView>::empty(), n) == Multiset::<KeyValue>::empty(),
    decreases n,
{
    if n > 0 {
        lemma_bag_empty((n - 1) as nat);
    }
}

/// A list cut in two holds what its two parts hold.
pub proof fn lemma_cut_bag(c: Seq<KeyValue>, k: int)
    requires
        0 <= k <= c.len(),
    ensures
        c.to_multiset() == c.take(k).to_multiset().add(c.skip(k).to_multiset()),
{
    assert(c =~= c.take(k) + c.skip(k));
    lemma_multiset_commutative(c.take(k), c.skip(k));
}

/// An entry placed in a leaf is one more entry in the tree.
pub proof fn lemma_leaf_insert_bag(v: TreeView, leaf: u16, kv: KeyValue)
    requires
        v.arena.contains_key(leaf),
        v.arena[leaf].leaf,
    ensures
        v.leaf_insert(leaf, kv).arena_bag() == v.arena_bag().insert(kv),
{
    let v2 = v.leaf_insert(leaf, kv);
    let es = v.arena[leaf].entries;
    lemma_rank_from(es, kv.key, 0);
    to_multiset_insert(es, rank(es, kv.key), kv);
    lemma_bag_one(v.arena, v2.arena, leaf);
    let p = v.arena_bag();
    let q = v2.arena_bag();
    assert forall|e: KeyValue| q.count(e) == p.insert(kv).count(e) by {
        assert(p.add(leaf_bag(v2.arena, leaf)).count(e) == q.add(leaf_bag(v.arena, leaf)).count(e));
    }
}

/// An entry taken out of a leaf is one entry less in the tree.
pub proof fn lemma_leaf_remove_bag(v: TreeView, leaf: u16, key: u16)
    requires
        v.arena.contains_key(leaf),
        v.arena[leaf].leaf,
        crate::entry::has_key(v.arena[leaf].entries, key),
    ensures
        v.leaf_remove(leaf, key).arena_bag() == v.arena_bag().remove(
            v.arena[leaf].entries[key_index(v.arena[leaf].entries, key)],
        ),
        v.arena_bag().count(v.arena[leaf].entries[key_index(v.arena[leaf].entries, key)]) > 0,
{
    let v2 = v.leaf_remove(leaf, key);
    let es = v.arena[leaf].entries;
    lemma_key_index_from(es, key, 0);
    let at = key_index(es, key);
    let gone = es[at];
    to_multiset_remove(es, at);
    lemma_bag_one(v.arena, v2.arena, leaf);
    let p = v.arena_bag();
    let q = v2.arena_bag();
    vstd::seq_lib::to_multiset_contains(es, gone);
    assert(p.add(leaf_bag(v2.arena, leaf)).count(gone) == q.add(leaf_bag(v.arena, leaf)).count(
        gone,
    ));
    assert forall|e: KeyValue| q.count(e) == p.remove(gone).count(e) by {
        assert(p.add(leaf_bag(v2.arena, leaf)).count(e) == q.add(leaf_bag(v.arena, leaf)).count(e));
    }
}

/// A split keeps what the tree holds.
pub proof fn lemma_split_bag(v: TreeView, x: u16, p: u16)
    requires
        v.arena.contains_key(x),
        v.arena.contains_key(p),
        !v.arena.contains_key(v.unique_id),
        x != p,
        !v.arena[p].leaf,
        v.arena[x].entries.len() >= 2,
    ensures
        v.split(x, p).arena_bag() == v.arena_bag(),
{
    let v2 = v.split(x, p);
    let y = v.unique_id;
    let c = v.arena[x].entries;
    let k = c.len() as int / 2;
    if v.arena[x].leaf {
        lemma_cut_bag(c, k);
        assert(leaf_bag(v.arena, x).add(leaf_bag(v.arena, y)) =~= leaf_bag(v2.arena, x).add(
            leaf_bag(v2.arena, y),
        ));
    } else {
        assert(leaf_bag(v.arena, x).add(leaf_bag(v.arena, y)) =~= leaf_bag(v2.arena, x).add(
            leaf_bag(v2.arena, y),
        ));
    }
    lemma_bag_moved(v.arena, v2.arena, x, y);
}

/// A merge keeps what the tree holds.
pub proof fn lemma_merge_bag(v: TreeView, l: u16, r: u16, p: u16)
    requires
        v.arena.contains_key(l),
        v.arena.contains_key(r),
        v.arena.contains_key(p),
        l != r,
        l != p,
        r != p,
        !v.arena[p].leaf,
        v.arena[l].leaf == v.arena[r].leaf,
    ensures
        v.merge(l, r, p).arena_bag() == v.arena_bag(),
{
    let v2 = v.merge(l, r, p);
    if v.arena[l].leaf {
        lemma_multiset_commutative(v.arena[l].entries, v.arena[r].entries);
    }
    assert(leaf_bag(v.arena, l).add(leaf_bag(v.arena, r)) =~= leaf_bag(v2.arena, l).add(
        leaf_bag(v2.arena, r),
    ));
    lemma_bag_moved(v.arena, v2.arena, l, r);
}

/// Entries dealt anew between two neighbours stay in the tree.
pub proof fn lemma_shift_bag(v: TreeView, l: u16, r: u16, p: u16, k: int)
    requires
        v.arena.contains_key(l),
        v.arena.contains_key(r),
        v.arena.contains_key(p),
        l != r,
        l != p,
        r != p,
        !v.arena[p].leaf,
        v.arena[l].leaf == v.arena[r].leaf,
        0 <= k <= v.arena[l].entries.len() + v.arena[r].entries.len(),
    ensures
        v.shift(l, r, p, k).arena_bag() == v.arena_bag(),
{
    let v2 = v.shift(l, r, p, k);
    if v.arena[l].leaf {
        let c = v.arena[l].entries + v.arena[r].entries;
        lemma_multiset_commutative(v.arena[l].entries, v.arena[r].entries);
        lemma_cut_bag(c, k);
    }
    assert(leaf_bag(v.arena, l).add(leaf_bag(v.arena, r)) =~= leaf_bag(v2.arena, l).add(
        leaf_bag(v2.arena, r),
    ));
    lemma_bag_moved(v.arena, v2.arena, l, r);
}

/// Setting right a node under its bounds keeps what the tree holds.
pub proof fn lemma_distribute_bag(v: TreeView, g: Shape, x: u16, p: u16)
    requires
        v.inv(g, None, Some(x)),
        v.arena.contains_key(x),
        x != 0,
        p == g.parent[x],
        v.arena[x].underflows(),
    ensures
        v.distribute(x, p).arena_bag() == v.arena_bag(),
{
    lemma_neighbour(v, g, x, p);
    let s = neighbour(v, x, p);
    let i = child_index(v.arena[p].entries, x);
    if i == 0 {
        if v.fit_together(x, s) {
            lemma_merge_bag(v, x, s, p);
        } else {
            lemma_shift_bag(v, x, s, p, v.arena[x].entries.len() as int + 1);
        }
    } else {
        if v.fit_together(x, s) {
            lemma_merge_bag(v, s, x, p);
        } else {
            lemma_shift_bag(v, s, x, p, v.arena[s].entries.len() - 1);
        }
    }
}

/// A tree that grows keeps what it holds.
pub proof fn lemma_grow_bag(v: TreeView)
    requires
        v.arena.contains_key(0),
        !v.arena.contains_key(v.unique_id),
    ensures
        v.grow().arena_bag() == v.arena_bag(),
{
    let v2 = v.grow();
    let y = v.unique_id;
    assert(leaf_bag(v.arena, 0).add(leaf_bag(v.arena, y)) =~= leaf_bag(v2.arena, 0).add(
        leaf_bag(v2.arena, y),
    ));
    lemma_bag_moved(v.arena, v2.arena, 0, y);
}

/// A tree that collapses keeps what it holds.
pub proof fn lemma_collapse_bag(v: TreeView)
    requires
        v.arena.contains_key(0),
        !v.arena[0].leaf,
        v.arena.contains_key(v.arena[0].entries[0].value),
        v.arena[0].entries[0].value != 0,
    ensures
        v.collapse().arena_bag() == v.arena_bag(),
{
    let v2 = v.collapse();
    let c = v.arena[0].entries[0].value;
    assert(leaf_bag(v.arena, 0).add(leaf_bag(v.arena, c)) =~= leaf_bag(v2.arena, 0).add(
        leaf_bag(v2.arena, c),
    ));
    lemma_bag_moved(v.arena, v2.arena, 0, c);
}

/// The two nodes that a buffer over its capacity becomes hold what the
/// buffer held.
pub proof fn lemma_sprout_bag(v: TreeView, es: Seq<KeyValue>)
    requires
        v.arena == Map::<u16, NodeView>::empty(),
        v.unique_id == 1,
    ensures
        v.sprouted(es).arena_bag() == es.to_multiset(),
{
    let v2 = v.sprouted(es);
    lemma_bag_empty(65536);
    assert forall|id: u16| id != 1 implies leaf_bag(v.arena, id) == leaf_bag(v2.arena, id) by {}
    lemma_bag_one(v.arena, v2.arena, 1);
    let p = v.arena_bag();
    let q = v2.arena_bag();
    assert forall|e: KeyValue| q.count(e) == es.to_multiset().count(e) by {
        assert(p.add(leaf_bag(v2.arena, 1)).count(e) == q.add(leaf_bag(v.arena, 1)).count(e));
    }
}

} // verus!
