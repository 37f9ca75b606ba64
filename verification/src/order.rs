//! What makes a tree a search tree: every node answers for a range of keys,
//! a leaf holds its keys in ascending order within its range, and the
//! separators of an internal node cut its range into those of its children.

use vstd::prelude::*;
use crate::entry::{KeyValue, ascending, has_key, key_index, lemma_rank_from, lemma_rank_is, rank};
use crate::node::{NodeView, SENTINEL};
use crate::steps::{cut_key, head, joined};
use crate::view::TreeView;

verus! {

/// For every node, the keys it answers for: those from `lo` up to, but not
/// including, `hi`.
pub struct Ranges {
    pub lo: Map<u16, int>,
    pub hi: Map<u16, int>,
}

/// The lower bound of child `i` in a node that answers for keys from `lo`.
pub open spec fn low_of(es: Seq<KeyValue>, lo: int, i: int) -> int {
    if i == 0 {
        lo
    } else {
        es[i - 1].key as int
    }
}

/// The upper bound of child `i` in a node that answers for keys below `hi`.
pub open spec fn high_of(es: Seq<KeyValue>, hi: int, i: int) -> int {
    if i == es.len() - 1 {
        hi
    } else {
        es[i].key as int
    }
}

/// The entries `es` are in order for a node that answers for the keys from
/// `lo` up to `hi`. In a leaf the keys ascend within the range. In an
/// internal node the last entry carries the sentinel, the separators before
/// it ascend strictly between the bounds, and every child answers for the
/// keys between the separator before it and its own.
#[verifier::opaque]
pub open spec fn list_ok(leaf: bool, es: Seq<KeyValue>, lo: int, hi: int, r: Ranges) -> bool {
    if leaf {
        &&& ascending(es)
        &&& forall|i: int| 0 <= i < es.len() ==> lo <= (#[trigger] es[i]).key < hi
    } else {
        &&& es.len() >= 1
        &&& es.last().key == SENTINEL
        &&& forall|i: int| 0 <= i < es.len() - 1 ==> lo < (#[trigger] es[i]).key < hi
        &&& forall|i: int, j: int| 0 <= i < j < es.len() - 1 ==> es[i].key < es[j].key
        &&& forall|i: int|
            0 <= i < es.len() ==> r.lo[(#[trigger] es[i]).value] == low_of(es, lo, i)
                && r.hi[es[i].value] == high_of(es, hi, i)
    }
}

impl TreeView {
    /// The node `id` is in order for its range.
    pub open spec fn range_ok(self, r: Ranges, id: u16) -> bool {
        list_ok(self.arena[id].leaf, self.arena[id].entries, r.lo[id], r.hi[id], r)
    }

    /// The arena is a search tree with the ranges `r`: the root answers for
    /// all keys, and every node is in order for its range.
    pub open spec fn ranged(self, r: Ranges) -> bool {
        &&& r.lo[0] == 0
        &&& r.hi[0] == 65536
        &&& forall|id: u16| #[trigger] self.arena.contains_key(id) ==> self.range_ok(r, id)
    }

    /// The tree is a search tree: in the first phase the buffer's keys
    /// ascend; later the arena is in order for some ranges.
    pub open spec fn sorted(self) -> bool {
        if self.is_leaf_root() {
            ascending(self.leaf_tree.entries)
        } else {
            exists|r: Ranges| self.ranged(r)
        }
    }
}

/// An entry with a new key, placed at its rank, keeps a list ascending.
pub proof fn lemma_insert_ascending(es: Seq<KeyValue>, kv: KeyValue)
    requires
        ascending(es),
        !has_key(es, kv.key),
    ensures
        ascending(es.insert(rank(es, kv.key), kv)),
        0 <= rank(es, kv.key) <= es.len(),
{
    lemma_rank_from(es, kv.key, 0);
    crate::entry::lemma_key_index_from(es, kv.key, 0);
    let at = rank(es, kv.key);
    let t = es.insert(at, kv);
    assert forall|i: int, j: int| 0 <= i < j < t.len() implies t[i].key < t[j].key by {
        let a = if i < at { i } else { i - 1 };
        let b = if j < at { j } else { j - 1 };
        if i == at {
            if b > at {
                assert(es[at].key < es[b].key);
            }
        } else if j == at {
            assert(t[i] == es[a]);
            assert(es[a].key != kv.key);
        } else {
            assert(t[i] == es[a] && t[j] == es[b]);
        }
    }
}

/// A list without one of its entries is still ascending.
pub proof fn lemma_remove_ascending(es: Seq<KeyValue>, at: int)
    requires
        ascending(es),
        0 <= at < es.len(),
    ensures
        ascending(es.remove(at)),
{
    let t = es.remove(at);
    assert forall|i: int, j: int| 0 <= i < j < t.len() implies t[i].key < t[j].key by {
        let a = if i < at { i } else { i + 1 };
        let b = if j < at { j } else { j + 1 };
        assert(t[i] == es[a] && t[j] == es[b]);
    }
}

/// In an ascending list a key is found at one index only.
pub proof fn lemma_ascending_unique(es: Seq<KeyValue>, i: int)
    requires
        ascending(es),
        0 <= i < es.len(),
    ensures
        key_index(es, es[i].key) == i,
        has_key(es, es[i].key),
{
    crate::entry::lemma_key_index_is(es, es[i].key, i);
}

/// The lists of two neighbours, each in order for its range, are in order as
/// one list for both ranges together.
pub proof fn lemma_joined_ok(l: NodeView, r: NodeView, lo: int, mid: u16, hi: int, rg: Ranges)
    requires
        l.leaf == r.leaf,
        list_ok(l.leaf, l.entries, lo, mid as int, rg),
        list_ok(r.leaf, r.entries, mid as int, hi, rg),
        lo < mid < hi,
    ensures
        list_ok(l.leaf, joined(l, mid, r), lo, hi, rg),
        joined(l, mid, r).len() == l.entries.len() + r.entries.len(),
{
    reveal(list_ok);
    let c = joined(l, mid, r);
    let n = l.entries.len() as int;
    if l.leaf {
        assert forall|i: int, j: int| 0 <= i < j < c.len() implies c[i].key < c[j].key by {
            if j < n {
                assert(c[i] == l.entries[i] && c[j] == l.entries[j]);
            } else if i >= n {
                assert(c[i] == r.entries[i - n] && c[j] == r.entries[j - n]);
            } else {
                assert(c[i] == l.entries[i] && c[j] == r.entries[j - n]);
            }
        }
        assert forall|i: int| 0 <= i < c.len() implies lo <= (#[trigger] c[i]).key < hi by {
            if i < n {
                assert(c[i] == l.entries[i]);
            } else {
                assert(c[i] == r.entries[i - n]);
            }
        }
    } else {
        assert forall|i: int| 0 <= i < c.len() implies (#[trigger] c[i]).value == (if i < n {
            l.entries[i].value
        } else {
            r.entries[i - n].value
        }) && (i < n - 1 ==> c[i] == l.entries[i]) && (i == n - 1 ==> c[i].key == mid) && (i >= n
            ==> c[i] == r.entries[i - n]) by {}
        assert forall|i: int| 0 <= i < c.len() - 1 implies lo < (#[trigger] c[i]).key < hi by {
            if i < n - 1 {
                assert(c[i] == l.entries[i]);
            } else if i >= n {
                assert(c[i] == r.entries[i - n]);
            }
        }
        assert forall|i: int, j: int| 0 <= i < j < c.len() - 1 implies c[i].key < c[j].key by {
            if i < n - 1 {
                assert(c[i] == l.entries[i]);
            } else if i >= n {
                assert(c[i] == r.entries[i - n]);
            }
            if j < n - 1 {
                assert(c[j] == l.entries[j]);
            } else if j >= n {
                assert(c[j] == r.entries[j - n]);
            }
        }
        assert forall|i: int| 0 <= i < c.len() implies rg.lo[(#[trigger] c[i]).value] == low_of(
            c,
            lo,
            i,
        ) && rg.hi[c[i].value] == high_of(c, hi, i) by {
            if i < n {
                assert(c[i].value == l.entries[i].value);
                if i > 0 {
                    assert(c[i - 1] == l.entries[i - 1]);
                }
            } else {
                assert(c[i] == r.entries[i - n]);
                assert(rg.lo[r.entries[i - n].value] == low_of(r.entries, mid as int, i - n));
                assert(rg.hi[r.entries[i - n].value] == high_of(r.entries, hi, i - n));
                if i > n {
                    assert(c[i - 1] == r.entries[i - n - 1]);
                } else {
                    assert(c[i - 1].key == mid);
                }
            }
        }
        assert(c.last() == r.entries.last());
    }
}

/// A list in order for a range, cut in two, gives two lists in order for the
/// two parts of the range on either side of the cut's separator.
pub proof fn lemma_cut_ok(leaf: bool, c: Seq<KeyValue>, k: int, lo: int, hi: int, rg: Ranges)
    requires
        list_ok(leaf, c, lo, hi, rg),
        0 < k < c.len(),
    ensures
        list_ok(leaf, head(leaf, c, k), lo, cut_key(leaf, c, k) as int, rg),
        list_ok(leaf, c.skip(k), cut_key(leaf, c, k) as int, hi, rg),
        lo < cut_key(leaf, c, k) < hi,
        head(leaf, c, k).len() == k,
{
    reveal(list_ok);
    let d = cut_key(leaf, c, k);
    let a = head(leaf, c, k);
    let b = c.skip(k);
    if leaf {
        assert forall|i: int, j: int| 0 <= i < j < a.len() implies a[i].key < a[j].key by {
            assert(a[i] == c[i] && a[j] == c[j]);
        }
        assert forall|i: int| 0 <= i < a.len() implies lo <= (#[trigger] a[i]).key < d by {
            assert(a[i] == c[i]);
        }
        assert forall|i: int, j: int| 0 <= i < j < b.len() implies b[i].key < b[j].key by {
            assert(b[i] == c[i + k] && b[j] == c[j + k]);
        }
        assert forall|i: int| 0 <= i < b.len() implies d <= (#[trigger] b[i]).key < hi by {
            assert(b[i] == c[i + k]);
            if i > 0 {
                assert(c[k].key < c[i + k].key);
            }
        }
    } else {
        assert forall|i: int| 0 <= i < a.len() implies (#[trigger] a[i]).value == c[i].value && (i
            < k - 1 ==> a[i] == c[i]) by {}
        assert forall|i: int| 0 <= i < a.len() - 1 implies lo < (#[trigger] a[i]).key < d by {
            assert(a[i] == c[i]);
        }
        assert forall|i: int, j: int| 0 <= i < j < a.len() - 1 implies a[i].key < a[j].key by {
            assert(a[i] == c[i] && a[j] == c[j]);
        }
        assert forall|i: int| 0 <= i < a.len() implies rg.lo[(#[trigger] a[i]).value] == low_of(
            a,
            lo,
            i,
        ) && rg.hi[a[i].value] == high_of(a, d as int, i) by {
            assert(rg.hi[c[i].value] == high_of(c, hi, i));
            if i > 0 {
                assert(a[i - 1] == c[i - 1]);
            }
        }
        assert forall|i: int| 0 <= i < b.len() - 1 implies d < (#[trigger] b[i]).key < hi by {
            assert(b[i] == c[i + k]);
            assert(c[k - 1].key < c[i + k].key);
        }
        assert forall|i: int, j: int| 0 <= i < j < b.len() - 1 implies b[i].key < b[j].key by {
            assert(b[i] == c[i + k] && b[j] == c[j + k]);
        }
        assert forall|i: int| 0 <= i < b.len() implies rg.lo[(#[trigger] b[i]).value] == low_of(
            b,
            d as int,
            i,
        ) && rg.hi[b[i].value] == high_of(b, hi, i) by {
            assert(b[i] == c[i + k]);
            if i > 0 {
                assert(b[i - 1] == c[i + k - 1]);
            }
        }
    }
}

/// In a node that is in order, a key within the range of child `i` is
/// dispatched to child `i`.
pub proof fn lemma_route_is(es: Seq<KeyValue>, lo: int, hi: int, rg: Ranges, i: int, key: u16)
    requires
        list_ok(false, es, lo, hi, rg),
        0 <= i < es.len(),
        low_of(es, lo, i) <= key < high_of(es, hi, i),
    ensures
        crate::entry::route(es, key) == i,
{
    reveal(list_ok);
    let d = es.drop_last();
    assert forall|j: int| 0 <= j < i implies d[j].key <= key by {
        if j < i - 1 {
            assert(es[j].key < es[i - 1].key);
        }
    }
    if i < d.len() {
        assert(d[i] == es[i]);
    }
    lemma_rank_is(d, key, i);
}

/// In a node that is in order, the child that a key within the node's range
/// is dispatched to answers for that key.
pub proof fn lemma_route_range(es: Seq<KeyValue>, lo: int, hi: int, rg: Ranges, key: u16)
    requires
        list_ok(false, es, lo, hi, rg),
        lo <= key < hi,
    ensures
        ({
            let i = crate::entry::route(es, key);
            &&& 0 <= i < es.len()
            &&& rg.lo[es[i].value] <= key < rg.hi[es[i].value]
        }),
{
    reveal(list_ok);
    let d = es.drop_last();
    lemma_rank_from(d, key, 0);
    let i = rank(d, key);
    if i > 0 {
        assert(d[i - 1] == es[i - 1]);
    }
    if i < d.len() {
        assert(d[i] == es[i]);
    }
}

/// A list in order stays in order under other ranges that are the same for
/// its children.
pub proof fn lemma_list_ok_same(leaf: bool, es: Seq<KeyValue>, lo: int, hi: int, r: Ranges, r2: Ranges)
    requires
        list_ok(leaf, es, lo, hi, r),
        !leaf ==> forall|i: int|
            0 <= i < es.len() ==> r2.lo[(#[trigger] es[i]).value] == r.lo[es[i].value]
                && r2.hi[es[i].value] == r.hi[es[i].value],
    ensures
        list_ok(leaf, es, lo, hi, r2),
{
    reveal(list_ok);
    if !leaf {
        assert forall|i: int| 0 <= i < es.len() implies r2.lo[(#[trigger] es[i]).value] == low_of(
            es,
            lo,
            i,
        ) && r2.hi[es[i].value] == high_of(es, hi, i) by {
            assert(r.lo[es[i].value] == low_of(es, lo, i));
        }
    }
}

/// A parent's list stays in order when the range of the child at `at` is cut
/// at `d` and a new child `y`, listed just before it, answers for the lower
/// part.
pub proof fn lemma_parent_insert_ok(
    pe: Seq<KeyValue>,
    at: int,
    d: u16,
    y: u16,
    lo: int,
    hi: int,
    r: Ranges,
    r2: Ranges,
)
    requires
        list_ok(false, pe, lo, hi, r),
        0 <= at < pe.len(),
        low_of(pe, lo, at) < d < high_of(pe, hi, at),
        r2.lo[y] == low_of(pe, lo, at),
        r2.hi[y] == d,
        r2.lo[pe[at].value] == d,
        r2.hi[pe[at].value] == r.hi[pe[at].value],
        forall|i: int|
            0 <= i < pe.len() && i != at ==> r2.lo[(#[trigger] pe[i]).value] == r.lo[pe[i].value]
                && r2.hi[pe[i].value] == r.hi[pe[i].value],
    ensures
        list_ok(false, pe.insert(at, KeyValue { key: d, value: y }), lo, hi, r2),
{
    reveal(list_ok);
    let t = pe.insert(at, KeyValue { key: d, value: y });
    assert forall|i: int| 0 <= i < t.len() implies (#[trigger] t[i]) == (if i < at {
        pe[i]
    } else if i == at {
        KeyValue { key: d, value: y }
    } else {
        pe[i - 1]
    }) by {}
    assert forall|i: int| 0 <= i < t.len() - 1 implies lo < (#[trigger] t[i]).key < hi by {
        if i < at {
            assert(t[i] == pe[i]);
        } else if i > at {
            assert(t[i] == pe[i - 1]);
        } else {
            if at > 0 {
                assert(lo < pe[at - 1].key);
            }
            if at < pe.len() - 1 {
                assert(pe[at].key < hi);
            }
        }
    }
    assert forall|i: int, j: int| 0 <= i < j < t.len() - 1 implies t[i].key < t[j].key by {
        let a = if i < at { i } else { i - 1 };
        let b = if j < at { j } else { j - 1 };
        if i != at && j != at {
            assert(t[i] == pe[a] && t[j] == pe[b]);
        } else if i == at {
            assert(t[j] == pe[b]);
            if b > at {
                assert(pe[at].key < pe[b].key);
            }
        } else {
            if a < at - 1 {
                assert(pe[a].key < pe[at - 1].key);
            }
        }
    }
    assert forall|i: int| 0 <= i < t.len() implies r2.lo[(#[trigger] t[i]).value] == low_of(
        t,
        lo,
        i,
    ) && r2.hi[t[i].value] == high_of(t, hi, i) by {
        if i < at {
            assert(t[i] == pe[i]);
            assert(r.lo[pe[i].value] == low_of(pe, lo, i));
            if i > 0 {
                assert(t[i - 1] == pe[i - 1]);
            }
        } else if i == at {
            if i > 0 {
                assert(t[i - 1] == pe[i - 1]);
            }
        } else if i == at + 1 {
            assert(t[i] == pe[at]);
            assert(r.hi[pe[at].value] == high_of(pe, hi, at));
        } else {
            assert(t[i] == pe[i - 1]);
        }
    }
}

/// A parent's list stays in order when the child at `at` goes and the child
/// behind it answers for the keys of both.
pub proof fn lemma_parent_remove_ok(pe: Seq<KeyValue>, at: int, lo: int, hi: int, r: Ranges, r2: Ranges)
    requires
        list_ok(false, pe, lo, hi, r),
        0 <= at < pe.len() - 1,
        r2.lo[pe[at + 1].value] == low_of(pe, lo, at),
        r2.hi[pe[at + 1].value] == r.hi[pe[at + 1].value],
        forall|i: int|
            0 <= i < pe.len() && i != at && i != at + 1 ==> r2.lo[(#[trigger] pe[i]).value]
                == r.lo[pe[i].value] && r2.hi[pe[i].value] == r.hi[pe[i].value],
    ensures
        list_ok(false, pe.remove(at), lo, hi, r2),
{
    reveal(list_ok);
    let t = pe.remove(at);
    assert forall|i: int| 0 <= i < t.len() implies (#[trigger] t[i]) == (if i < at {
        pe[i]
    } else {
        pe[i + 1]
    }) by {}
    assert forall|i: int| 0 <= i < t.len() - 1 implies lo < (#[trigger] t[i]).key < hi by {
        if i < at {
            assert(t[i] == pe[i]);
        } else {
            assert(t[i] == pe[i + 1]);
        }
    }
    assert forall|i: int, j: int| 0 <= i < j < t.len() - 1 implies t[i].key < t[j].key by {
        let a = if i < at { i } else { i + 1 };
        let b = if j < at { j } else { j + 1 };
        assert(t[i] == pe[a] && t[j] == pe[b]);
    }
    assert forall|i: int| 0 <= i < t.len() implies r2.lo[(#[trigger] t[i]).value] == low_of(
        t,
        lo,
        i,
    ) && r2.hi[t[i].value] == high_of(t, hi, i) by {
        if i < at {
            if i > 0 {
                assert(t[i - 1] == pe[i - 1]);
            }
        } else if i == at {
            assert(r.hi[pe[at + 1].value] == high_of(pe, hi, at + 1));
            if i > 0 {
                assert(t[i - 1] == pe[i - 1]);
            }
        } else {
            assert(t[i] == pe[i + 1]);
            assert(r.lo[pe[i + 1].value] == low_of(pe, lo, i + 1));
            assert(r.hi[pe[i + 1].value] == high_of(pe, hi, i + 1));
        }
    }
}

/// A parent's list stays in order when the separator between the children at
/// `at` and behind it moves to `d`, between the bounds of the two.
pub proof fn lemma_parent_rekey_ok(
    pe: Seq<KeyValue>,
    at: int,
    d: u16,
    lo: int,
    hi: int,
    r: Ranges,
    r2: Ranges,
)
    requires
        list_ok(false, pe, lo, hi, r),
        0 <= at < pe.len() - 1,
        low_of(pe, lo, at) < d < high_of(pe, hi, at + 1),
        r2.lo[pe[at].value] == r.lo[pe[at].value],
        r2.hi[pe[at].value] == d,
        r2.lo[pe[at + 1].value] == d,
        r2.hi[pe[at + 1].value] == r.hi[pe[at + 1].value],
        forall|i: int|
            0 <= i < pe.len() && i != at && i != at + 1 ==> r2.lo[(#[trigger] pe[i]).value]
                == r.lo[pe[i].value] && r2.hi[pe[i].value] == r.hi[pe[i].value],
    ensures
        list_ok(false, pe.update(at, KeyValue { key: d, value: pe[at].value }), lo, hi, r2),
{
    reveal(list_ok);
    let t = pe.update(at, KeyValue { key: d, value: pe[at].value });
    assert forall|i: int| 0 <= i < t.len() implies (#[trigger] t[i]).value == pe[i].value && (i
        != at ==> t[i] == pe[i]) by {}
    assert(t.last() == pe.last());
    assert forall|i: int| 0 <= i < t.len() - 1 implies lo < (#[trigger] t[i]).key < hi by {
        if i != at {
            assert(t[i] == pe[i]);
        } else {
            if at > 0 {
                assert(lo < pe[at - 1].key);
            }
            if at + 1 < pe.len() - 1 {
                assert(pe[at + 1].key < hi);
            }
        }
    }
    assert forall|i: int, j: int| 0 <= i < j < t.len() - 1 implies t[i].key < t[j].key by {
        if i != at && j != at {
            assert(t[i] == pe[i] && t[j] == pe[j]);
        } else if i == at {
            assert(t[j] == pe[j]);
            if j > at + 1 {
                assert(pe[at + 1].key < pe[j].key);
            }
        } else {
            if i < at - 1 {
                assert(pe[i].key < pe[at - 1].key);
            }
        }
    }
    assert forall|i: int| 0 <= i < t.len() implies r2.lo[(#[trigger] t[i]).value] == low_of(
        t,
        lo,
        i,
    ) && r2.hi[t[i].value] == high_of(t, hi, i) by {
        if i == at {
            if i > 0 {
                assert(t[i - 1] == pe[i - 1]);
            }
        } else if i == at + 1 {
            assert(t[i] == pe[at + 1]);
        } else {
            if i > 0 {
                assert(t[i - 1] == pe[i - 1]);
            }
        }
    }
}

/// What it is for a leaf's list to be in order.
pub proof fn lemma_leaf_list(es: Seq<KeyValue>, lo: int, hi: int, r: Ranges)
    ensures
        list_ok(true, es, lo, hi, r) <==> ascending(es) && forall|i: int|
            0 <= i < es.len() ==> lo <= (#[trigger] es[i]).key < hi,
{
    reveal(list_ok);
}

/// In a list in order, child `i` answers for the keys between the separator
/// before it and its own.
pub proof fn lemma_child_range(es: Seq<KeyValue>, lo: int, hi: int, r: Ranges, i: int)
    requires
        list_ok(false, es, lo, hi, r),
        0 <= i < es.len(),
    ensures
        r.lo[es[i].value] == low_of(es, lo, i),
        r.hi[es[i].value] == high_of(es, hi, i),
        lo <= low_of(es, lo, i),
        high_of(es, hi, i) <= hi,
{
    reveal(list_ok);
    if i > 0 {
        assert(lo < es[i - 1].key < hi);
    }
    if i < es.len() - 1 {
        assert(lo < es[i].key < hi);
    }
}

/// In a list in order, a separator lies strictly between the lower bound of
/// its own child and the upper bound of the child behind.
pub proof fn lemma_sep_between(es: Seq<KeyValue>, lo: int, hi: int, r: Ranges, at: int)
    requires
        list_ok(false, es, lo, hi, r),
        0 <= at < es.len() - 1,
    ensures
        low_of(es, lo, at) < es[at].key < high_of(es, hi, at + 1),
{
    reveal(list_ok);
    if at > 0 {
        assert(es[at - 1].key < es[at].key);
    }
    if at + 1 < es.len() - 1 {
        assert(es[at].key < es[at + 1].key);
    }
}

/// A node with a single child that answers for all the node's keys is in
/// order.
pub proof fn lemma_single_list(y: u16, lo: int, hi: int, r: Ranges)
    requires
        r.lo[y] == lo,
        r.hi[y] == hi,
    ensures
        list_ok(false, seq![KeyValue { key: SENTINEL, value: y }], lo, hi, r),
{
    reveal(list_ok);
}

} // verus!
