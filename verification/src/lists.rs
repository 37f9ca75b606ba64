//! Facts about entry lists that are cut, joined and patched.

use vstd::prelude::*;
use crate::entry::{KeyValue, child_index, distinct_children, has_child, lemma_child_index_from};
use crate::node::NodeView;
use crate::steps::{head, joined};

verus! {

/// Where `id` is listed, `child_index` finds it.
pub proof fn lemma_child_index(es: Seq<KeyValue>, id: u16)
    requires
        has_child(es, id),
    ensures
        0 <= child_index(es, id) < es.len(),
        es[child_index(es, id)].value == id,
{
    lemma_child_index_from(es, id, 0);
    let i = choose|i: int| 0 <= i < es.len() && (#[trigger] es[i]).value == id;
    if child_index(es, id) >= es.len() {
        assert(es[i].value != id);
    }
}

/// In a list without repeated children, a child's index is the one place
/// where it is listed.
pub proof fn lemma_child_index_at(es: Seq<KeyValue>, at: int)
    requires
        0 <= at < es.len(),
        distinct_children(es),
    ensures
        child_index(es, es[at].value) == at,
        has_child(es, es[at].value),
{
    lemma_child_index(es, es[at].value);
}

pub proof fn lemma_has_child_insert(es: Seq<KeyValue>, at: int, e: KeyValue, id: u16)
    requires
        0 <= at <= es.len(),
    ensures
        has_child(es.insert(at, e), id) <==> has_child(es, id) || e.value == id,
{
    let t = es.insert(at, e);
    if has_child(es, id) {
        let i = choose|i: int| 0 <= i < es.len() && (#[trigger] es[i]).value == id;
        if i < at {
            assert(t[i].value == id);
        } else {
            assert(t[i + 1].value == id);
        }
    }
    if e.value == id {
        assert(t[at].value == id);
    }
    if has_child(t, id) {
        let i = choose|i: int| 0 <= i < t.len() && (#[trigger] t[i]).value == id;
        if i < at {
            assert(es[i].value == id);
        } else if i > at {
            assert(es[i - 1].value == id);
        }
    }
}

pub proof fn lemma_has_child_remove(es: Seq<KeyValue>, at: int, id: u16)
    requires
        0 <= at < es.len(),
        distinct_children(es),
    ensures
        has_child(es.remove(at), id) <==> has_child(es, id) && es[at].value != id,
        distinct_children(es.remove(at)),
{
    let t = es.remove(at);
    if has_child(es, id) && es[at].value != id {
        let i = choose|i: int| 0 <= i < es.len() && (#[trigger] es[i]).value == id;
        if i < at {
            assert(t[i].value == id);
        } else {
            assert(t[i - 1].value == id);
        }
    }
    if has_child(t, id) {
        let i = choose|i: int| 0 <= i < t.len() && (#[trigger] t[i]).value == id;
        if i < at {
            assert(es[i].value == id);
        } else {
            assert(es[i + 1].value == id);
        }
    }
}

/// Replacing an entry's key leaves the children as they are.
pub proof fn lemma_has_child_rekey(es: Seq<KeyValue>, at: int, key: u16, id: u16)
    requires
        0 <= at < es.len(),
    ensures
        has_child(es.update(at, KeyValue { key, value: es[at].value }), id) <==> has_child(es, id),
        distinct_children(es) ==> distinct_children(
            es.update(at, KeyValue { key, value: es[at].value }),
        ),
{
    let t = es.update(at, KeyValue { key, value: es[at].value });
    if has_child(es, id) {
        let i = choose|i: int| 0 <= i < es.len() && (#[trigger] es[i]).value == id;
        assert(t[i].value == id);
    }
    if has_child(t, id) {
        let i = choose|i: int| 0 <= i < t.len() && (#[trigger] t[i]).value == id;
        assert(es[i].value == id);
    }
}

/// A child of a list is a child of exactly one side of a cut through it.
pub proof fn lemma_has_child_cut(c: Seq<KeyValue>, k: int, id: u16)
    requires
        0 <= k <= c.len(),
    ensures
        has_child(c, id) <==> has_child(c.take(k), id) || has_child(c.skip(k), id),
        distinct_children(c) ==> distinct_children(c.take(k)) && distinct_children(c.skip(k))
            && !(has_child(c.take(k), id) && has_child(c.skip(k), id)),
{
    let a = c.take(k);
    let b = c.skip(k);
    if has_child(c, id) {
        let i = choose|i: int| 0 <= i < c.len() && (#[trigger] c[i]).value == id;
        if i < k {
            assert(a[i].value == id);
        } else {
            assert(b[i - k].value == id);
        }
    }
    if has_child(a, id) {
        let i = choose|i: int| 0 <= i < a.len() && (#[trigger] a[i]).value == id;
        assert(c[i].value == id);
    }
    if has_child(b, id) {
        let i = choose|i: int| 0 <= i < b.len() && (#[trigger] b[i]).value == id;
        assert(c[i + k].value == id);
    }
    if distinct_children(c) {
        assert forall|i: int, j: int| 0 <= i < j < a.len() implies a[i].value != a[j].value by {
            assert(a[i] == c[i] && a[j] == c[j]);
        }
        assert forall|i: int, j: int| 0 <= i < j < b.len() implies b[i].value != b[j].value by {
            assert(b[i] == c[i + k] && b[j] == c[j + k]);
        }
        if has_child(a, id) && has_child(b, id) {
            let i = choose|i: int| 0 <= i < a.len() && (#[trigger] a[i]).value == id;
            let j = choose|j: int| 0 <= j < b.len() && (#[trigger] b[j]).value == id;
            assert(c[i].value == id && c[j + k].value == id);
        }
    }
}

/// A child of two lists put together is a child of one of them.
pub proof fn lemma_has_child_add(a: Seq<KeyValue>, b: Seq<KeyValue>, id: u16)
    ensures
        has_child(a + b, id) <==> has_child(a, id) || has_child(b, id),
{
    let c = a + b;
    assert(c.take(a.len() as int) =~= a);
    assert(c.skip(a.len() as int) =~= b);
}

/// The head of a list lists the children of its first `k` entries.
pub proof fn lemma_has_child_head(leaf: bool, c: Seq<KeyValue>, k: int, id: u16)
    requires
        0 < k <= c.len(),
    ensures
        has_child(head(leaf, c, k), id) <==> has_child(c.take(k), id),
        distinct_children(c.take(k)) ==> distinct_children(head(leaf, c, k)),
        head(leaf, c, k).len() == k,
{
    if !leaf {
        let t = c.take(k);
        lemma_has_child_rekey(t, k - 1, crate::node::SENTINEL, id);
    }
}

/// Two joined lists list the children of both.
pub proof fn lemma_has_child_joined(l: NodeView, sep: u16, r: NodeView, id: u16)
    requires
        l.leaf || l.entries.len() > 0,
    ensures
        has_child(joined(l, sep, r), id) <==> has_child(l.entries, id) || has_child(r.entries, id),
        joined(l, sep, r).len() == l.entries.len() + r.entries.len(),
{
    if l.leaf {
        lemma_has_child_add(l.entries, r.entries, id);
    } else {
        let a = l.entries.update(
            l.entries.len() - 1,
            KeyValue { key: sep, value: l.entries.last().value },
        );
        lemma_has_child_rekey(l.entries, l.entries.len() - 1, sep, id);
        lemma_has_child_add(a, r.entries, id);
    }
}

} // verus!
