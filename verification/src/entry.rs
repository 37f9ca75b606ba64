//! Entries and the linear scans over an ordered entry list.

use vstd::prelude::*;

verus! {

/// One slot of a node. In a leaf, `key` is the indexed key and `value` its
/// payload; in an internal node, `key` is a separator and `value` the
/// identifier of a child.
#[derive(Clone, Copy, Debug, PartialEq, Eq, Structural)]
pub struct KeyValue {
    pub key: u16,
    pub value: u16,
}

/// Index of the first entry at or after `from` whose key exceeds `key`;
/// `es.len()` if there is none.
pub open spec fn rank_from(es: Seq<KeyValue>, key: u16, from: int) -> int
    decreases es.len() - from,
{
    if from >= es.len() {
        es.len() as int
    } else if key < es[from].key {
        from
    } else {
        rank_from(es, key, from + 1)
    }
}

/// Where an entry with `key` is inserted: behind every entry whose key does
/// not exceed it.
pub open spec fn rank(es: Seq<KeyValue>, key: u16) -> int {
    rank_from(es, key, 0)
}

/// Index of the first entry at or after `from` with exactly this key;
/// `es.len()` if there is none.
pub open spec fn key_index_from(es: Seq<KeyValue>, key: u16, from: int) -> int
    decreases es.len() - from,
{
    if from >= es.len() {
        es.len() as int
    } else if es[from].key == key {
        from
    } else {
        key_index_from(es, key, from + 1)
    }
}

/// Index of the first entry with this key; `es.len()` if no entry has it.
pub open spec fn key_index(es: Seq<KeyValue>, key: u16) -> int {
    key_index_from(es, key, 0)
}

/// Whether some entry carries this key.
pub open spec fn has_key(es: Seq<KeyValue>, key: u16) -> bool {
    key_index(es, key) < es.len()
}

/// Index of the first entry at or after `from` whose value is `id`;
/// `es.len()` if there is none.
pub open spec fn child_index_from(es: Seq<KeyValue>, id: u16, from: int) -> int
    decreases es.len() - from,
{
    if from >= es.len() {
        es.len() as int
    } else if es[from].value == id {
        from
    } else {
        child_index_from(es, id, from + 1)
    }
}

/// Index of the first entry that points at child `id`; `es.len()` if none does.
pub open spec fn child_index(es: Seq<KeyValue>, id: u16) -> int {
    child_index_from(es, id, 0)
}

/// Whether some entry points at child `id`.
pub open spec fn has_child(es: Seq<KeyValue>, id: u16) -> bool {
    exists|i: int| 0 <= i < es.len() && (#[trigger] es[i]).value == id
}

/// The child index that a key is dispatched to in an internal node: the first
/// entry, the last one excepted, whose separator exceeds the key; the last
/// entry if there is none.
pub open spec fn route(es: Seq<KeyValue>, key: u16) -> int {
    rank(es.drop_last(), key)
}

/// Keys strictly ascending.
pub open spec fn ascending(es: Seq<KeyValue>) -> bool {
    forall|i: int, j: int| 0 <= i < j < es.len() ==> es[i].key < es[j].key
}

/// No child identifier occurs twice.
pub open spec fn distinct_children(es: Seq<KeyValue>) -> bool {
    forall|i: int, j: int| 0 <= i < j < es.len() ==> es[i].value != es[j].value
}

pub proof fn lemma_rank_from(es: Seq<KeyValue>, key: u16, from: int)
    requires
        0 <= from <= es.len(),
    ensures
        from <= rank_from(es, key, from) <= es.len(),
        forall|i: int| from <= i < rank_from(es, key, from) ==> es[i].key <= key,
        rank_from(es, key, from) < es.len() ==> key < es[rank_from(es, key, from)].key,
    decreases es.len() - from,
{
    if from < es.len() && key >= es[from].key {
        lemma_rank_from(es, key, from + 1);
    }
}

/// `rank` is the one index with no larger key before it and a larger key at it.
pub proof fn lemma_rank_is(es: Seq<KeyValue>, key: u16, at: int)
    requires
        0 <= at <= es.len(),
        forall|i: int| 0 <= i < at ==> es[i].key <= key,
        at < es.len() ==> key < es[at].key,
    ensures
        rank(es, key) == at,
{
    lemma_rank_from(es, key, 0);
    let r = rank(es, key);
    if r < at {
        assert(es[r].key <= key);
    } else if r > at {
        assert(es[at].key <= key);
    }
}

pub proof fn lemma_key_index_from(es: Seq<KeyValue>, key: u16, from: int)
    requires
        0 <= from <= es.len(),
    ensures
        from <= key_index_from(es, key, from) <= es.len(),
        forall|i: int| from <= i < key_index_from(es, key, from) ==> es[i].key != key,
        key_index_from(es, key, from) < es.len() ==> es[key_index_from(es, key, from)].key == key,
    decreases es.len() - from,
{
    if from < es.len() && es[from].key != key {
        lemma_key_index_from(es, key, from + 1);
    }
}

pub proof fn lemma_key_index_is(es: Seq<KeyValue>, key: u16, at: int)
    requires
        0 <= at <= es.len(),
        forall|i: int| 0 <= i < at ==> es[i].key != key,
        at < es.len() ==> es[at].key == key,
    ensures
        key_index(es, key) == at,
{
    lemma_key_index_from(es, key, 0);
    let r = key_index(es, key);
    if r < at {
        assert(es[r].key != key);
    } else if r > at {
        assert(es[at].key != key);
    }
}

pub proof fn lemma_child_index_from(es: Seq<KeyValue>, id: u16, from: int)
    requires
        0 <= from <= es.len(),
    ensures
        from <= child_index_from(es, id, from) <= es.len(),
        forall|i: int| from <= i < child_index_from(es, id, from) ==> es[i].value != id,
        child_index_from(es, id, from) < es.len() ==> es[child_index_from(es, id, from)].value
            == id,
    decreases es.len() - from,
{
    if from < es.len() && es[from].value != id {
        lemma_child_index_from(es, id, from + 1);
    }
}

/// First index whose key exceeds `key`, by linear scan.
pub fn rank_of(es: &Vec<KeyValue>, key: u16) -> (at: usize)
    ensures
        at == rank(es@, key),
        at <= es@.len(),
{
    let mut i: usize = 0;
    while i < es.len()
        invariant
            i <= es@.len(),
            rank(es@, key) == rank_from(es@, key, i as int),
        decreases es@.len() - i,
    {
        if key < es[i].key {
            return i;
        }
        i = i + 1;
    }
    i
}

/// First index with exactly this key, by linear scan; the length if absent.
pub fn index_of_key(es: &Vec<KeyValue>, key: u16) -> (at: usize)
    ensures
        at == key_index(es@, key),
        at <= es@.len(),
{
    let mut i: usize = 0;
    while i < es.len()
        invariant
            i <= es@.len(),
            key_index(es@, key) == key_index_from(es@, key, i as int),
        decreases es@.len() - i,
    {
        if es[i].key == key {
            return i;
        }
        i = i + 1;
    }
    i
}

/// First index that points at child `id`, by linear scan; the length if absent.
pub fn index_of_child(es: &Vec<KeyValue>, id: u16) -> (at: usize)
    ensures
        at == child_index(es@, id),
        at <= es@.len(),
{
    let mut i: usize = 0;
    while i < es.len()
        invariant
            i <= es@.len(),
            child_index(es@, id) == child_index_from(es@, id, i as int),
        decreases es@.len() - i,
    {
        if es[i].value == id {
            return i;
        }
        i = i + 1;
    }
    i
}

} // verus!
