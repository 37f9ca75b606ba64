//! The path that a search takes, and what is left of it once its last node
//! has been dealt with.

use vstd::prelude::*;
use crate::keep_shape::lemma_distribute_shape;
use crate::shape::Shape;
use crate::view::TreeView;

verus! {

/// `path` leads from the root downwards, one node per level.
pub open spec fn on_path(v: TreeView, g: Shape, path: Seq<u16>) -> bool {
    &&& path.len() >= 1
    &&& path[0] == 0
    &&& forall|i: int|
        0 <= i < path.len() ==> v.arena.contains_key(#[trigger] path[i]) && g.level[path[i]] + i
            == g.level[0]
    &&& forall|i: int| 0 < i < path.len() ==> g.parent[#[trigger] path[i]] == path[i - 1]
}

/// Only the first node of a path is the root.
pub proof fn lemma_on_path_nonroot(v: TreeView, g: Shape, path: Seq<u16>, i: int)
    requires
        on_path(v, g, path),
        0 < i < path.len(),
    ensures
        path[i] != 0,
        forall|j: int| 0 <= j < i ==> path[j] != path[i],
{
    assert forall|j: int| 0 <= j < i implies path[j] != path[i] by {}
}

/// A path without its last node is a path.
pub proof fn lemma_on_path_shorter(v: TreeView, g: Shape, path: Seq<u16>)
    requires
        on_path(v, g, path),
        path.len() >= 2,
    ensures
        on_path(v, g, path.drop_last()),
{
    let s = path.drop_last();
    assert forall|i: int| 0 <= i < s.len() implies v.arena.contains_key(#[trigger] s[i])
        && g.level[s[i]] + i == g.level[0] by {}
    assert forall|i: int| 0 < i < s.len() implies g.parent[#[trigger] s[i]] == s[i - 1] by {}
}

/// After the last node of a path has been set right under the node before
/// it, the nodes before it are still a path.
pub proof fn lemma_on_path_distribute(v: TreeView, g: Shape, path: Seq<u16>, x: u16, p: u16)
    requires
        on_path(v, g, path),
        path.len() >= 2,
        x == path.last(),
        p == path[path.len() - 2],
        v.inv(g, None, Some(x)),
        v.arena[x].underflows(),
    ensures
        on_path(v.distribute(x, p), v.distribute_shape(g, x, p), path.drop_last()),
{
    let s = path.drop_last();
    let v2 = v.distribute(x, p);
    let g2 = v.distribute_shape(g, x, p);
    lemma_distribute_shape(v, g, x, p);
    assert forall|i: int| 0 <= i < s.len() implies v2.arena.contains_key(#[trigger] s[i])
        && g2.level[s[i]] + i == g2.level[0] by {}
    assert forall|i: int| 0 < i < s.len() implies g2.parent[#[trigger] s[i]] == s[i - 1] by {
        lemma_on_path_nonroot(v, g, path, i);
    }
}

} // verus!
