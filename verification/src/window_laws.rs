//! No change of the layout loses a window.

use vstd::prelude::*;

use crate::tree::{
    attached, detached, flattened, focused, is_only_child_of_split, kind, linked, moved,
    only_child_freed, tiles, valid, wf, wrapped, ContainerKind, Tree,
};
use crate::tree_laws::{
    are_tiles_of, attaching_keeps_tree, cut_out, detaching_keeps_tree, flattening_keeps_tree,
    focusing_keeps_tree, lemma_flattened, lemma_parent_facts, lemma_tiles, lemma_wrapped,
    linking_keeps_tree, moving_keeps_tree, same_kinds, same_links, unlinking_keeps_tree,
    wrapping_keeps_tree,
};

verus! {

/// Whether one tree has come from another without losing a window or a kind: containers may
/// have been added, and a window is in the tree as long as it was before.
pub open spec fn keeps_windows(t: Tree, u: Tree) -> bool {
    &&& t.len() <= u.len()
    &&& forall|i: int| 0 <= i < t.len() ==> (#[trigger] u[i]).data.kind == t[i].data.kind
    &&& forall|i: int|
        0 <= i < t.len() && t[i].data.kind.is_window() ==> ((#[trigger] u[i]).parent is Some
            <==> t[i].parent is Some)
}

/// Trees with the same links have the same windows.
pub proof fn lemma_same_links_keeps_windows(t: Tree, u: Tree)
    requires
        same_links(t, u),
    ensures
        keeps_windows(t, u),
{
}

/// Windows hold no containers.
pub proof fn lemma_window_childless(t: Tree, id: usize)
    requires
        wf(t),
        valid(t, id),
        kind(t, id).is_window(),
    ensures
        t[id as int].children.len() == 0,
{
    if t[id as int].children.len() > 0 {
        let c = t[id as int].children[0];
        assert(valid(t, t[id as int].children[0]));
        lemma_parent_facts(t, c);
    }
}

/// Flattening a split loses no window.
pub proof fn flattening_keeps_windows(t: Tree, split: usize)
    requires
        wf(t),
        valid(t, split),
        kind(t, split) == ContainerKind::Split,
    ensures
        wf(flattened(t, split)),
        keeps_windows(t, flattened(t, split)),
        same_kinds(t, flattened(t, split)),
{
    reveal(flattened);
    if t[split as int].parent is Some {
        lemma_flattened(t, split);
        flattening_keeps_tree(t, split);
        let p = t[split as int].parent->0;
        let u = flattened(t, split);
        lemma_parent_facts(t, split);
        assert forall|i: int| 0 <= i < t.len() && t[i].data.kind.is_window() implies ((
        #[trigger] u[i]).parent is Some <==> t[i].parent is Some) by {
            if i != p && i != split && t[split as int].children.contains(i as usize) {
                let s = t[split as int].children;
                let k = choose|k: int| 0 <= k < s.len() && s[k] == i as usize;
                assert(valid(t, t[split as int].children[k]));
            }
        }
    }
}

/// Moving a container without children loses no window.
pub proof fn moving_keeps_windows(t: Tree, id: usize, parent: usize, index: int)
    requires
        wf(t),
        valid(t, id),
        valid(t, parent),
        id != parent,
        t[id as int].parent is Some,
        t[id as int].children.len() == 0,
        kind(t, parent).holds(kind(t, id)),
        index >= 0,
    ensures
        keeps_windows(t, moved(t, id, parent, index)),
        moved(t, id, parent, index)[id as int].parent == Some(parent),
{
    reveal(moved);
    moving_keeps_tree(t, id, parent, index);
    let u = moved(t, id, parent, index);
    if t[id as int].parent != Some(parent) {
        let f = only_child_freed(t, id);
        detaching_keeps_tree(t, id);
        assert(keeps_windows(t, f)) by {
            if is_only_child_of_split(t, id) {
                lemma_parent_facts(t, id);
                flattening_keeps_windows(t, t[id as int].parent->0);
            }
        }
        unlinking_keeps_tree(f, id);
        let d = detached(t, id);
        let c = cut_out(f, id);
        let place = crate::geometry::int_min(index, d[parent as int].children.len() as int);
        attaching_keeps_tree(d, id, parent, place);
        linking_keeps_tree(d, id, parent, place);
        let l = linked(d, id, parent, place);
        let a = attached(d, id, parent, place);
        focusing_keeps_tree(a, id, t.len());
        assert forall|i: int| 0 <= i < t.len() && i != id implies (#[trigger] u[i]).parent
            == f[i].parent by {
            assert(c[i].parent == f[i].parent);
            assert(d[i].parent == c[i].parent);
            assert(l[i].parent == d[i].parent);
            assert(a[i].parent == l[i].parent);
            assert(focused(a, id, t.len())[i].parent == a[i].parent);
        }
        assert forall|i: int| 0 <= i < t.len() && t[i].data.kind.is_window() implies ((
        #[trigger] u[i]).parent is Some <==> t[i].parent is Some) by {
            assert(f[i].parent is Some <==> t[i].parent is Some);
        }
    }
}

/// Wrapping tiles in a split loses no window.
pub proof fn wrapping_keeps_windows(t: Tree, split: usize, parent: usize, ids: Seq<usize>)
    requires
        wf(t),
        valid(t, split),
        valid(t, parent),
        kind(t, split) == ContainerKind::Split,
        kind(t, parent).is_direction(),
        t[split as int].parent is None,
        t[split as int].children.len() == 0,
        split != parent,
        are_tiles_of(t, ids, parent),
    ensures
        keeps_windows(t, wrapped(t, split, parent, ids)),
{
    reveal(wrapped);
    wrapping_keeps_tree(t, split, parent, ids);
    lemma_wrapped(t, split, parent, ids);
    lemma_tiles(t, parent);
    let u = wrapped(t, split, parent, ids);
    assert forall|i: int| 0 <= i < t.len() && t[i].data.kind.is_window() implies ((
    #[trigger] u[i]).parent is Some <==> t[i].parent is Some) by {
        if ids.contains(i as usize) {
            let k = choose|k: int| 0 <= k < ids.len() && ids[k] == i as usize;
            assert(tiles(t, parent).contains(ids[k]));
        }
    }
}

/// Losing no window twice in a row loses none.
pub proof fn lemma_keeps_windows_twice(t: Tree, u: Tree, v: Tree)
    requires
        keeps_windows(t, u),
        keeps_windows(u, v),
    ensures
        keeps_windows(t, v),
{
    assert forall|i: int| 0 <= i < t.len() implies (#[trigger] v[i]).data.kind
        == t[i].data.kind by {
        assert(u[i].data.kind == t[i].data.kind);
    }
    assert forall|i: int| 0 <= i < t.len() && t[i].data.kind.is_window() implies ((
    #[trigger] v[i]).parent is Some <==> t[i].parent is Some) by {
        assert(u[i].data.kind == t[i].data.kind);
    }
}

} // verus!
