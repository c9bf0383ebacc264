//! Rearranging tiles changes their shares and their places in the tree, and nothing else.

use vstd::prelude::*;

use crate::geometry::int_min;
use crate::lists::{filtered, first_place, position, shifted, spliced, without};
use crate::shares::{clamped_target, saturated, share_ok, spread, total};
use crate::tree::{
    as_split_shares, attached, detached, flattened, focused, is_tile, joining_share, kind, linked,
    moved, only_child_freed, resized, scaled, share_of, shares_of, tile_siblings, tiles, unlinked,
    valid, wf, with_children, with_focus, with_parent, with_parents, with_share, with_shares,
    wrapped, NodeData, Tree,
};
use crate::tree_laws::{
    are_tiles_of, attaching_keeps_tree, cut_out, cutting_out_keeps_tree, detaching_keeps_tree,
    focusing_keeps_tree, lemma_children, lemma_parent_facts, lemma_same_links_wf,
    lemma_tile_siblings, lemma_tiles, linking_keeps_tree,
};

verus! {

/// Whether all containers of a tree are in another one with the same data, but for their shares.
/// Their windows are as they were: frames, smallest sizes and drags.
pub open spec fn same_but_shares(t: Tree, u: Tree) -> bool {
    &&& t.len() <= u.len()
    &&& forall|i: int|
        0 <= i < t.len() ==> (NodeData {
            tiling_size: t[i].data.tiling_size,
            ..(#[trigger] u[i]).data
        }) == t[i].data
}

pub proof fn lemma_same_twice(t: Tree, u: Tree, v: Tree)
    requires
        same_but_shares(t, u),
        same_but_shares(u, v),
    ensures
        same_but_shares(t, v),
{
    assert forall|i: int| 0 <= i < t.len() implies (NodeData {
        tiling_size: t[i].data.tiling_size,
        ..(#[trigger] v[i]).data
    }) == t[i].data by {
        assert((NodeData { tiling_size: u[i].data.tiling_size, ..v[i].data }) == u[i].data);
        assert((NodeData { tiling_size: t[i].data.tiling_size, ..u[i].data }) == t[i].data);
    }
}

pub proof fn lemma_shares_only(t: Tree, ids: Seq<usize>, shares: Seq<i64>)
    requires
        forall|k: int| 0 <= k < ids.len() ==> valid(t, #[trigger] ids[k]),
    ensures
        with_shares(t, ids, shares).len() == t.len(),
        same_but_shares(t, with_shares(t, ids, shares)),
    decreases ids.len(),
{
    if ids.len() > 0 {
        let u = with_shares(t, ids.drop_last(), shares.drop_last());
        assert forall|k: int| 0 <= k < ids.drop_last().len() implies valid(
            t,
            #[trigger] ids.drop_last()[k],
        ) by {
            assert(valid(t, ids[k]));
        }
        assert(valid(t, ids[ids.len() - 1]));
        lemma_shares_only(t, ids.drop_last(), shares.drop_last());
        lemma_same_twice(t, u, with_share(u, ids.last(), shares.last()));
    }
}

proof fn lemma_parents_only(t: Tree, ids: Seq<usize>, parent: Option<usize>)
    requires
        forall|k: int| 0 <= k < ids.len() ==> valid(t, #[trigger] ids[k]),
    ensures
        with_parents(t, ids, parent).len() == t.len(),
        same_but_shares(t, with_parents(t, ids, parent)),
    decreases ids.len(),
{
    if ids.len() > 0 {
        let u = with_parents(t, ids.drop_last(), parent);
        assert forall|k: int| 0 <= k < ids.drop_last().len() implies valid(
            t,
            #[trigger] ids.drop_last()[k],
        ) by {
            assert(valid(t, ids[k]));
        }
        assert(valid(t, ids[ids.len() - 1]));
        lemma_parents_only(t, ids.drop_last(), parent);
        lemma_same_twice(t, u, with_parent(u, ids.last(), parent));
    }
}

proof fn lemma_resized_only(t: Tree, id: usize, target: int)
    requires
        wf(t),
        valid(t, id),
    ensures
        resized(t, id, target).len() == t.len(),
        same_but_shares(t, resized(t, id, target)),
{
    let siblings = tile_siblings(t, id);
    lemma_tile_siblings(t, id);
    if siblings.len() > 0 {
        let share = clamped_target(target, siblings.len());
        let u = with_share(t, id, share as i64);
        let after = spread(
            shares_of(t, siblings),
            share - share_of(t, id),
        );
        assert forall|k: int| 0 <= k < siblings.len() implies valid(u, #[trigger] siblings[k]) by {
            assert(valid(t, siblings[k]));
        }
        lemma_shares_only(u, siblings, after);
        lemma_same_twice(t, u, with_shares(u, siblings, after));
    }
}

#[verifier::spinoff_prover]
pub proof fn lemma_flattened_only(t: Tree, split: usize)
    requires
        wf(t),
        valid(t, split),
    ensures
        flattened(t, split).len() == t.len(),
        same_but_shares(t, flattened(t, split)),
{
    reveal(flattened);
    if let Some(p) = t[split as int].parent {
        let node = t[split as int];
        lemma_parent_facts(t, split);
        lemma_children(t, split);
        lemma_tiles(t, split);
        let kids = tiles(t, split);
        let after = scaled(shares_of(t, kids), node.data.tiling_size as int);
        let t1 = with_shares(t, kids, after);
        lemma_shares_only(t, kids, after);
        assert forall|k: int| 0 <= k < node.children.len() implies valid(
            t1,
            #[trigger] node.children[k],
        ) by {
            assert(valid(t, t[split as int].children[k]));
        }
        let t2 = with_parents(t1, node.children, Some(p));
        lemma_parents_only(t1, node.children, Some(p));
        lemma_same_twice(t, t1, t2);
        let t3 = with_children(
            t2,
            p,
            spliced(t[p as int].children, position(t[p as int].children, split), node.children),
        );
        let t4 = with_focus(
            t3,
            p,
            spliced(t[p as int].focus, position(t[p as int].focus, split), node.focus),
        );
        let t5 = with_children(t4, split, Seq::empty());
        let t6 = with_focus(t5, split, Seq::empty());
        lemma_same_twice(t, t2, with_parent(t6, split, None));
    }
}

#[verifier::spinoff_prover]
proof fn lemma_detached_only(t: Tree, id: usize)
    requires
        wf(t),
        valid(t, id),
    ensures
        detached(t, id).len() == t.len(),
        same_but_shares(t, detached(t, id)),
{
    let f = only_child_freed(t, id);
    detaching_keeps_tree(t, id);
    if let Some(p) = t[id as int].parent {
        lemma_parent_facts(t, id);
        lemma_flattened_only(t, p);
    }
    assert(same_but_shares(t, f));
    cutting_out_keeps_tree(f, id);
    let u = unlinked(f, id);
    if let Some(p) = f[id as int].parent {
        lemma_parent_facts(f, id);
        let t1 = with_children(f, p, without(f[p as int].children, id));
        let t2 = with_focus(t1, p, without(f[p as int].focus, id));
        let t3 = with_parent(t2, id, None);
        if is_tile(f, id) {
            let siblings = tiles(t3, p);
            assert(t3 == cut_out(f, id));
            lemma_tiles(t3, p);
            let after = spread(
                shares_of(t3, siblings),
                -share_of(f, id),
            );
            lemma_shares_only(t3, siblings, after);
            lemma_same_twice(f, t3, with_shares(t3, siblings, after));
        }
    }
    lemma_same_twice(t, f, u);
}

#[verifier::spinoff_prover]
proof fn lemma_attached_only(t: Tree, id: usize, parent: usize, index: int)
    requires
        wf(t),
        valid(t, id),
        valid(t, parent),
        id != parent,
        t[id as int].parent is None,
        t[id as int].children.len() == 0,
        kind(t, parent).holds(kind(t, id)),
        0 <= index <= t[parent as int].children.len(),
    ensures
        attached(t, id, parent, index).len() == t.len(),
        same_but_shares(t, attached(t, id, parent, index)),
{
    let l = linked(t, id, parent, index);
    linking_keeps_tree(t, id, parent, index);
    if is_tile(t, id) {
        let v = with_share(l, id, 0);
        assert forall|i: int| 0 <= i < v.len() implies share_ok(
            #[trigger] v[i].data.tiling_size as int,
        ) by {
            assert(share_ok(l[i].data.tiling_size as int));
        }
        lemma_same_links_wf(l, v);
        let target = joining_share(tile_siblings(l, id).len());
        lemma_resized_only(v, id, target);
        lemma_same_twice(t, l, v);
        lemma_same_twice(t, v, resized(v, id, target));
    }
}

/// Moving a container changes nothing of any container but links and shares.
#[verifier::spinoff_prover]
pub proof fn moving_changes_shares_only(t: Tree, id: usize, parent: usize, index: int)
    requires
        wf(t),
        valid(t, id),
        valid(t, parent),
        id != parent,
        t[id as int].parent is Some,
        t[id as int].children.len() == 0,
        kind(t, parent).holds(kind(t, id)),
        index >= 0,
    ensures
        moved(t, id, parent, index).len() == t.len(),
        same_but_shares(t, moved(t, id, parent, index)),
{
    reveal(moved);
    if t[id as int].parent == Some(parent) {
        assert(same_but_shares(
            t,
            with_children(t, parent, shifted(t[parent as int].children, id, index)),
        ));
    } else {
        let d = detached(t, id);
        let i = int_min(index, d[parent as int].children.len() as int);
        let a = attached(d, id, parent, i);
        lemma_detached_only(t, id);
        detaching_keeps_tree(t, id);
        lemma_attached_only(d, id, parent, i);
        attaching_keeps_tree(d, id, parent, i);
        lemma_same_twice(t, d, a);
        focusing_keeps_tree(a, id, t.len());
        lemma_same_twice(t, a, focused(a, id, t.len()));
    }
}

/// Wrapping tiles in a split changes nothing of any container but links and shares.
#[verifier::spinoff_prover]
pub proof fn wrapping_changes_shares_only(t: Tree, split: usize, parent: usize, ids: Seq<usize>)
    requires
        wf(t),
        valid(t, split),
        valid(t, parent),
        are_tiles_of(t, ids, parent),
    ensures
        wrapped(t, split, parent, ids).len() == t.len(),
        same_but_shares(t, wrapped(t, split, parent, ids)),
{
    reveal(wrapped);
    let node = t[parent as int];
    let shares = shares_of(t, ids);
    lemma_tiles(t, parent);
    assert forall|k: int| 0 <= k < ids.len() implies valid(t, #[trigger] ids[k]) by {
        assert(tiles(t, parent).contains(ids[k]));
    }
    let after = as_split_shares(shares);
    let t1 = with_shares(t, ids, after);
    lemma_shares_only(t, ids, after);
    assert forall|k: int| 0 <= k < ids.len() implies valid(t1, #[trigger] ids[k]) by {
        assert(valid(t, ids[k]));
    }
    let t2 = with_parents(t1, ids, Some(split));
    lemma_parents_only(t1, ids, Some(split));
    lemma_same_twice(t, t1, t2);
    let t3 = with_children(
        t2,
        parent,
        filtered(node.children.insert(first_place(node.children, ids), split), ids, false),
    );
    let t4 = with_focus(
        t3,
        parent,
        filtered(node.focus.insert(first_place(node.focus, ids), split), ids, false),
    );
    let t5 = with_children(t4, split, ids);
    let t6 = with_focus(t5, split, filtered(node.focus, ids, true));
    let t7 = with_share(t6, split, saturated(total(shares)));
    lemma_same_twice(t, t2, with_parent(t7, split, Some(parent)));
}

} // verus!
