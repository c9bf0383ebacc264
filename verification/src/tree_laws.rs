//! What every operation on the container tree keeps.

use vstd::prelude::*;

use crate::lists::{
    filtered, first_place, lemma_distinct_bounded, lemma_filtered, lemma_first_place, lemma_insert,
    lemma_position, lemma_push_contains, lemma_push_unique, lemma_shifted, lemma_shifted_back,
    lemma_spliced, lemma_without, position, shifted, spliced, without,
};
use crate::shares::{all_ok, share_ok};
use crate::tree::{
    attached, detached, flattened, focused, is_only_child_of_split, is_tile, kind, linked, listed,
    moved, only_child_freed, ranked, resized, share_of, shares_of, tile_siblings, tiles, tiles_in,
    unlinked, valid, wf, with_children, with_focus, with_parent, with_parents, with_share,
    with_shares, wrapped, ContainerKind, NodeView, Tree,
};

verus! {

/// Whether two trees link the same containers in the same way.
pub open spec fn same_links(t: Tree, u: Tree) -> bool {
    &&& t.len() == u.len()
    &&& forall|i: int|
        0 <= i < t.len() ==> (#[trigger] u[i]).parent == t[i].parent && u[i].children
            == t[i].children && u[i].focus == t[i].focus && u[i].data.kind == t[i].data.kind
}

/// A tree with the same links and sound shares is as well-formed as before.
pub proof fn lemma_same_links_wf(t: Tree, u: Tree)
    requires
        wf(t),
        same_links(t, u),
        forall|i: int| 0 <= i < u.len() ==> share_ok(#[trigger] u[i].data.tiling_size as int),
    ensures
        wf(u),
{
    let rank = choose|rank: Seq<int>| ranked(t, rank);
    assert forall|c: int| 0 <= c < u.len() implies (#[trigger] u[c].parent matches Some(p)
        ==> valid(u, p) && rank[c] < rank[p as int]) by {
        assert(t[c].parent == u[c].parent);
    }
    assert(ranked(u, rank));
    assert forall|c: int| 0 <= c < u.len() implies #[trigger] listed(u, c) by {
        assert(listed(t, c));
        assert(t[c].parent == u[c].parent);
        if t[c].parent is Some {
            let p = t[c].parent->0;
            assert(u[p as int].children == t[p as int].children);
        }
    }
    assert forall|p: int, k: int| 0 <= p < u.len() && 0 <= k < u[p].children.len() implies valid(
        u,
        #[trigger] u[p].children[k],
    ) && u[u[p].children[k] as int].parent == Some(p as usize) by {
        assert(t[p].children[k] == u[p].children[k]);
        assert(valid(t, t[p].children[k]));
        assert(u[t[p].children[k] as int].parent == t[t[p].children[k] as int].parent);
    }
    assert forall|p: int, y: usize| 0 <= p < u.len() implies (#[trigger] u[p].focus.contains(y)
        <==> u[p].children.contains(y)) by {
        assert(t[p].focus.contains(y) <==> t[p].children.contains(y));
    }
}

/// Giving containers new shares touches nothing else.
pub proof fn lemma_with_shares(t: Tree, ids: Seq<usize>, shares: Seq<i64>)
    requires
        ids.len() == shares.len(),
        forall|k: int| 0 <= k < ids.len() ==> valid(t, #[trigger] ids[k]),
    ensures
        same_links(t, with_shares(t, ids, shares)),
        forall|i: int|
            0 <= i < t.len() ==> (#[trigger] with_shares(t, ids, shares)[i]).unstack
                == t[i].unstack,
        forall|i: int|
            0 <= i < t.len() && !ids.contains(i as usize) ==> #[trigger] with_shares(
                t,
                ids,
                shares,
            )[i] == t[i],
        ids.no_duplicates() ==> forall|k: int|
            0 <= k < ids.len() ==> share_of(with_shares(t, ids, shares), #[trigger] ids[k])
                == shares[k],
        all_ok(shares) && (forall|i: int|
            0 <= i < t.len() ==> share_ok(#[trigger] t[i].data.tiling_size as int)) ==> forall|
            i: int,
        |
            0 <= i < t.len() ==> share_ok(
                #[trigger] with_shares(t, ids, shares)[i].data.tiling_size as int,
            ),
    decreases ids.len(),
{
    if ids.len() > 0 {
        let front = ids.drop_last();
        let some = shares.drop_last();
        assert forall|k: int| 0 <= k < front.len() implies valid(t, #[trigger] front[k]) by {
            assert(front[k] == ids[k]);
        }
        lemma_with_shares(t, front, some);
        assert(valid(t, ids[ids.len() - 1]));
        let u = with_shares(t, front, some);
        let v = with_shares(t, ids, shares);
        assert(v == with_share(u, ids.last(), shares.last()));
        assert(ids =~= front.push(ids.last()));
        assert forall|i: int| 0 <= i < t.len() && !ids.contains(i as usize) implies #[trigger] v[i]
            == t[i] by {
            lemma_push_contains(front, ids.last(), i as usize);
            assert(u[i] == t[i]);
        }
        if ids.no_duplicates() {
            assert forall|k: int| 0 <= k < ids.len() implies share_of(v, #[trigger] ids[k])
                == shares[k] by {
                if k < front.len() {
                    assert(front[k] == ids[k]);
                    assert(ids[k] != ids[ids.len() - 1]);
                    assert(share_of(u, front[k]) == some[k]);
                }
            }
        }
        if all_ok(shares) {
            assert forall|k: int| 0 <= k < some.len() implies share_ok(#[trigger] some[k] as int) by {
                assert(some[k] == shares[k]);
            }
            assert(share_ok(shares[shares.len() - 1] as int));
        }
    }
}

/// Moving containers under another parent touches nothing else.
pub proof fn lemma_with_parents(t: Tree, ids: Seq<usize>, parent: Option<usize>)
    requires
        t.len() <= usize::MAX,
        forall|k: int| 0 <= k < ids.len() ==> valid(t, #[trigger] ids[k]),
    ensures
        with_parents(t, ids, parent).len() == t.len(),
        forall|i: int|
            0 <= i < t.len() ==> #[trigger] with_parents(t, ids, parent)[i] == (NodeView {
                parent: if ids.contains(i as usize) {
                    parent
                } else {
                    t[i].parent
                },
                ..t[i]
            }),
    decreases ids.len(),
{
    if ids.len() > 0 {
        let front = ids.drop_last();
        assert forall|k: int| 0 <= k < front.len() implies valid(t, #[trigger] front[k]) by {
            assert(front[k] == ids[k]);
        }
        lemma_with_parents(t, front, parent);
        assert(valid(t, ids[ids.len() - 1]));
        assert(ids =~= front.push(ids.last()));
        assert forall|i: int| 0 <= i < t.len() implies #[trigger] with_parents(t, ids, parent)[i]
            == (NodeView {
            parent: if ids.contains(i as usize) {
                parent
            } else {
                t[i].parent
            },
            ..t[i]
        }) by {
            lemma_push_contains(front, ids.last(), i as usize);
            assert(with_parents(t, front, parent)[i] == (NodeView {
                parent: if front.contains(i as usize) {
                    parent
                } else {
                    t[i].parent
                },
                ..t[i]
            }));
        }
    }
}

/// The tiles among some containers are those of them that are tiles.
pub proof fn lemma_tiles_in(t: Tree, ids: Seq<usize>)
    ensures
        forall|y: usize| #[trigger]
            tiles_in(t, ids).contains(y) <==> (ids.contains(y) && is_tile(t, y)),
        ids.no_duplicates() ==> tiles_in(t, ids).no_duplicates(),
        tiles_in(t, ids).len() <= ids.len(),
    decreases ids.len(),
{
    if ids.len() > 0 {
        let front = ids.drop_last();
        lemma_tiles_in(t, front);
        assert(ids =~= front.push(ids.last()));
        assert forall|y: usize| #[trigger] tiles_in(t, ids).contains(y) <==> (ids.contains(y)
            && is_tile(t, y)) by {
            lemma_push_contains(front, ids.last(), y);
            lemma_push_contains(tiles_in(t, front), ids.last(), y);
        }
        if ids.no_duplicates() {
            crate::lists::lemma_last_not_in_front(ids);
            if is_tile(t, ids.last()) {
                lemma_push_unique(tiles_in(t, front), ids.last());
            }
        }
    }
}

/// Which containers are tiles depends on their kinds alone.
pub proof fn lemma_tiles_same_kinds(t: Tree, u: Tree, ids: Seq<usize>)
    requires
        forall|k: int| 0 <= k < ids.len() ==> kind(t, #[trigger] ids[k]) == kind(u, ids[k]),
    ensures
        tiles_in(t, ids) == tiles_in(u, ids),
    decreases ids.len(),
{
    if ids.len() > 0 {
        let front = ids.drop_last();
        assert forall|k: int| 0 <= k < front.len() implies kind(t, #[trigger] front[k]) == kind(
            u,
            front[k],
        ) by {
            assert(front[k] == ids[k]);
        }
        lemma_tiles_same_kinds(t, u, front);
        assert(kind(t, ids[ids.len() - 1]) == kind(u, ids[ids.len() - 1]));
    }
}

/// Children are containers of the tree, and no more than there are containers.
pub proof fn lemma_children(t: Tree, p: usize)
    requires
        wf(t),
        valid(t, p),
    ensures
        forall|k: int|
            0 <= k < t[p as int].children.len() ==> valid(t, #[trigger] t[p as int].children[k]),
        t[p as int].children.len() <= t.len(),
        forall|k: int| 0 <= k < t[p as int].focus.len() ==> valid(t, #[trigger] t[p as int].focus[k]),
        t[p as int].focus.len() <= t.len(),
{
    let s = t[p as int].children;
    assert forall|k: int| 0 <= k < s.len() implies valid(t, #[trigger] s[k]) by {
        assert(valid(t, t[p as int].children[k]));
    }
    assert forall|k: int| 0 <= k < s.len() implies (#[trigger] s[k]) < t.len() by {
        assert(valid(t, s[k]));
    }
    lemma_distinct_bounded(s, t.len() as int);
    let f = t[p as int].focus;
    assert forall|k: int| 0 <= k < f.len() implies valid(t, #[trigger] f[k]) by {
        assert(f.contains(f[k]));
        assert(t[p as int].focus.contains(f[k]));
        let j = choose|j: int| 0 <= j < s.len() && s[j] == f[k];
        assert(valid(t, s[j]));
    }
    assert forall|k: int| 0 <= k < f.len() implies (#[trigger] f[k]) < t.len() by {
        assert(valid(t, f[k]));
    }
    lemma_distinct_bounded(f, t.len() as int);
}

/// The tiles of a container are containers of the tree.
pub proof fn lemma_tiles(t: Tree, p: usize)
    requires
        wf(t),
        valid(t, p),
    ensures
        forall|k: int|
            0 <= k < tiles(t, p).len() ==> valid(t, #[trigger] tiles(t, p)[k]) && is_tile(
                t,
                tiles(t, p)[k],
            ) && t[tiles(t, p)[k] as int].parent == Some(p),
        tiles(t, p).no_duplicates(),
        tiles(t, p).len() <= t.len(),
        forall|y: usize| #[trigger]
            tiles(t, p).contains(y) ==> valid(t, y) && is_tile(t, y) && t[y as int].parent
                == Some(p),
{
    lemma_children(t, p);
    let s = t[p as int].children;
    lemma_tiles_in(t, s);
    assert forall|y: usize| #[trigger] tiles(t, p).contains(y) implies valid(t, y) && is_tile(t, y)
        && t[y as int].parent == Some(p) by {
        assert(s.contains(y));
        let j = choose|j: int| 0 <= j < s.len() && s[j] == y;
        assert(valid(t, t[p as int].children[j]));
    }
    assert forall|k: int| 0 <= k < tiles(t, p).len() implies valid(
        t,
        #[trigger] tiles(t, p)[k],
    ) && is_tile(t, tiles(t, p)[k]) && t[tiles(t, p)[k] as int].parent == Some(p) by {
        assert(tiles(t, p).contains(tiles(t, p)[k]));
    }
}

/// The siblings of a tile are tiles of the same parent.
pub proof fn lemma_tile_siblings(t: Tree, id: usize)
    requires
        wf(t),
        valid(t, id),
    ensures
        forall|k: int|
            0 <= k < tile_siblings(t, id).len() ==> {
                &&& valid(t, #[trigger] tile_siblings(t, id)[k])
                &&& tile_siblings(t, id)[k] != id
                &&& t[tile_siblings(t, id)[k] as int].parent == t[id as int].parent
                &&& is_tile(t, tile_siblings(t, id)[k])
            },
        tile_siblings(t, id).no_duplicates(),
        tile_siblings(t, id).len() <= t.len(),
        !tile_siblings(t, id).contains(id),
{
    if t[id as int].parent is Some {
        let p = t[id as int].parent->0;
        assert(listed(t, id as int));
        lemma_tiles(t, p);
        lemma_without(tiles(t, p), id);
        assert forall|k: int| 0 <= k < tile_siblings(t, id).len() implies valid(
            t,
            #[trigger] tile_siblings(t, id)[k],
        ) && tile_siblings(t, id)[k] != id && t[tile_siblings(t, id)[k] as int].parent
            == t[id as int].parent && is_tile(t, tile_siblings(t, id)[k]) by {
            let y = tile_siblings(t, id)[k];
            assert(without(tiles(t, p), id).contains(y));
            assert(tiles(t, p).contains(y));
        }
    }
}

proof fn lemma_all_ok_spread(shares: Seq<i64>, amount: int)
    ensures
        all_ok(crate::shares::spread(shares, amount)),
        crate::shares::spread(shares, amount).len() == shares.len(),
{
}

/// Resizing a tile leaves every link as it was.
pub proof fn resizing_keeps_links(t: Tree, id: usize, target: int)
    requires
        wf(t),
        valid(t, id),
    ensures
        wf(resized(t, id, target)),
        same_links(t, resized(t, id, target)),
        forall|i: int|
            0 <= i < t.len() && i != id && !tile_siblings(t, id).contains(i as usize)
                ==> #[trigger] resized(t, id, target)[i] == t[i],
{
    lemma_tile_siblings(t, id);
    let siblings = tile_siblings(t, id);
    if siblings.len() > 0 {
        let share = crate::shares::clamped_target(target, siblings.len());
        assert(crate::shares::MIN_TILING_SIZE <= share <= crate::shares::WHOLE) by {
            assert(siblings.len() * crate::shares::MIN_TILING_SIZE >= 0) by (nonlinear_arith);
        }
        let t1 = with_share(t, id, share as i64);
        let s = crate::shares::spread(shares_of(t, siblings), share - share_of(t, id));
        lemma_all_ok_spread(shares_of(t, siblings), share - share_of(t, id));
        assert forall|k: int| 0 <= k < siblings.len() implies valid(t1, #[trigger] siblings[k]) by {
            assert(valid(t, siblings[k]));
        }
        lemma_with_shares(t1, siblings, s);
    }
    lemma_same_links_wf(t, resized(t, id, target));
}

/// What flattening a split does to each container.
pub proof fn lemma_flattened(t: Tree, split: usize)
    requires
        wf(t),
        valid(t, split),
        t[split as int].parent is Some,
    ensures
        flattened(t, split).len() == t.len(),
        ({
            let p = t[split as int].parent->0;
            let node = t[split as int];
            let u = flattened(t, split);
            &&& p != split
            &&& !node.children.contains(p)
            &&& !node.children.contains(split)
            &&& u[p as int] == (NodeView {
                children: spliced(
                    t[p as int].children,
                    position(t[p as int].children, split),
                    node.children,
                ),
                focus: spliced(t[p as int].focus, position(t[p as int].focus, split), node.focus),
                ..t[p as int]
            })
            &&& u[split as int] == (NodeView {
                children: Seq::empty(),
                focus: Seq::empty(),
                parent: None,
                ..t[split as int]
            })
            &&& forall|i: int|
                0 <= i < t.len() && i != p && i != split ==> (#[trigger] u[i]).children
                    == t[i].children && u[i].focus == t[i].focus && u[i].data.kind
                    == t[i].data.kind && u[i].unstack == t[i].unstack && u[i].parent == (
                if node.children.contains(i as usize) {
                    Some(p)
                } else {
                    t[i].parent
                }) && share_ok(u[i].data.tiling_size as int)
            &&& forall|i: int|
                0 <= i < t.len() && i != p && i != split && !node.children.contains(i as usize)
                    ==> #[trigger] u[i] == t[i]
        }),
{
    reveal(flattened);
    let p = t[split as int].parent->0;
    let node = t[split as int];
    let rank = choose|rank: Seq<int>| ranked(t, rank);
    assert(listed(t, split as int));
    assert(valid(t, p) && rank[split as int] < rank[p as int]);
    lemma_children(t, split);
    assert forall|y: usize| #[trigger] node.children.contains(y) implies valid(t, y)
        && t[y as int].parent == Some(split) && rank[y as int] < rank[split as int] by {
        let k = choose|k: int| 0 <= k < node.children.len() && node.children[k] == y;
        assert(valid(t, t[split as int].children[k]));
        assert(t[y as int].parent == Some(split));
    }
    if node.children.contains(p) {
        assert(rank[p as int] < rank[split as int]);
    }
    if node.children.contains(split) {
        assert(rank[split as int] < rank[split as int]);
    }
    lemma_tiles(t, split);
    let kids = tiles_in(t, node.children);
    let s = scaled_shares(t, split);
    lemma_with_shares(t, kids, s);
    let t1 = with_shares(t, kids, s);
    assert forall|k: int| 0 <= k < node.children.len() implies valid(t1, #[trigger] node.children[k]) by {
        assert(valid(t, t[split as int].children[k]));
    }
    lemma_with_parents(t1, node.children, Some(p));
    lemma_tiles_in(t, node.children);
    assert(!kids.contains(p));
    assert(!kids.contains(split));
    assert(t1[p as int] == t[p as int]);
    assert(t1[split as int] == t[split as int]);
}

spec fn scaled_shares(t: Tree, split: usize) -> Seq<i64> {
    crate::tree::scaled(
        shares_of(t, tiles_in(t, t[split as int].children)),
        t[split as int].data.tiling_size as int,
    )
}

/// Flattening a split keeps the tree well-formed.
#[verifier::spinoff_prover]
pub proof fn flattening_keeps_tree(t: Tree, split: usize)
    requires
        wf(t),
        valid(t, split),
        kind(t, split) == ContainerKind::Split,
        t[split as int].parent is Some,
    ensures
        wf(flattened(t, split)),
{
    reveal(flattened);
    lemma_flattened(t, split);
    let p = t[split as int].parent->0;
    let node = t[split as int];
    let u = flattened(t, split);
    let rank = choose|rank: Seq<int>| ranked(t, rank);
    assert(listed(t, split as int));
    lemma_children(t, split);
    lemma_children(t, p);
    let pc = t[p as int].children;
    let pf = t[p as int].focus;
    assert(pc.contains(split));
    assert(pf.contains(split));
    lemma_position(pc, split);
    lemma_position(pf, split);
    assert forall|y: usize| #[trigger] node.children.contains(y) implies !pc.contains(y)
        && t[y as int].parent == Some(split) && valid(t, y) by {
        let k = choose|k: int| 0 <= k < node.children.len() && node.children[k] == y;
        assert(valid(t, t[split as int].children[k]));
        if pc.contains(y) {
            let j = choose|j: int| 0 <= j < pc.len() && pc[j] == y;
            assert(valid(t, t[p as int].children[j]));
            assert(t[y as int].parent == Some(p));
        }
    }
    assert forall|y: usize| #[trigger] node.focus.contains(y) implies !pf.contains(y) by {
        assert(t[split as int].focus.contains(y));
        assert(node.children.contains(y));
        if pf.contains(y) {
            assert(t[p as int].focus.contains(y));
        }
    }
    assert(t[split as int].children.no_duplicates());
    assert(t[p as int].children.no_duplicates());
    lemma_spliced(pc, position(pc, split), node.children);
    lemma_spliced(pf, position(pf, split), node.focus);
    let uc = spliced(pc, position(pc, split), node.children);
    let uf = spliced(pf, position(pf, split), node.focus);
    // Ranks still fall from parent to child.
    assert forall|c: int| 0 <= c < u.len() implies (#[trigger] u[c].parent matches Some(q)
        ==> valid(u, q) && rank[c] < rank[q as int]) by {
        assert(t[c].parent is Some ==> valid(t, t[c].parent->0) && rank[c]
            < rank[t[c].parent->0 as int]);
        assert(t[split as int].parent == Some(p));
        if c != p && c != split && node.children.contains(c as usize) {
            assert(t[c].parent == Some(split));
        }
    }
    assert(ranked(u, rank));
    assert forall|c: int| 0 <= c < u.len() implies #[trigger] listed(u, c) by {
        assert(listed(t, c));
        if u[c].parent is Some {
            let q = u[c].parent->0;
            if c == p {
                assert(q != p) by {
                    assert(rank[p as int] < rank[q as int]);
                }
                assert(q != split) by {
                    assert(rank[split as int] < rank[p as int]);
                    assert(rank[p as int] < rank[q as int]);
                }
                assert(u[q as int].children == t[q as int].children || q == p);
            } else if c != split {
                if node.children.contains(c as usize) {
                    assert(q == p);
                    assert(uc.contains(c as usize));
                    assert(kind(t, split).holds(t[c].data.kind)) by {
                        assert(t[c].parent == Some(split));
                    }
                    assert(kind(t, p).holds(kind(t, split)));
                } else {
                    assert(t[c].parent == Some(q));
                    if q == p {
                        assert(uc.contains(c as usize));
                    } else if q == split {
                        assert(node.children.contains(c as usize));
                    } else {
                        assert(u[q as int].children == t[q as int].children);
                    }
                }
            }
        }
    }
    assert forall|q: int, k: int| 0 <= q < u.len() && 0 <= k < u[q].children.len() implies valid(
        u,
        #[trigger] u[q].children[k],
    ) && u[u[q].children[k] as int].parent == Some(q as usize) by {
        let y = u[q].children[k];
        if q == p {
            assert(uc.contains(y));
            if node.children.contains(y) {
                assert(valid(t, y));
                assert(u[y as int].parent == Some(p));
            } else {
                assert(pc.contains(y) && y != split);
                let j = choose|j: int| 0 <= j < pc.len() && pc[j] == y;
                assert(valid(t, t[p as int].children[j]));
                assert(t[y as int].parent == Some(p));
                assert(y != p) by {
                    assert(rank[y as int] < rank[p as int]);
                }
            }
        } else if q != split {
            assert(t[q].children[k] == y);
            assert(valid(t, t[q].children[k]));
            assert(t[y as int].parent == Some(q as usize));
            if node.children.contains(y) {
                assert(t[y as int].parent == Some(split));
            }
            assert(y != split) by {
                if y == split {
                    assert(t[split as int].parent == Some(q as usize));
                }
            }
        }
    }
    assert forall|q: int| 0 <= q < u.len() implies (#[trigger] u[q].children).no_duplicates() by {
        assert(t[q].children.no_duplicates());
    }
    assert forall|q: int| 0 <= q < u.len() implies (#[trigger] u[q].focus).no_duplicates() by {
        assert(t[q].focus.no_duplicates());
    }
    assert forall|q: int| 0 <= q < u.len() implies share_ok(
        #[trigger] u[q].data.tiling_size as int,
    ) by {
        assert(share_ok(t[q].data.tiling_size as int));
    }
    assert forall|q: int, y: usize| 0 <= q < u.len() implies (#[trigger] u[q].focus.contains(y)
        <==> u[q].children.contains(y)) by {
        assert(t[q].focus.contains(y) <==> t[q].children.contains(y));
        if q == p {
            assert(uf.contains(y) <==> ((pf.contains(y) && y != split) || node.focus.contains(y)));
            assert(uc.contains(y) <==> ((pc.contains(y) && y != split) || node.children.contains(
                y,
            )));
            assert(t[split as int].focus.contains(y) <==> t[split as int].children.contains(y));
        }
    }
}

/// Whether two trees have the same containers of the same kinds.
pub open spec fn same_kinds(t: Tree, u: Tree) -> bool {
    &&& t.len() == u.len()
    &&& forall|i: int| 0 <= i < t.len() ==> #[trigger] u[i].data.kind == t[i].data.kind
}

proof fn lemma_child_facts(t: Tree, p: usize, y: usize)
    requires
        wf(t),
        valid(t, p),
        t[p as int].children.contains(y),
    ensures
        valid(t, y),
        t[y as int].parent == Some(p),
        y != p,
{
    let s = t[p as int].children;
    let k = choose|k: int| 0 <= k < s.len() && s[k] == y;
    assert(valid(t, t[p as int].children[k]));
    let rank = choose|rank: Seq<int>| ranked(t, rank);
    assert(t[y as int].parent == Some(p));
    assert(rank[y as int] < rank[p as int]);
}

/// A container's parent is another container.
pub proof fn lemma_parent_facts(t: Tree, c: usize)
    requires
        wf(t),
        valid(t, c),
        t[c as int].parent is Some,
    ensures
        valid(t, t[c as int].parent->0),
        t[c as int].parent->0 != c,
        t[t[c as int].parent->0 as int].children.contains(c),
        t[t[c as int].parent->0 as int].focus.contains(c),
        kind(t, t[c as int].parent->0).holds(kind(t, c)),
{
    assert(listed(t, c as int));
    let p = t[c as int].parent->0;
    lemma_child_facts(t, p, c);
    assert(t[p as int].focus.contains(c) <==> t[p as int].children.contains(c));
}

/// Taking a container out, before its siblings share what it had.
pub open spec fn cut_out(t: Tree, id: usize) -> Tree {
    match t[id as int].parent {
        Some(p) => with_parent(
            with_focus(
                with_children(t, p, without(t[p as int].children, id)),
                p,
                without(t[p as int].focus, id),
            ),
            id,
            None,
        ),
        None => t,
    }
}

/// Taking a container out of its parent's lists keeps the tree well-formed.
#[verifier::spinoff_prover]
pub proof fn cutting_out_keeps_tree(t: Tree, id: usize)
    requires
        wf(t),
        valid(t, id),
    ensures
        wf(cut_out(t, id)),
        same_kinds(t, cut_out(t, id)),
        cut_out(t, id)[id as int].parent is None,
        cut_out(t, id)[id as int].children == t[id as int].children,
{
    if t[id as int].parent is Some {
        let p = t[id as int].parent->0;
        let u = cut_out(t, id);
        lemma_parent_facts(t, id);
        let pc = t[p as int].children;
        let pf = t[p as int].focus;
        lemma_without(pc, id);
        lemma_without(pf, id);
        let rank = choose|rank: Seq<int>| ranked(t, rank);
        assert forall|c: int| 0 <= c < u.len() implies (#[trigger] u[c].parent matches Some(q)
            ==> valid(u, q) && rank[c] < rank[q as int]) by {
            assert(t[c].parent matches Some(q) ==> valid(t, q) && rank[c] < rank[q as int]);
        }
        assert(ranked(u, rank));
        assert forall|c: int| 0 <= c < u.len() implies #[trigger] listed(u, c) by {
            assert(listed(t, c));
            if u[c].parent is Some {
                let q = u[c].parent->0;
                if q == p {
                    assert(pc.contains(c as usize));
                    assert(without(pc, id).contains(c as usize));
                }
            }
        }
        assert forall|q: int, k: int| 0 <= q < u.len() && 0 <= k < u[q].children.len() implies valid(
            u,
            #[trigger] u[q].children[k],
        ) && u[u[q].children[k] as int].parent == Some(q as usize) by {
            let y = u[q].children[k];
            if q == p {
                assert(without(pc, id).contains(y));
                lemma_child_facts(t, p, y);
            } else {
                assert(t[q].children.contains(y));
                lemma_child_facts(t, q as usize, y);
            }
        }
        assert forall|q: int| 0 <= q < u.len() implies (
        #[trigger] u[q].children).no_duplicates() by {
            assert(t[q].children.no_duplicates());
        }
        assert forall|q: int| 0 <= q < u.len() implies (#[trigger] u[q].focus).no_duplicates() by {
            assert(t[q].focus.no_duplicates());
        }
        assert forall|q: int| 0 <= q < u.len() implies share_ok(
            #[trigger] u[q].data.tiling_size as int,
        ) by {
            assert(share_ok(t[q].data.tiling_size as int));
        }
        assert forall|q: int, y: usize| 0 <= q < u.len() implies (#[trigger] u[q].focus.contains(y)
            <==> u[q].children.contains(y)) by {
            assert(t[q].focus.contains(y) <==> t[q].children.contains(y));
            if q == p {
                assert(without(pf, id).contains(y) <==> without(pc, id).contains(y));
            }
        }
    }
}

/// Taking a container out keeps the tree well-formed.
pub proof fn unlinking_keeps_tree(t: Tree, id: usize)
    requires
        wf(t),
        valid(t, id),
    ensures
        wf(unlinked(t, id)),
        same_kinds(t, unlinked(t, id)),
        unlinked(t, id)[id as int].parent is None,
        unlinked(t, id)[id as int].children == t[id as int].children,
        same_links(cut_out(t, id), unlinked(t, id)),
{
    cutting_out_keeps_tree(t, id);
    if t[id as int].parent is Some {
        let p = t[id as int].parent->0;
        lemma_parent_facts(t, id);
        let u = cut_out(t, id);
        if is_tile(t, id) {
            lemma_tiles(u, p);
            let siblings = tiles(u, p);
            let s = crate::shares::spread(shares_of(u, siblings), -share_of(t, id));
            lemma_all_ok_spread(shares_of(u, siblings), -share_of(t, id));
            lemma_with_shares(u, siblings, s);
            lemma_same_links_wf(u, with_shares(u, siblings, s));
            assert(unlinked(t, id) == with_shares(u, siblings, s));
        } else {
            assert(unlinked(t, id) == u);
        }
    }
}

/// Taking a container out, with an emptied split, keeps the tree well-formed.
pub proof fn detaching_keeps_tree(t: Tree, id: usize)
    requires
        wf(t),
        valid(t, id),
    ensures
        wf(only_child_freed(t, id)),
        same_kinds(t, only_child_freed(t, id)),
        only_child_freed(t, id)[id as int].children == t[id as int].children,
        wf(detached(t, id)),
        same_kinds(t, detached(t, id)),
        detached(t, id)[id as int].parent is None,
        detached(t, id)[id as int].children == t[id as int].children,
{
    reveal(flattened);
    if is_only_child_of_split(t, id) {
        let s = t[id as int].parent->0;
        lemma_parent_facts(t, id);
        if t[s as int].parent is Some {
            lemma_flattened(t, s);
            flattening_keeps_tree(t, s);
            let u = flattened(t, s);
            assert(u[id as int].children == t[id as int].children);
        }
    }
    unlinking_keeps_tree(only_child_freed(t, id), id);
}

/// Putting a container without children into another keeps the tree well-formed.
#[verifier::spinoff_prover]
pub proof fn linking_keeps_tree(t: Tree, id: usize, parent: usize, index: int)
    requires
        wf(t),
        valid(t, id),
        valid(t, parent),
        id != parent,
        t[id as int].parent is None,
        t[id as int].children.len() == 0,
        kind(t, parent).holds(kind(t, id)),
        0 <= index <= t[parent as int].children.len(),
    ensures
        wf(linked(t, id, parent, index)),
        same_kinds(t, linked(t, id, parent, index)),
        linked(t, id, parent, index)[id as int].parent == Some(parent),
        linked(t, id, parent, index)[id as int].children == t[id as int].children,
{
    let u = linked(t, id, parent, index);
    let pc = t[parent as int].children;
    let pf = t[parent as int].focus;
    if pc.contains(id) {
        lemma_child_facts(t, parent, id);
    }
    assert(t[parent as int].focus.contains(id) <==> t[parent as int].children.contains(id));
    lemma_insert(pc, index, id);
    lemma_push_unique(pf, id);
    let rank0 = choose|rank: Seq<int>| ranked(t, rank);
    let rank = rank0.update(id as int, rank0[parent as int] - 1);
    assert forall|c: int| 0 <= c < u.len() implies (#[trigger] u[c].parent matches Some(q)
        ==> valid(u, q) && rank[c] < rank[q as int]) by {
        assert(t[c].parent matches Some(q) ==> valid(t, q) && rank0[c] < rank0[q as int]);
        assert(listed(t, c));
    }
    assert(ranked(u, rank));
    assert forall|c: int| 0 <= c < u.len() implies #[trigger] listed(u, c) by {
        assert(listed(t, c));
        if u[c].parent is Some {
            let q = u[c].parent->0;
            if q == parent {
                assert(pc.insert(index, id).contains(c as usize));
            }
        }
    }
    assert forall|q: int, k: int| 0 <= q < u.len() && 0 <= k < u[q].children.len() implies valid(
        u,
        #[trigger] u[q].children[k],
    ) && u[u[q].children[k] as int].parent == Some(q as usize) by {
        let y = u[q].children[k];
        if q == parent {
            assert(pc.insert(index, id).contains(y));
            if y != id {
                lemma_child_facts(t, parent, y);
            }
        } else {
            assert(t[q].children.contains(y));
            lemma_child_facts(t, q as usize, y);
        }
    }
    assert forall|q: int| 0 <= q < u.len() implies (#[trigger] u[q].children).no_duplicates() by {
        assert(t[q].children.no_duplicates());
    }
    assert forall|q: int| 0 <= q < u.len() implies (#[trigger] u[q].focus).no_duplicates() by {
        assert(t[q].focus.no_duplicates());
    }
    assert forall|q: int| 0 <= q < u.len() implies share_ok(
        #[trigger] u[q].data.tiling_size as int,
    ) by {
        assert(share_ok(t[q].data.tiling_size as int));
    }
    assert forall|q: int, y: usize| 0 <= q < u.len() implies (#[trigger] u[q].focus.contains(y)
        <==> u[q].children.contains(y)) by {
        assert(t[q].focus.contains(y) <==> t[q].children.contains(y));
        if q == parent {
            lemma_push_contains(pf, id, y);
            assert(pc.insert(index, id).contains(y) <==> (pc.contains(y) || y == id));
        }
    }
}

/// Putting a container without children into another, with a share, keeps the tree
/// well-formed.
pub proof fn attaching_keeps_tree(t: Tree, id: usize, parent: usize, index: int)
    requires
        wf(t),
        valid(t, id),
        valid(t, parent),
        id != parent,
        t[id as int].parent is None,
        t[id as int].children.len() == 0,
        kind(t, parent).holds(kind(t, id)),
        0 <= index <= t[parent as int].children.len(),
    ensures
        wf(attached(t, id, parent, index)),
        same_kinds(t, attached(t, id, parent, index)),
        same_links(linked(t, id, parent, index), attached(t, id, parent, index)),
        attached(t, id, parent, index)[id as int].parent == Some(parent),
{
    linking_keeps_tree(t, id, parent, index);
    let t1 = linked(t, id, parent, index);
    if is_tile(t, id) {
        let t2 = with_share(t1, id, 0);
        lemma_same_links_wf(t1, t2);
        resizing_keeps_links(
            t2,
            id,
            crate::tree::joining_share(tile_siblings(t1, id).len()),
        );
    }
}

/// Reordering a container's children keeps the tree well-formed.
pub proof fn reordering_keeps_tree(t: Tree, p: usize, children: Seq<usize>, focus: Seq<usize>)
    requires
        wf(t),
        valid(t, p),
        children.no_duplicates(),
        focus.no_duplicates(),
        forall|y: usize| #[trigger] children.contains(y) <==> t[p as int].children.contains(y),
        forall|y: usize| #[trigger] focus.contains(y) <==> t[p as int].focus.contains(y),
    ensures
        wf(with_focus(with_children(t, p, children), p, focus)),
        same_kinds(t, with_focus(with_children(t, p, children), p, focus)),
{
    let u = with_focus(with_children(t, p, children), p, focus);
    let rank = choose|rank: Seq<int>| ranked(t, rank);
    assert forall|c: int| 0 <= c < u.len() implies (#[trigger] u[c].parent matches Some(q)
        ==> valid(u, q) && rank[c] < rank[q as int]) by {
        assert(t[c].parent matches Some(q) ==> valid(t, q) && rank[c] < rank[q as int]);
    }
    assert(ranked(u, rank));
    assert forall|c: int| 0 <= c < u.len() implies #[trigger] listed(u, c) by {
        assert(listed(t, c));
        if u[c].parent is Some && u[c].parent->0 == p {
            assert(children.contains(c as usize));
        }
    }
    assert forall|q: int, k: int| 0 <= q < u.len() && 0 <= k < u[q].children.len() implies valid(
        u,
        #[trigger] u[q].children[k],
    ) && u[u[q].children[k] as int].parent == Some(q as usize) by {
        let y = u[q].children[k];
        if q == p {
            assert(children.contains(y));
        } else {
            assert(t[q].children.contains(y));
        }
        lemma_child_facts(t, q as usize, y);
    }
    assert forall|q: int| 0 <= q < u.len() implies (#[trigger] u[q].children).no_duplicates() by {
        assert(t[q].children.no_duplicates());
    }
    assert forall|q: int| 0 <= q < u.len() implies (#[trigger] u[q].focus).no_duplicates() by {
        assert(t[q].focus.no_duplicates());
    }
    assert forall|q: int| 0 <= q < u.len() implies share_ok(
        #[trigger] u[q].data.tiling_size as int,
    ) by {
        assert(share_ok(t[q].data.tiling_size as int));
    }
    assert forall|q: int, y: usize| 0 <= q < u.len() implies (#[trigger] u[q].focus.contains(y)
        <==> u[q].children.contains(y)) by {
        assert(t[q].focus.contains(y) <==> t[q].children.contains(y));
        if q == p {
            assert(focus.contains(y) <==> t[p as int].focus.contains(y));
            assert(children.contains(y) <==> t[p as int].children.contains(y));
        }
    }
}

/// Giving a container the focus keeps the tree well-formed.
pub proof fn focusing_keeps_tree(t: Tree, id: usize, fuel: nat)
    requires
        wf(t),
        valid(t, id),
    ensures
        wf(focused(t, id, fuel)),
        same_kinds(t, focused(t, id, fuel)),
        forall|i: int|
            0 <= i < t.len() ==> (#[trigger] focused(t, id, fuel)[i]).parent == t[i].parent
                && focused(t, id, fuel)[i].children == t[i].children && focused(
                t,
                id,
                fuel,
            )[i].data == t[i].data && focused(t, id, fuel)[i].unstack == t[i].unstack,
    decreases fuel,
{
    if t[id as int].parent is Some && fuel > 0 {
        let p = t[id as int].parent->0;
        lemma_parent_facts(t, id);
        let f = t[p as int].focus;
        lemma_without(f, id);
        lemma_insert(without(f, id), 0, id);
        let g = without(f, id).insert(0, id);
        assert(t[p as int].focus.no_duplicates());
        assert(t[p as int].children.no_duplicates());
        reordering_keeps_tree(t, p, t[p as int].children, g);
        let u = with_focus(t, p, g);
        assert(with_focus(with_children(t, p, t[p as int].children), p, g) =~= u);
        focusing_keeps_tree(u, p, (fuel - 1) as nat);
        assert forall|i: int| 0 <= i < t.len() implies (#[trigger] focused(t, id, fuel)[i]).parent
            == t[i].parent && focused(t, id, fuel)[i].children == t[i].children && focused(
            t,
            id,
            fuel,
        )[i].data == t[i].data && focused(t, id, fuel)[i].unstack == t[i].unstack by {
            assert(focused(t, id, fuel)[i] == focused(u, p, (fuel - 1) as nat)[i]);
        }
    }
}

/// Moving a container without children keeps the tree well-formed, and puts the
/// container where it was to go.
pub proof fn moving_keeps_tree(t: Tree, id: usize, parent: usize, index: int)
    requires
        wf(t),
        valid(t, id),
        valid(t, parent),
        id != parent,
        t[id as int].parent is Some,
        t[id as int].children.len() == 0,
        kind(t, parent).holds(kind(t, id)),
        index >= 0,
    ensures
        wf(moved(t, id, parent, index)),
        same_kinds(t, moved(t, id, parent, index)),
        moved(t, id, parent, index)[id as int].parent == Some(parent),
        moved(t, id, parent, index)[id as int].children == t[id as int].children,
        wf(detached(t, id)),
{
    reveal(moved);
    detaching_keeps_tree(t, id);
    if t[id as int].parent == Some(parent) {
        lemma_parent_facts(t, id);
        let pc = t[parent as int].children;
        assert(t[parent as int].children.no_duplicates());
        assert(t[parent as int].focus.no_duplicates());
        lemma_shifted(pc, id, index);
        reordering_keeps_tree(t, parent, shifted(pc, id, index), t[parent as int].focus);
        let u = with_children(t, parent, shifted(pc, id, index));
        assert(with_focus(u, parent, t[parent as int].focus) =~= u);
    } else {
        let t1 = detached(t, id);
        let i = crate::geometry::int_min(index, t1[parent as int].children.len() as int);
        attaching_keeps_tree(t1, id, parent, i);
        let t2 = attached(t1, id, parent, i);
        focusing_keeps_tree(t2, id, t.len());
        let t3 = focused(t2, id, t.len());
        assert(t3[id as int].parent == t2[id as int].parent);
        assert(t3[id as int].children == t2[id as int].children);
        assert(linked(t1, id, parent, i)[id as int].children == t1[id as int].children);
        assert(t2[id as int].children == linked(t1, id, parent, i)[id as int].children);
    }
}

/// Moving a container among its siblings and back to where it was leaves the tree as it was.
pub proof fn reordering_is_undone(t: Tree, id: usize, parent: usize, index: int)
    requires
        wf(t),
        valid(t, id),
        t[id as int].parent == Some(parent),
        index >= 0,
    ensures
        moved(
            moved(t, id, parent, index),
            id,
            parent,
            position(t[parent as int].children, id),
        ) == t,
{
    reveal(moved);
    lemma_parent_facts(t, id);
    let all = t[parent as int].children;
    assert(t[parent as int].children.no_duplicates());
    lemma_shifted_back(all, id, index);
    let u = moved(t, id, parent, index);
    assert(u[id as int].parent == t[id as int].parent);
    assert(moved(u, id, parent, position(all, id)) =~= t);
}

/// Whether some containers are tiles of a container, each named once.
pub open spec fn are_tiles_of(t: Tree, ids: Seq<usize>, parent: usize) -> bool {
    &&& ids.no_duplicates()
    &&& forall|k: int| 0 <= k < ids.len() ==> tiles(t, parent).contains(#[trigger] ids[k])
}

/// Moving a container within its parent changes the order only.
pub proof fn lemma_moved_within(t: Tree, id: usize, parent: usize, index: int)
    requires
        t[id as int].parent == Some(parent),
    ensures
        moved(t, id, parent, index) == with_children(
            t,
            parent,
            shifted(t[parent as int].children, id, index),
        ),
{
    reveal(moved);
}

/// What wrapping some tiles in a split does to each container.
pub proof fn lemma_wrapped(t: Tree, split: usize, parent: usize, ids: Seq<usize>)
    requires
        wf(t),
        valid(t, split),
        valid(t, parent),
        kind(t, split) == ContainerKind::Split,
        t[split as int].parent is None,
        t[split as int].children.len() == 0,
        split != parent,
        are_tiles_of(t, ids, parent),
    ensures
        ({
            let u = wrapped(t, split, parent, ids);
            let node = t[parent as int];
            &&& u.len() == t.len()
            &&& !ids.contains(parent)
            &&& !ids.contains(split)
            &&& u[parent as int] == (NodeView {
                children: filtered(
                    node.children.insert(first_place(node.children, ids), split),
                    ids,
                    false,
                ),
                focus: filtered(
                    node.focus.insert(first_place(node.focus, ids), split),
                    ids,
                    false,
                ),
                ..node
            })
            &&& u[split as int].parent == Some(parent)
            &&& u[split as int].children == ids
            &&& u[split as int].focus == filtered(node.focus, ids, true)
            &&& u[split as int].unstack == t[split as int].unstack
            &&& u[split as int].data.kind == ContainerKind::Split
            &&& u[split as int].data.tiling_direction == t[split as int].data.tiling_direction
            &&& share_ok(u[split as int].data.tiling_size as int)
            &&& forall|i: int|
                0 <= i < t.len() && i != parent && i != split ==> (#[trigger] u[i]).children
                    == t[i].children && u[i].focus == t[i].focus && u[i].data.kind
                    == t[i].data.kind && u[i].unstack == t[i].unstack && u[i].parent == (
                if ids.contains(i as usize) {
                    Some(split)
                } else {
                    t[i].parent
                }) && share_ok(u[i].data.tiling_size as int)
            &&& forall|i: int|
                0 <= i < t.len() && i != parent && i != split && !ids.contains(i as usize)
                    ==> #[trigger] u[i] == t[i]
        }),
{
    reveal(wrapped);
    lemma_tiles(t, parent);
    let rank = choose|rank: Seq<int>| ranked(t, rank);
    assert forall|y: usize| #[trigger] ids.contains(y) implies valid(t, y) && t[y as int].parent
        == Some(parent) && y != parent && y != split by {
        let k = choose|k: int| 0 <= k < ids.len() && ids[k] == y;
        assert(tiles(t, parent).contains(ids[k]));
        assert(t[y as int].parent == Some(parent));
        assert(rank[y as int] < rank[parent as int]);
    }
    assert forall|k: int| 0 <= k < ids.len() implies valid(t, #[trigger] ids[k]) by {
        assert(ids.contains(ids[k]));
    }
    let shares = shares_of(t, ids);
    let s = crate::tree::as_split_shares(shares);
    assert(all_ok(s));
    lemma_with_shares(t, ids, s);
    let t1 = with_shares(t, ids, s);
    lemma_with_parents(t1, ids, Some(split));
    assert(t1[parent as int] == t[parent as int]);
    assert(t1[split as int] == t[split as int]);
}

/// Wrapping tiles in a new split keeps the tree well-formed.
#[verifier::spinoff_prover]
pub proof fn wrapping_keeps_tree(t: Tree, split: usize, parent: usize, ids: Seq<usize>)
    requires
        wf(t),
        valid(t, split),
        valid(t, parent),
        kind(t, split) == ContainerKind::Split,
        kind(t, parent).is_direction(),
        t[split as int].parent is None,
        t[split as int].children.len() == 0,
        split != parent,
        are_tiles_of(t, ids, parent),
    ensures
        wf(wrapped(t, split, parent, ids)),
        same_kinds(t, wrapped(t, split, parent, ids)),
{
    reveal(wrapped);
    lemma_wrapped(t, split, parent, ids);
    lemma_tiles(t, parent);
    lemma_children(t, parent);
    let u = wrapped(t, split, parent, ids);
    let node = t[parent as int];
    let pc = node.children;
    let pf = node.focus;
    assert(t[parent as int].children.no_duplicates());
    assert(t[parent as int].focus.no_duplicates());
    if pc.contains(split) {
        lemma_child_facts(t, parent, split);
    }
    assert(t[parent as int].focus.contains(split) <==> t[parent as int].children.contains(split));
    lemma_first_place(pc, ids);
    lemma_first_place(pf, ids);
    let ci = pc.insert(first_place(pc, ids), split);
    let fi = pf.insert(first_place(pf, ids), split);
    lemma_insert(pc, first_place(pc, ids), split);
    lemma_insert(pf, first_place(pf, ids), split);
    lemma_filtered(ci, ids, false);
    lemma_filtered(fi, ids, false);
    lemma_filtered(pf, ids, true);
    lemma_tiles_in(t, pc);
    assert forall|y: usize| #[trigger] ids.contains(y) implies valid(t, y) && t[y as int].parent
        == Some(parent) && pc.contains(y) && is_tile(t, y) by {
        let k = choose|k: int| 0 <= k < ids.len() && ids[k] == y;
        assert(tiles(t, parent).contains(ids[k]));
    }
    let rank0 = choose|rank: Seq<int>| ranked(t, rank);
    let rank = Seq::new(
        t.len(),
        |i: int|
            if i == split {
                2 * rank0[parent as int] - 1
            } else {
                2 * rank0[i]
            },
    );
    assert forall|c: int| 0 <= c < u.len() implies (#[trigger] u[c].parent matches Some(q)
        ==> valid(u, q) && rank[c] < rank[q as int]) by {
        assert(t[c].parent matches Some(q) ==> valid(t, q) && rank0[c] < rank0[q as int]);
        assert(listed(t, c));
        if c != split && c != parent && ids.contains(c as usize) {
            assert(t[c].parent == Some(parent));
        } else if c != split {
            assert(u[c].parent == t[c].parent);
            if t[c].parent == Some(split) {
                assert(t[split as int].children.contains(c as usize));
            }
        }
    }
    assert(ranked(u, rank));
    assert forall|c: int| 0 <= c < u.len() implies #[trigger] listed(u, c) by {
        assert(listed(t, c));
        if u[c].parent is Some {
            let q = u[c].parent->0;
            if c == split {
                assert(ci.contains(split));
                assert(filtered(ci, ids, false).contains(split));
            } else if c != parent && ids.contains(c as usize) {
                assert(q == split);
            } else {
                assert(t[c].parent == Some(q));
                if q == parent {
                    assert(pc.contains(c as usize));
                    if c == parent {
                        lemma_child_facts(t, parent, parent);
                    }
                    assert(ci.contains(c as usize));
                    assert(filtered(ci, ids, false).contains(c as usize));
                } else if q == split {
                    assert(t[split as int].children.contains(c as usize));
                } else {
                    assert(u[q as int].children == t[q as int].children);
                }
            }
        }
    }
    assert forall|q: int, k: int| 0 <= q < u.len() && 0 <= k < u[q].children.len() implies valid(
        u,
        #[trigger] u[q].children[k],
    ) && u[u[q].children[k] as int].parent == Some(q as usize) by {
        let y = u[q].children[k];
        if q == parent {
            assert(filtered(ci, ids, false).contains(y));
            assert(ci.contains(y) && !ids.contains(y));
            if y != split {
                lemma_child_facts(t, parent, y);
            }
        } else if q == split {
            assert(ids.contains(y));
            lemma_child_facts(t, parent, y);
        } else {
            assert(t[q].children.contains(y));
            lemma_child_facts(t, q as usize, y);
            if ids.contains(y) {
                assert(t[y as int].parent == Some(parent));
            }
        }
    }
    assert forall|q: int| 0 <= q < u.len() implies (#[trigger] u[q].children).no_duplicates() by {
        assert(t[q].children.no_duplicates());
    }
    assert forall|q: int| 0 <= q < u.len() implies (#[trigger] u[q].focus).no_duplicates() by {
        assert(t[q].focus.no_duplicates());
    }
    assert forall|q: int| 0 <= q < u.len() implies share_ok(
        #[trigger] u[q].data.tiling_size as int,
    ) by {
        assert(share_ok(t[q].data.tiling_size as int));
    }
    assert forall|q: int, y: usize| 0 <= q < u.len() implies (#[trigger] u[q].focus.contains(y)
        <==> u[q].children.contains(y)) by {
        assert(t[q].focus.contains(y) <==> t[q].children.contains(y));
        assert(t[parent as int].focus.contains(y) <==> t[parent as int].children.contains(y));
        if q == parent {
            assert(filtered(fi, ids, false).contains(y) <==> (fi.contains(y) && !ids.contains(y)));
            assert(filtered(ci, ids, false).contains(y) <==> (ci.contains(y) && !ids.contains(y)));
            assert(fi.contains(y) <==> (pf.contains(y) || y == split));
            assert(ci.contains(y) <==> (pc.contains(y) || y == split));
        } else if q == split {
            assert(filtered(pf, ids, true).contains(y) <==> (pf.contains(y) && ids.contains(y)));
        }
    }
}

} // verus!
