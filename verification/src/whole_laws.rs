//! The tiles of a container share one whole.

use vstd::prelude::*;

use crate::geometry::{int_max, int_min};
use crate::lists::{
    filtered, lemma_filtered, lemma_joined_contains, lemma_last_not_in_front, lemma_push_contains,
    lemma_without, without,
};
use crate::shares::{
    above_minimum, clamped_target, largest_share, lemma_total_nonnegative, lemma_total_take, part,
    part_is_proportional, parts_add_up, share_ok, spread, spread_keeps_minimums, spread_keeps_total,
    total, EPSILON, MIN_TILING_SIZE, WHOLE,
};
use crate::tree::{
    as_split_shares, attached, detached, flattened, focused, is_only_child_of_split, is_tile,
    joining_share, kind, linked, moved, resized, scaled, share_of, shares_of, tile_siblings,
    tiles, valid, wf, with_parents, with_share, with_shares, wrapped, ContainerKind, Tree,
};
use crate::tree_laws::{
    are_tiles_of, attaching_keeps_tree, cut_out, cutting_out_keeps_tree, detaching_keeps_tree,
    flattening_keeps_tree, focusing_keeps_tree, lemma_children, lemma_flattened, lemma_parent_facts,
    lemma_same_links_wf, lemma_tile_siblings, lemma_tiles, lemma_tiles_in, lemma_tiles_same_kinds,
    lemma_with_parents, lemma_with_shares, lemma_wrapped, linking_keeps_tree, moving_keeps_tree,
    resizing_keeps_links, unlinking_keeps_tree, wrapping_keeps_tree,
};

verus! {

/// The most tiles that can stand side by side, each with at least the smallest share.
pub const MAX_TILES: usize = 100;

/// Whether the tiles of a container, if it has any, share exactly one whole, and each of them has
/// at least the smallest share.
pub open spec fn whole_at(t: Tree, q: usize) -> bool {
    let ids = tiles(t, q);
    ids.len() > 0 ==> {
        &&& total(shares_of(t, ids)) == WHOLE
        &&& forall|k: int| 0 <= k < ids.len() ==> MIN_TILING_SIZE <= share_of(t, #[trigger] ids[k])
    }
}

/// Whether the tiles of every container share one whole.
pub open spec fn all_whole(t: Tree) -> bool {
    forall|q: usize| q < t.len() ==> #[trigger] whole_at(t, q)
}

/// The shares of some containers without one of them.
proof fn lemma_total_without(t: Tree, ids: Seq<usize>, id: usize)
    requires
        ids.no_duplicates(),
        ids.contains(id),
    ensures
        total(shares_of(t, ids)) == share_of(t, id) + total(shares_of(t, without(ids, id))),
    decreases ids.len(),
{
    let front = ids.drop_last();
    let last = ids.last();
    assert(ids =~= front.push(last));
    lemma_push_contains(front, last, id);
    lemma_last_not_in_front(ids);
    assert(shares_of(t, ids).drop_last() =~= shares_of(t, front));
    if last == id {
        lemma_without(front, id);
    } else {
        lemma_total_without(t, front, id);
        let rest = without(front, id).push(last);
        assert(shares_of(t, rest).drop_last() =~= shares_of(t, without(front, id)));
    }
}

/// A container whose tiles are as they were still shares one whole.
proof fn lemma_same_at(t: Tree, u: Tree, q: usize)
    requires
        u[q as int].children == t[q as int].children,
        forall|k: int|
            0 <= k < t[q as int].children.len() ==> kind(u, #[trigger] t[q as int].children[k])
                == kind(t, t[q as int].children[k]),
        forall|y: usize| #[trigger] tiles(t, q).contains(y) ==> share_of(u, y) == share_of(t, y),
    ensures
        tiles(u, q) == tiles(t, q),
        whole_at(u, q) == whole_at(t, q),
{
    let all = t[q as int].children;
    assert forall|k: int| 0 <= k < all.len() implies kind(t, #[trigger] all[k]) == kind(u, all[k]) by {
        assert(kind(u, t[q as int].children[k]) == kind(t, t[q as int].children[k]));
    }
    lemma_tiles_same_kinds(t, u, all);
    let ids = tiles(t, q);
    assert forall|k: int| 0 <= k < ids.len() implies share_of(u, #[trigger] ids[k]) == share_of(
        t,
        ids[k],
    ) by {
        assert(ids.contains(ids[k]));
    }
    assert(shares_of(u, ids) =~= shares_of(t, ids));
    assert(whole_at(u, q) == whole_at(t, q));
}

/// The shares of the siblings of a tile, where its container shares one whole.
proof fn lemma_sibling_shares(t: Tree, id: usize)
    requires
        wf(t),
        valid(t, id),
        is_tile(t, id),
        t[id as int].parent is Some,
        whole_at(t, t[id as int].parent->0),
    ensures
        ({
            let p = t[id as int].parent->0;
            let shares = shares_of(t, tile_siblings(t, id));
            &&& tiles(t, p).contains(id)
            &&& MIN_TILING_SIZE <= share_of(t, id) <= WHOLE
            &&& share_of(t, id) + total(shares) == WHOLE
            &&& tile_siblings(t, id).len() == tiles(t, p).len() - 1
            &&& forall|k: int|
                0 <= k < shares.len() ==> MIN_TILING_SIZE <= #[trigger] shares[k] <= WHOLE
        }),
{
    let p = t[id as int].parent->0;
    let ids = tiles(t, p);
    lemma_parent_facts(t, id);
    lemma_tiles(t, p);
    lemma_tiles_in(t, t[p as int].children);
    assert(ids.contains(id));
    lemma_total_without(t, ids, id);
    lemma_without(ids, id);
    let siblings = tile_siblings(t, id);
    let all = shares_of(t, ids);
    assert forall|k: int| 0 <= k < all.len() implies 0 <= #[trigger] all[k] by {
        assert(MIN_TILING_SIZE <= share_of(t, ids[k]));
    }
    lemma_total_nonnegative(all);
    assert forall|y: usize| ids.contains(y) implies MIN_TILING_SIZE <= #[trigger] share_of(t, y)
        <= WHOLE by {
        let k = choose|k: int| 0 <= k < ids.len() && ids[k] == y;
        assert(MIN_TILING_SIZE <= share_of(t, ids[k]));
        assert(all[k] <= total(all));
    }
    let shares = shares_of(t, siblings);
    assert forall|k: int| 0 <= k < shares.len() implies MIN_TILING_SIZE <= #[trigger] shares[k]
        <= WHOLE by {
        assert(siblings.contains(siblings[k]));
        assert(ids.contains(siblings[k]));
        assert(MIN_TILING_SIZE <= share_of(t, siblings[k]));
    }
}

proof fn lemma_total_above_minimum(shares: Seq<i64>)
    requires
        forall|k: int| 0 <= k < shares.len() ==> MIN_TILING_SIZE <= #[trigger] shares[k] <= WHOLE,
    ensures
        total(above_minimum(shares)) == total(shares) - shares.len() * MIN_TILING_SIZE,
    decreases shares.len(),
{
    if shares.len() > 0 {
        let front = shares.drop_last();
        assert forall|k: int| 0 <= k < front.len() implies MIN_TILING_SIZE <= #[trigger] front[k]
            <= WHOLE by {
            assert(front[k] == shares[k]);
        }
        lemma_total_above_minimum(front);
        assert(above_minimum(shares).drop_last() =~= above_minimum(front));
        assert(MIN_TILING_SIZE <= shares[shares.len() - 1] <= WHOLE);
        let n = shares.len() as int;
        assert(n * MIN_TILING_SIZE == (n - 1) * MIN_TILING_SIZE + MIN_TILING_SIZE)
            by (nonlinear_arith);
    }
}

/// The shares of a tile and its siblings after the tile was given another share.
#[verifier::spinoff_prover]
proof fn lemma_resized_total(t: Tree, id: usize, target: int)
    requires
        wf(t),
        valid(t, id),
        is_tile(t, id),
        t[id as int].parent is Some,
        share_with_siblings(t, id),
        tile_siblings(t, id).len() < MAX_TILES,
    ensures
        ({
            let p = t[id as int].parent->0;
            let u = resized(t, id, target);
            let siblings = tile_siblings(t, id);
            &&& tiles(u, p) == tiles(t, p)
            &&& total(shares_of(u, tiles(u, p))) == WHOLE
            &&& share_of(u, id) == (if siblings.len() == 0 {
                WHOLE as int
            } else {
                clamped_target(target, siblings.len())
            })
            &&& forall|k: int|
                0 <= k < siblings.len() ==> share_of(u, #[trigger] siblings[k]) == spread(
                    shares_of(t, siblings),
                    clamped_target(target, siblings.len()) - share_of(t, id),
                )[k]
        }),
{
    let p = t[id as int].parent->0;
    let u = resized(t, id, target);
    let siblings = tile_siblings(t, id);
    let ids = tiles(t, p);
    lemma_parent_facts(t, id);
    resizing_keeps_links(t, id, target);
    lemma_tile_siblings(t, id);
    lemma_children(t, p);
    lemma_tiles(t, p);
    lemma_tiles_in(t, t[p as int].children);
    assert(ids.contains(id));
    let all = t[p as int].children;
    assert forall|k: int| 0 <= k < all.len() implies kind(t, #[trigger] all[k]) == kind(
        u,
        all[k],
    ) by {
        assert(valid(t, t[p as int].children[k]));
    }
    lemma_tiles_same_kinds(t, u, all);
    lemma_total_without(u, ids, id);
    lemma_without(ids, id);
    let shares = shares_of(t, siblings);
    if siblings.len() == 0 {
        assert(shares_of(u, siblings) =~= Seq::<i64>::empty());
    } else {
        let n = siblings.len();
        let share = clamped_target(target, n);
        let amount = share - share_of(t, id);
        assert(n * MIN_TILING_SIZE <= 99 * MIN_TILING_SIZE && 0 <= n * MIN_TILING_SIZE)
            by (nonlinear_arith)
            requires
                0 <= n <= 99,
                MIN_TILING_SIZE == 10737418,
        ;
        assert(MIN_TILING_SIZE <= share <= largest_share(n));
        spread_keeps_total(shares, amount);
        let after = spread(shares, amount);
        let v = with_share(t, id, share as i64);
        assert forall|k: int| 0 <= k < siblings.len() implies valid(v, #[trigger] siblings[k]) by {
            assert(valid(t, siblings[k]));
        }
        lemma_with_shares(v, siblings, after);
        assert(u == with_shares(v, siblings, after));
        assert(u[id as int] == v[id as int]);
        assert forall|k: int| 0 <= k < n implies share_of(u, #[trigger] siblings[k])
            == after[k] by {
            assert(share_of(with_shares(v, siblings, after), siblings[k]) == after[k]);
        }
        assert(shares_of(u, siblings) =~= after);
    }
}

/// Giving a tile another share in a container whose tiles share one whole: they share one whole
/// again, the tile has the share asked for as far as there is room beside its siblings, all of it
/// if it has none, and no other container changes. This holds also where every sibling is at the
/// smallest share.
pub proof fn resizing_keeps_the_whole(t: Tree, id: usize, target: int)
    requires
        wf(t),
        valid(t, id),
        is_tile(t, id),
        t[id as int].parent matches Some(p) && whole_at(t, p) && tiles(t, p).len() <= MAX_TILES,
    ensures
        ({
            let p = t[id as int].parent->0;
            let u = resized(t, id, target);
            let siblings = tile_siblings(t, id).len();
            &&& u.len() == t.len()
            &&& tiles(u, p) == tiles(t, p)
            &&& total(shares_of(u, tiles(u, p))) == WHOLE
            &&& share_of(u, id) == (if siblings == 0 {
                WHOLE as int
            } else {
                int_max(
                    MIN_TILING_SIZE as int,
                    int_min(target, WHOLE - siblings * MIN_TILING_SIZE),
                )
            })
            &&& can_give(t, id, target) ==> whole_at(u, p)
            &&& forall|i: int|
                0 <= i < t.len() && i != id && t[i].parent != Some(p) ==> #[trigger] u[i] == t[i]
        }),
{
    let p = t[id as int].parent->0;
    let u = resized(t, id, target);
    let siblings = tile_siblings(t, id);
    lemma_parent_facts(t, id);
    lemma_sibling_shares(t, id);
    lemma_resized_total(t, id, target);
    resizing_keeps_links(t, id, target);
    lemma_tile_siblings(t, id);
    if can_give(t, id, target) {
        lemma_resized_whole(t, id, target);
    }
    assert forall|i: int| 0 <= i < t.len() && i != id && t[i].parent != Some(p) implies #[trigger] u[i]
        == t[i] by {
        if siblings.contains(i as usize) {
            let k = choose|k: int| 0 <= k < siblings.len() && siblings[k] == i as usize;
            assert(t[siblings[k] as int].parent == t[id as int].parent);
        }
    }
}

/// Giving a tile another share keeps what all the tiles share together. No tile falls below the
/// smallest share, unless the siblings had next to nothing to give: so little that it is spread
/// alike over all of them.
pub proof fn resizing_keeps_wholes(t: Tree, id: usize, target: int)
    requires
        wf(t),
        valid(t, id),
        is_tile(t, id),
        t[id as int].parent is Some,
        all_whole(t),
        tiles(t, t[id as int].parent->0).len() <= MAX_TILES,
        can_give(t, id, target),
    ensures
        all_whole(resized(t, id, target)),
{
    let p = t[id as int].parent->0;
    let u = resized(t, id, target);
    let siblings = tile_siblings(t, id);
    lemma_parent_facts(t, id);
    assert(whole_at(t, p));
    lemma_sibling_shares(t, id);
    resizing_keeps_links(t, id, target);
    lemma_tile_siblings(t, id);
    assert forall|q: usize| q < u.len() implies #[trigger] whole_at(u, q) by {
        lemma_children(t, q);
        lemma_tiles(t, q);
        assert(whole_at(t, q));
        assert forall|k: int| 0 <= k < t[q as int].children.len() implies kind(
            u,
            #[trigger] t[q as int].children[k],
        ) == kind(t, t[q as int].children[k]) by {
            assert(valid(t, t[q as int].children[k]));
        }
        if q != p {
            assert forall|y: usize| #[trigger] tiles(t, q).contains(y) implies share_of(u, y)
                == share_of(t, y) by {
                assert(t[y as int].parent == Some(q));
                if siblings.contains(y) {
                    let k = choose|k: int| 0 <= k < siblings.len() && siblings[k] == y;
                    assert(t[siblings[k] as int].parent == t[id as int].parent);
                }
                assert(u[y as int] == t[y as int]);
            }
            lemma_same_at(t, u, q);
        } else {
            lemma_resized_whole(t, id, target);
        }
    }
}

/// Whether a tile and its siblings share one whole, where the tile itself may have less than the
/// smallest share, as when it has just joined them.
spec fn share_with_siblings(t: Tree, id: usize) -> bool {
    let shares = shares_of(t, tile_siblings(t, id));
    &&& shares.len() > 0 ==> 0 <= share_of(t, id) <= WHOLE && share_of(t, id) + total(shares)
        == WHOLE
    &&& forall|k: int| 0 <= k < shares.len() ==> MIN_TILING_SIZE <= #[trigger] shares[k] <= WHOLE
}

/// Whether the siblings of a tile have enough to give for its new share.
pub open spec fn can_give(t: Tree, id: usize, target: int) -> bool {
    let siblings = tile_siblings(t, id);
    ||| total(above_minimum(shares_of(t, siblings))) > EPSILON
    ||| clamped_target(target, siblings.len()) <= share_of(t, id)
}

proof fn lemma_resized_whole(t: Tree, id: usize, target: int)
    requires
        wf(t),
        valid(t, id),
        is_tile(t, id),
        t[id as int].parent is Some,
        share_with_siblings(t, id),
        tile_siblings(t, id).len() < MAX_TILES,
        can_give(t, id, target),
    ensures
        whole_at(resized(t, id, target), t[id as int].parent->0),
{
    let p = t[id as int].parent->0;
    let u = resized(t, id, target);
    let siblings = tile_siblings(t, id);
    let ids = tiles(t, p);
    lemma_parent_facts(t, id);
    lemma_tile_siblings(t, id);
    lemma_resized_total(t, id, target);
    lemma_tiles(t, p);
    lemma_without(ids, id);
    let shares = shares_of(t, siblings);
    if siblings.len() > 0 {
        let n = siblings.len();
        let amount = clamped_target(target, n) - share_of(t, id);
        assert(n * MIN_TILING_SIZE <= 99 * MIN_TILING_SIZE && 0 <= n * MIN_TILING_SIZE)
            by (nonlinear_arith)
            requires
                0 <= n <= 99,
                MIN_TILING_SIZE == 10737418,
        ;
        lemma_total_above_minimum(shares);
        assert forall|k: int| 0 <= k < n implies MIN_TILING_SIZE <= #[trigger] spread(
            shares,
            amount,
        )[k] by {
            spread_keeps_minimums(shares, amount, k);
        }
    }
    assert forall|k: int| 0 <= k < ids.len() implies MIN_TILING_SIZE <= share_of(
        u,
        #[trigger] ids[k],
    ) by {
        if ids[k] != id {
            assert(ids.contains(ids[k]));
            assert(siblings.contains(ids[k]));
            let j = choose|j: int| 0 <= j < siblings.len() && siblings[j] == ids[k];
            assert(share_of(u, siblings[j]) == spread(
                shares,
                clamped_target(target, siblings.len()) - share_of(t, id),
            )[j]);
        }
    }
}

/// The tiles of a container are the tiles that stand in it.
pub proof fn lemma_tiles_are(t: Tree, q: usize)
    requires
        wf(t),
        valid(t, q),
    ensures
        tiles(t, q).no_duplicates(),
        forall|y: usize| #[trigger]
            tiles(t, q).contains(y) <==> valid(t, y) && is_tile(t, y) && t[y as int].parent == Some(
                q,
            ),
{
    lemma_tiles(t, q);
    lemma_tiles_in(t, t[q as int].children);
    assert forall|y: usize| valid(t, y) && is_tile(t, y) && t[y as int].parent == Some(
        q,
    ) implies #[trigger] tiles(t, q).contains(y) by {
        lemma_parent_facts(t, y);
    }
}

/// The order of containers does not count for what they share together.
proof fn lemma_same_items(t: Tree, a: Seq<usize>, b: Seq<usize>)
    requires
        a.no_duplicates(),
        b.no_duplicates(),
        forall|y: usize| #[trigger] a.contains(y) <==> b.contains(y),
    ensures
        total(shares_of(t, a)) == total(shares_of(t, b)),
        a.len() == b.len(),
    decreases a.len(),
{
    if a.len() == 0 {
        if b.len() > 0 {
            assert(b.contains(b[0]));
            assert(a.contains(b[0]));
        }
        assert(a =~= b);
    } else {
        let x = a.last();
        let front = a.drop_last();
        assert(a.contains(x));
        assert(a =~= front.push(x));
        lemma_last_not_in_front(a);
        lemma_without(b, x);
        lemma_total_without(t, b, x);
        let rest = without(b, x);
        assert forall|y: usize| #[trigger] front.contains(y) <==> rest.contains(y) by {
            lemma_push_contains(front, x, y);
            assert(a.contains(y) <==> b.contains(y));
        }
        lemma_same_items(t, front, rest);
        assert(shares_of(t, a).drop_last() =~= shares_of(t, front));
    }
}

/// Taking a container out of the tree keeps what the others share: its siblings take over its
/// share.
#[verifier::spinoff_prover]
pub proof fn detaching_keeps_wholes(t: Tree, id: usize)
    requires
        wf(t),
        valid(t, id),
        t[id as int].parent is Some,
        !is_only_child_of_split(t, id),
        all_whole(t),
    ensures
        all_whole(detached(t, id)),
{
    let p = t[id as int].parent->0;
    let c = cut_out(t, id);
    let u = detached(t, id);
    lemma_parent_facts(t, id);
    detaching_keeps_tree(t, id);
    cutting_out_keeps_tree(t, id);
    unlinking_keeps_tree(t, id);
    let siblings = tiles(c, p);
    lemma_tiles(c, p);
    let after = spread(shares_of(c, siblings), -share_of(t, id));
    if is_tile(t, id) {
        lemma_with_shares(c, siblings, after);
        assert(u == with_shares(c, siblings, after));
    } else {
        assert(u == c);
    }
    assert forall|q: usize| q < u.len() implies #[trigger] whole_at(u, q) by {
        assert(whole_at(t, q));
        lemma_tiles_are(t, q);
        lemma_tiles_are(u, q);
        lemma_tiles_are(c, q);
        if q != p {
            lemma_children(t, q);
            assert forall|k: int| 0 <= k < t[q as int].children.len() implies kind(
                u,
                #[trigger] t[q as int].children[k],
            ) == kind(t, t[q as int].children[k]) by {
                assert(valid(t, t[q as int].children[k]));
            }
            assert forall|y: usize| #[trigger] tiles(t, q).contains(y) implies share_of(u, y)
                == share_of(t, y) by {
                assert(t[y as int].parent == Some(q));
                if siblings.contains(y) {
                    assert(c[y as int].parent == Some(p));
                }
                assert(y != id);
                assert(u[y as int].data == c[y as int].data);
            }
            lemma_same_at(t, u, q);
        } else if is_tile(t, id) {
            lemma_sibling_shares(t, id);
            let others = tile_siblings(t, id);
            lemma_tile_siblings(t, id);
            lemma_without(tiles(t, p), id);
            assert forall|y: usize| #[trigger] siblings.contains(y) <==> others.contains(y) by {
                assert(tiles(c, p).contains(y) <==> valid(c, y) && is_tile(c, y)
                    && c[y as int].parent == Some(p));
                assert(tiles(t, p).contains(y) <==> valid(t, y) && is_tile(t, y)
                    && t[y as int].parent == Some(p));
            }
            lemma_same_items(t, siblings, others);
            let shares = shares_of(c, siblings);
            assert forall|k: int| 0 <= k < shares.len() implies MIN_TILING_SIZE
                <= #[trigger] shares[k] <= WHOLE by {
                assert(siblings.contains(siblings[k]));
                assert(others.contains(siblings[k]));
                let j = choose|j: int| 0 <= j < others.len() && others[j] == siblings[k];
                assert(MIN_TILING_SIZE <= shares_of(t, others)[j] <= WHOLE);
            }
            assert(shares =~= shares_of(t, siblings));
            assert forall|y: usize| #[trigger] tiles(u, p).contains(y) <==> siblings.contains(
                y,
            ) by {
                assert(tiles(u, p).contains(y) <==> valid(u, y) && is_tile(u, y)
                    && u[y as int].parent == Some(p));
                assert(tiles(c, p).contains(y) <==> valid(c, y) && is_tile(c, y)
                    && c[y as int].parent == Some(p));
            }
            lemma_same_items(u, tiles(u, p), siblings);
            if siblings.len() > 0 {
                spread_keeps_total(shares, -share_of(t, id));
                lemma_total_above_minimum(shares);
                lemma_minimums_fit(shares);
                assert(shares_of(u, siblings) =~= after) by {
                    assert forall|k: int| 0 <= k < siblings.len() implies share_of(
                        u,
                        #[trigger] siblings[k],
                    ) == after[k] by {
                        assert(share_of(with_shares(c, siblings, after), siblings[k]) == after[k]);
                    }
                }
                let ids = tiles(u, p);
                assert forall|k: int| 0 <= k < ids.len() implies MIN_TILING_SIZE <= share_of(
                    u,
                    #[trigger] ids[k],
                ) by {
                    assert(ids.contains(ids[k]));
                    assert(siblings.contains(ids[k]));
                    let j = choose|j: int| 0 <= j < siblings.len() && siblings[j] == ids[k];
                    spread_keeps_minimums(shares, -share_of(t, id), j);
                    assert(shares_of(u, siblings)[j] == after[j]);
                }
            }
        } else {
            assert forall|y: usize| #[trigger] tiles(u, p).contains(y) <==> tiles(
                t,
                p,
            ).contains(y) by {
            }
            lemma_same_items(u, tiles(u, p), tiles(t, p));
            lemma_whole_moved(t, u, p);
        }
    }
}

proof fn lemma_minimums_fit(shares: Seq<i64>)
    requires
        forall|k: int| 0 <= k < shares.len() ==> MIN_TILING_SIZE <= #[trigger] shares[k] <= WHOLE,
    ensures
        total(above_minimum(shares)) >= 0,
{
    let above = above_minimum(shares);
    assert forall|k: int| 0 <= k < above.len() implies 0 <= #[trigger] above[k] by {
        assert(MIN_TILING_SIZE <= shares[k] <= WHOLE);
    }
    lemma_total_nonnegative(above);
}

/// A container that has the same tiles with the same shares, in any order, still shares one whole.
proof fn lemma_whole_moved(t: Tree, u: Tree, q: usize)
    requires
        wf(t),
        wf(u),
        valid(t, q),
        valid(u, q),
        whole_at(t, q),
        forall|y: usize| #[trigger] tiles(u, q).contains(y) <==> tiles(t, q).contains(y),
        forall|y: usize| #[trigger] tiles(t, q).contains(y) ==> share_of(u, y) == share_of(t, y),
    ensures
        whole_at(u, q),
{
    let a = tiles(u, q);
    let b = tiles(t, q);
    lemma_tiles(t, q);
    lemma_tiles(u, q);
    lemma_same_items(u, a, b);
    assert forall|k: int| 0 <= k < b.len() implies share_of(u, #[trigger] b[k]) == share_of(
        t,
        b[k],
    ) by {
        assert(b.contains(b[k]));
    }
    assert(shares_of(u, b) =~= shares_of(t, b));
    assert forall|k: int| 0 <= k < a.len() implies MIN_TILING_SIZE <= share_of(
        u,
        #[trigger] a[k],
    ) by {
        assert(a.contains(a[k]));
        assert(b.contains(a[k]));
        let j = choose|j: int| 0 <= j < b.len() && b[j] == a[k];
        assert(MIN_TILING_SIZE <= share_of(t, b[j]));
    }
}

/// Putting a container into another keeps what the tiles there share: a tile gets an equal share
/// from its new siblings.
pub proof fn attaching_keeps_wholes(t: Tree, id: usize, parent: usize, index: int)
    requires
        wf(t),
        valid(t, id),
        valid(t, parent),
        id != parent,
        t[id as int].parent is None,
        t[id as int].children.len() == 0,
        kind(t, parent).holds(kind(t, id)),
        0 <= index <= t[parent as int].children.len(),
        all_whole(t),
        tiles(t, parent).len() < MAX_TILES,
    ensures
        all_whole(attached(t, id, parent, index)),
{
    let u = attached(t, id, parent, index);
    attaching_keeps_tree(t, id, parent, index);
    if is_tile(t, id) {
        lemma_attached_tile(t, id, parent, index);
    } else {
        assert forall|q: usize| q < u.len() implies #[trigger] whole_at(u, q) by {
            assert(whole_at(t, q));
            lemma_tiles_are(t, q);
            lemma_tiles_are(u, q);
            lemma_whole_moved(t, u, q);
        }
    }
}

#[verifier::spinoff_prover]
proof fn lemma_attached_tile(t: Tree, id: usize, parent: usize, index: int)
    requires
        wf(t),
        valid(t, id),
        valid(t, parent),
        id != parent,
        t[id as int].parent is None,
        t[id as int].children.len() == 0,
        kind(t, parent).holds(kind(t, id)),
        0 <= index <= t[parent as int].children.len(),
        is_tile(t, id),
        all_whole(t),
        tiles(t, parent).len() < MAX_TILES,
    ensures
        all_whole(attached(t, id, parent, index)),
{
    let l = linked(t, id, parent, index);
    let u = attached(t, id, parent, index);
    linking_keeps_tree(t, id, parent, index);
    attaching_keeps_tree(t, id, parent, index);
    let v = with_share(l, id, 0);
    assert forall|i: int| 0 <= i < v.len() implies share_ok(#[trigger] v[i].data.tiling_size as int) by {
        assert(share_ok(l[i].data.tiling_size as int));
    }
    lemma_same_links_wf(l, v);
    let siblings = tile_siblings(v, id);
    lemma_tile_siblings(v, id);
    lemma_tile_siblings(l, id);
    lemma_tiles_are(t, parent);
    lemma_tiles_are(v, parent);
    lemma_tiles_are(l, parent);
    lemma_without(tiles(v, parent), id);
    lemma_without(tiles(l, parent), id);
    let before = tiles(t, parent);
    assert forall|y: usize| #[trigger] siblings.contains(y) <==> before.contains(y) by {
        assert(tiles(v, parent).contains(y) <==> valid(v, y) && is_tile(v, y) && v[y as int].parent
            == Some(parent));
    }
    assert forall|y: usize| #[trigger] tile_siblings(l, id).contains(y) <==> before.contains(y) by {
        assert(tiles(l, parent).contains(y) <==> valid(l, y) && is_tile(l, y) && l[y as int].parent
            == Some(parent));
    }
    lemma_same_items(v, siblings, before);
    lemma_same_items(v, tile_siblings(l, id), before);
    assert(whole_at(t, parent));
    assert(shares_of(v, before) =~= shares_of(t, before)) by {
        assert forall|k: int| 0 <= k < before.len() implies share_of(v, #[trigger] before[k])
            == share_of(t, before[k]) by {
            assert(before.contains(before[k]));
        }
    }
    let shares = shares_of(v, siblings);
    let all = shares_of(t, before);
    assert forall|k: int| 0 <= k < all.len() implies 0 <= #[trigger] all[k] by {
        assert(MIN_TILING_SIZE <= share_of(t, before[k]));
    }
    lemma_total_nonnegative(all);
    assert forall|k: int| 0 <= k < shares.len() implies MIN_TILING_SIZE <= #[trigger] shares[k]
        <= WHOLE by {
        assert(siblings.contains(siblings[k]));
        assert(before.contains(siblings[k]));
        let j = choose|j: int| 0 <= j < before.len() && before[j] == siblings[k];
        assert(MIN_TILING_SIZE <= share_of(t, before[j]));
        assert(all[j] <= total(all));
    }
    lemma_total_above_minimum(shares);
    let n = siblings.len() as int;
    assert(n * MIN_TILING_SIZE <= 99 * MIN_TILING_SIZE) by (nonlinear_arith)
        requires
            0 <= n <= 99,
            MIN_TILING_SIZE == 10737418,
    ;
    let target = joining_share(tile_siblings(l, id).len());
    if n == 0 {
        assert(largest_share(siblings.len()) == WHOLE);
        lemma_only_tile(v, id, target);
    } else {
        lemma_resized_whole(v, id, target);
    }
    resizing_keeps_links(v, id, target);
    assert forall|q: usize| q < u.len() implies #[trigger] whole_at(u, q) by {
        assert(whole_at(t, q));
        lemma_tiles_are(t, q);
        lemma_tiles_are(u, q);
        if q != parent {
            assert forall|y: usize| #[trigger] tiles(t, q).contains(y) implies share_of(u, y)
                == share_of(t, y) by {
                assert(y != id);
                if siblings.contains(y) {
                    assert(before.contains(y));
                }
                assert(u[y as int] == v[y as int]);
            }
            lemma_whole_moved(t, u, q);
        }
    }
}

/// A tile without siblings has the whole.
proof fn lemma_only_tile(t: Tree, id: usize, target: int)
    requires
        wf(t),
        valid(t, id),
        is_tile(t, id),
        t[id as int].parent is Some,
        tile_siblings(t, id).len() == 0,
    ensures
        whole_at(resized(t, id, target), t[id as int].parent->0),
{
    let p = t[id as int].parent->0;
    let u = resized(t, id, target);
    lemma_parent_facts(t, id);
    resizing_keeps_links(t, id, target);
    lemma_tiles_are(t, p);
    lemma_tiles_are(u, p);
    lemma_without(tiles(t, p), id);
    let ids = tiles(u, p);
    let one = seq![id];
    assert forall|y: usize| #[trigger] ids.contains(y) <==> one.contains(y) by {
        assert(one[0] == id);
        assert(tiles(t, p).contains(y) <==> valid(t, y) && is_tile(t, y) && t[y as int].parent
            == Some(p));
        assert(ids.contains(y) <==> valid(u, y) && is_tile(u, y) && u[y as int].parent == Some(p));
        if tiles(t, p).contains(y) && y != id {
            assert(tile_siblings(t, id).contains(y));
        }
    }
    lemma_same_items(u, ids, one);
    assert(shares_of(u, one) =~= seq![WHOLE]);
    assert(seq![WHOLE].drop_last() =~= Seq::<i64>::empty());
    assert(total(seq![WHOLE]) == WHOLE) by {
        assert(total(Seq::<i64>::empty()) == 0);
    }
    assert forall|k: int| 0 <= k < ids.len() implies MIN_TILING_SIZE <= share_of(
        u,
        #[trigger] ids[k],
    ) by {
        assert(ids.contains(ids[k]));
        assert(one.contains(ids[k]));
    }
}

/// Moving a container keeps what all tiles share, both where it leaves and where it arrives.
#[verifier::spinoff_prover]
pub proof fn moving_keeps_wholes(t: Tree, id: usize, parent: usize, index: int)
    requires
        wf(t),
        valid(t, id),
        valid(t, parent),
        id != parent,
        t[id as int].parent is Some,
        t[id as int].children.len() == 0,
        kind(t, parent).holds(kind(t, id)),
        index >= 0,
        all_whole(t),
        t[id as int].parent != Some(parent) ==> !is_only_child_of_split(t, id) && tiles(
            t,
            parent,
        ).len() < MAX_TILES,
    ensures
        all_whole(moved(t, id, parent, index)),
{
    reveal(moved);
    let u = moved(t, id, parent, index);
    moving_keeps_tree(t, id, parent, index);
    if t[id as int].parent == Some(parent) {
        assert forall|q: usize| q < u.len() implies #[trigger] whole_at(u, q) by {
            assert(whole_at(t, q));
            lemma_tiles_are(t, q);
            lemma_tiles_are(u, q);
            lemma_whole_moved(t, u, q);
        }
    } else {
        let d = detached(t, id);
        let i = int_min(index, d[parent as int].children.len() as int);
        detaching_keeps_wholes(t, id);
        detaching_keeps_tree(t, id);
        lemma_detached_links(t, id);
        lemma_tiles_are(t, parent);
        lemma_tiles_are(d, parent);
        assert forall|y: usize| #[trigger] tiles(d, parent).contains(y) <==> tiles(
            t,
            parent,
        ).contains(y) by {
            assert(tiles(t, parent).contains(y) <==> valid(t, y) && is_tile(t, y)
                && t[y as int].parent == Some(parent));
            assert(tiles(d, parent).contains(y) <==> valid(d, y) && is_tile(d, y)
                && d[y as int].parent == Some(parent));
        }
        lemma_same_items(d, tiles(d, parent), tiles(t, parent));
        attaching_keeps_wholes(d, id, parent, i);
        attaching_keeps_tree(d, id, parent, i);
        let a = attached(d, id, parent, i);
        focusing_keeps_tree(a, id, t.len());
        let f = focused(a, id, t.len());
        assert forall|q: usize| q < f.len() implies #[trigger] whole_at(f, q) by {
            assert(whole_at(a, q));
            lemma_tiles_are(a, q);
            lemma_tiles_are(f, q);
            assert forall|y: usize| #[trigger] tiles(a, q).contains(y) implies share_of(f, y)
                == share_of(a, y) by {
                assert(f[y as int].data == a[y as int].data);
            }
            assert forall|y: usize| #[trigger] tiles(f, q).contains(y) <==> tiles(a, q).contains(
                y,
            ) by {
                if valid(a, y) {
                    assert(f[y as int].parent == a[y as int].parent);
                }
            }
            lemma_whole_moved(a, f, q);
        }
    }
}

/// Taking a container out leaves the parents of all others as they are.
proof fn lemma_detached_links(t: Tree, id: usize)
    requires
        wf(t),
        valid(t, id),
        t[id as int].parent is Some,
        !is_only_child_of_split(t, id),
    ensures
        forall|i: int|
            0 <= i < t.len() && i != id ==> (#[trigger] detached(t, id)[i]).parent == t[i].parent,
{
    cutting_out_keeps_tree(t, id);
    unlinking_keeps_tree(t, id);
    let c = cut_out(t, id);
    let d = detached(t, id);
    assert forall|i: int| 0 <= i < t.len() && i != id implies (#[trigger] d[i]).parent
        == t[i].parent by {
        assert(d[i].parent == c[i].parent);
    }
}

proof fn lemma_total_filtered(t: Tree, ids: Seq<usize>, keep: Seq<usize>)
    ensures
        total(shares_of(t, ids)) == total(shares_of(t, filtered(ids, keep, true))) + total(
            shares_of(t, filtered(ids, keep, false)),
        ),
    decreases ids.len(),
{
    if ids.len() > 0 {
        let front = ids.drop_last();
        lemma_total_filtered(t, front, keep);
        let wanted = keep.contains(ids.last());
        let longer = filtered(ids, keep, wanted);
        assert(shares_of(t, ids).drop_last() =~= shares_of(t, front));
        assert(longer.drop_last() =~= filtered(front, keep, wanted));
        assert(shares_of(t, longer).drop_last() =~= shares_of(t, filtered(front, keep, wanted)));
    } else {
        assert(shares_of(t, ids) =~= Seq::<i64>::empty());
        assert(shares_of(t, filtered(ids, keep, true)) =~= Seq::<i64>::empty());
        assert(shares_of(t, filtered(ids, keep, false)) =~= Seq::<i64>::empty());
        assert(total(Seq::<i64>::empty()) == 0);
    }
}

/// Shares that are scaled up to a whole make one whole, and none of them shrinks.
proof fn lemma_as_split_shares(shares: Seq<i64>)
    requires
        shares.len() > 0,
        forall|k: int| 0 <= k < shares.len() ==> MIN_TILING_SIZE <= #[trigger] shares[k],
        total(shares) <= WHOLE,
    ensures
        total(as_split_shares(shares)) == WHOLE,
        forall|k: int|
            0 <= k < shares.len() ==> MIN_TILING_SIZE <= #[trigger] as_split_shares(shares)[k],
{
    assert forall|k: int| 0 <= k < shares.len() implies 0 <= #[trigger] shares[k] by {
        assert(MIN_TILING_SIZE <= shares[k]);
    }
    lemma_total_nonnegative(shares);
    let w = total(shares);
    assert(MIN_TILING_SIZE <= shares[0] <= w);
    let after = as_split_shares(shares);
    assert forall|k: int| 0 <= k < shares.len() implies #[trigger] after[k] == part(
        WHOLE as int,
        shares,
        k,
    ) && MIN_TILING_SIZE <= after[k] by {
        let q = part(WHOLE as int, shares, k);
        let x = shares[k] as int;
        part_is_proportional(WHOLE as int, shares, k);
        assert(x <= q && q <= WHOLE + 1) by (nonlinear_arith)
            requires
                (q - 1) * w < WHOLE * x,
                WHOLE * x < (q + 1) * w,
                0 < x <= w,
                w <= WHOLE,
                WHOLE == 1073741824,
        ;
        assert(MIN_TILING_SIZE <= shares[k]);
    }
    parts_add_up(WHOLE as int, shares, after);
}

/// The shares of tiles that were wrapped in a split.
pub proof fn lemma_wrapped_shares(t: Tree, split: usize, parent: usize, ids: Seq<usize>, k: int)
    requires
        wf(t),
        valid(t, split),
        valid(t, parent),
        kind(t, split) == ContainerKind::Split,
        t[split as int].parent is None,
        t[split as int].children.len() == 0,
        split != parent,
        are_tiles_of(t, ids, parent),
        0 <= k < ids.len(),
    ensures
        share_of(wrapped(t, split, parent, ids), ids[k]) == as_split_shares(shares_of(t, ids))[k],
{
    reveal(wrapped);
    let u = wrapped(t, split, parent, ids);
    let after = as_split_shares(shares_of(t, ids));
    lemma_wrapped(t, split, parent, ids);
    lemma_tiles(t, parent);
    assert forall|j: int| 0 <= j < ids.len() implies valid(t, #[trigger] ids[j]) by {
        assert(tiles(t, parent).contains(ids[j]));
    }
    lemma_with_shares(t, ids, after);
    let v = with_shares(t, ids, after);
    assert forall|j: int| 0 <= j < ids.len() implies valid(v, #[trigger] ids[j]) by {
        assert(valid(t, ids[j]));
    }
    lemma_with_parents(v, ids, Some(split));
    let x = ids[k];
    assert(ids.contains(x));
    assert(x != parent && x != split);
    assert(with_parents(v, ids, Some(split))[x as int].data == v[x as int].data);
    assert(u[x as int].data == v[x as int].data);
    assert(share_of(v, ids[k]) == after[k]);
}

/// The share of a split that tiles were wrapped in.
pub proof fn lemma_wrapped_split(t: Tree, split: usize, parent: usize, ids: Seq<usize>)
    requires
        wf(t),
        valid(t, split),
        valid(t, parent),
        split != parent,
        are_tiles_of(t, ids, parent),
        0 <= total(shares_of(t, ids)) <= WHOLE,
    ensures
        share_of(wrapped(t, split, parent, ids), split) == total(shares_of(t, ids)),
{
    reveal(wrapped);
    let after = as_split_shares(shares_of(t, ids));
    lemma_tiles(t, parent);
    assert forall|j: int| 0 <= j < ids.len() implies valid(t, #[trigger] ids[j]) by {
        assert(tiles(t, parent).contains(ids[j]));
    }
    lemma_with_shares(t, ids, after);
    let v = with_shares(t, ids, after);
    assert forall|j: int| 0 <= j < ids.len() implies valid(v, #[trigger] ids[j]) by {
        assert(valid(t, ids[j]));
    }
    lemma_with_parents(v, ids, Some(split));
}

/// Wrapping tiles in a split keeps what is shared: the split takes over what the tiles had, and the
/// tiles share one whole inside it.
#[verifier::spinoff_prover]
pub proof fn wrapping_keeps_wholes(t: Tree, split: usize, parent: usize, ids: Seq<usize>)
    requires
        wf(t),
        valid(t, split),
        valid(t, parent),
        kind(t, split) == ContainerKind::Split,
        kind(t, parent).is_direction(),
        t[split as int].parent is None,
        t[split as int].children.len() == 0,
        split != parent,
        are_tiles_of(t, ids, parent),
        ids.len() > 0,
        all_whole(t),
    ensures
        all_whole(wrapped(t, split, parent, ids)),
{
    reveal(wrapped);
    let u = wrapped(t, split, parent, ids);
    wrapping_keeps_tree(t, split, parent, ids);
    lemma_wrapped(t, split, parent, ids);
    let before = tiles(t, parent);
    let shares = shares_of(t, ids);
    lemma_tiles_are(t, parent);
    assert(whole_at(t, parent));
    assert(before.contains(ids[0]));
    lemma_total_filtered(t, before, ids);
    lemma_filtered(before, ids, true);
    lemma_filtered(before, ids, false);
    let rest = filtered(before, ids, false);
    assert forall|y: usize| #[trigger] filtered(before, ids, true).contains(y) <==> ids.contains(
        y,
    ) by {
        if ids.contains(y) {
            let k = choose|k: int| 0 <= k < ids.len() && ids[k] == y;
            assert(before.contains(ids[k]));
        }
    }
    lemma_same_items(t, filtered(before, ids, true), ids);
    assert forall|k: int| 0 <= k < shares.len() implies MIN_TILING_SIZE <= #[trigger] shares[k] by {
        assert(before.contains(ids[k]));
        let j = choose|j: int| 0 <= j < before.len() && before[j] == ids[k];
        assert(MIN_TILING_SIZE <= share_of(t, before[j]));
    }
    let left = shares_of(t, rest);
    assert forall|k: int| 0 <= k < left.len() implies MIN_TILING_SIZE <= #[trigger] left[k] by {
        assert(rest.contains(rest[k]));
        assert(before.contains(rest[k]));
        let j = choose|j: int| 0 <= j < before.len() && before[j] == rest[k];
        assert(MIN_TILING_SIZE <= share_of(t, before[j]));
    }
    assert forall|k: int| 0 <= k < left.len() implies 0 <= #[trigger] left[k] by {
        assert(MIN_TILING_SIZE <= left[k]);
    }
    assert forall|k: int| 0 <= k < shares.len() implies 0 <= #[trigger] shares[k] by {
        assert(MIN_TILING_SIZE <= shares[k]);
    }
    lemma_total_nonnegative(left);
    lemma_total_nonnegative(shares);
    assert(MIN_TILING_SIZE <= shares[0] <= total(shares));
    assert(total(shares) <= WHOLE);
    lemma_wrapped_split(t, split, parent, ids);
    lemma_as_split_shares(shares);
    assert forall|q: usize| q < u.len() implies #[trigger] whole_at(u, q) by {
        assert(whole_at(t, q));
        lemma_tiles_are(t, q);
        lemma_tiles_are(u, q);
        lemma_tiles_are(t, split);
        let now = tiles(u, q);
        assert(tiles(t, split) =~= Seq::<usize>::empty());
        if q == split {
            assert forall|y: usize| #[trigger] now.contains(y) <==> ids.contains(y) by {
                assert(now.contains(y) <==> valid(u, y) && is_tile(u, y) && u[y as int].parent
                    == Some(q));
                assert(tiles(t, split).contains(y) <==> valid(t, y) && is_tile(t, y)
                    && t[y as int].parent == Some(split));
                if ids.contains(y) {
                    let k = choose|k: int| 0 <= k < ids.len() && ids[k] == y;
                    assert(before.contains(ids[k]));
                }
            }
            lemma_same_items(u, now, ids);
            assert(shares_of(u, ids) =~= as_split_shares(shares)) by {
                assert forall|k: int| 0 <= k < ids.len() implies share_of(u, #[trigger] ids[k])
                    == as_split_shares(shares)[k] by {
                    lemma_wrapped_shares(t, split, parent, ids, k);
                }
            }
            assert forall|k: int| 0 <= k < now.len() implies MIN_TILING_SIZE <= share_of(
                u,
                #[trigger] now[k],
            ) by {
                assert(now.contains(now[k]));
                assert(ids.contains(now[k]));
                let j = choose|j: int| 0 <= j < ids.len() && ids[j] == now[k];
                assert(MIN_TILING_SIZE <= shares_of(u, ids)[j]);
            }
        } else if q == parent {
            let b = rest.push(split);
            assert(!rest.contains(split));
            assert forall|y: usize| #[trigger] now.contains(y) <==> b.contains(y) by {
                lemma_push_contains(rest, split, y);
                assert(now.contains(y) <==> valid(u, y) && is_tile(u, y) && u[y as int].parent
                    == Some(q));
                assert(before.contains(y) <==> valid(t, y) && is_tile(t, y) && t[y as int].parent
                    == Some(parent));
                assert(rest.contains(y) <==> before.contains(y) && !ids.contains(y));
            }
            lemma_same_items(u, now, b);
            assert forall|k: int| 0 <= k < rest.len() implies share_of(u, #[trigger] rest[k])
                == share_of(t, rest[k]) by {
                assert(rest.contains(rest[k]));
                assert(before.contains(rest[k]));
            }
            assert(shares_of(u, b) =~= left.push(share_of(u, split)));
            assert(left.push(share_of(u, split)).drop_last() =~= left);
            assert forall|k: int| 0 <= k < now.len() implies MIN_TILING_SIZE <= share_of(
                u,
                #[trigger] now[k],
            ) by {
                assert(now.contains(now[k]));
                assert(b.contains(now[k]));
                lemma_push_contains(rest, split, now[k]);
                if rest.contains(now[k]) {
                    let j = choose|j: int| 0 <= j < rest.len() && rest[j] == now[k];
                    assert(MIN_TILING_SIZE <= left[j]);
                }
            }
        } else {
            assert forall|y: usize| #[trigger] now.contains(y) <==> tiles(t, q).contains(y) by {
                assert(now.contains(y) <==> valid(u, y) && is_tile(u, y) && u[y as int].parent
                    == Some(q));
                assert(tiles(t, q).contains(y) <==> valid(t, y) && is_tile(t, y)
                    && t[y as int].parent == Some(q));
                if ids.contains(y) {
                    let k = choose|k: int| 0 <= k < ids.len() && ids[k] == y;
                    assert(before.contains(ids[k]));
                }
            }
            assert forall|y: usize| #[trigger] tiles(t, q).contains(y) implies share_of(u, y)
                == share_of(t, y) by {
                if ids.contains(y) {
                    let k = choose|k: int| 0 <= k < ids.len() && ids[k] == y;
                    assert(before.contains(ids[k]));
                }
                if y == parent {
                    assert(u[parent as int].data == t[parent as int].data);
                }
            }
            lemma_whole_moved(t, u, q);
        }
    }
}

proof fn lemma_total_joined(t: Tree, a: Seq<usize>, b: Seq<usize>)
    ensures
        total(shares_of(t, a + b)) == total(shares_of(t, a)) + total(shares_of(t, b)),
    decreases b.len(),
{
    if b.len() == 0 {
        assert(a + b =~= a);
        assert(shares_of(t, b) =~= Seq::<i64>::empty());
        assert(total(Seq::<i64>::empty()) == 0);
    } else {
        let front = b.drop_last();
        lemma_total_joined(t, a, front);
        assert((a + b).drop_last() =~= a + front);
        assert(shares_of(t, a + b).drop_last() =~= shares_of(t, a + front));
        assert(shares_of(t, b).drop_last() =~= shares_of(t, front));
    }
}

/// Scaled shares add up to the scale, up to each place.
proof fn lemma_scaled(shares: Seq<i64>, by: int, k: int)
    requires
        0 <= by <= WHOLE,
        0 <= k <= shares.len(),
        forall|i: int| 0 <= i < shares.len() ==> 0 <= #[trigger] shares[i],
        total(shares) == WHOLE,
    ensures
        total(scaled(shares, by).take(k)) == (by * total(shares.take(k))) / (WHOLE as int),
    decreases k,
{
    if k == 0 {
        assert(shares.take(0) =~= Seq::<i64>::empty());
        assert(scaled(shares, by).take(0) =~= Seq::<i64>::empty());
        assert(total(Seq::<i64>::empty()) == 0);
        assert((by * 0) / (WHOLE as int) == 0);
    } else {
        lemma_scaled(shares, by, k - 1);
        lemma_total_take(scaled(shares, by), k - 1);
        lemma_total_take(shares, k - 1);
        lemma_take_bounds(shares, k);
        lemma_take_bounds(shares, k - 1);
        let a = total(shares.take(k));
        let b = total(shares.take(k - 1));
        assert(0 <= by * a && by * a <= WHOLE * WHOLE) by (nonlinear_arith)
            requires
                0 <= by <= WHOLE,
                0 <= a <= WHOLE,
        ;
        assert(0 <= by * b && by * b <= WHOLE * WHOLE) by (nonlinear_arith)
            requires
                0 <= by <= WHOLE,
                0 <= b <= WHOLE,
        ;
        assert(WHOLE * WHOLE == 1152921504606846976);
        assert(0 <= (by * a) / (WHOLE as int) <= WHOLE);
        assert(0 <= (by * b) / (WHOLE as int) <= WHOLE);
    }
}

proof fn lemma_take_bounds(shares: Seq<i64>, k: int)
    requires
        0 <= k <= shares.len(),
        forall|i: int| 0 <= i < shares.len() ==> 0 <= #[trigger] shares[i],
    ensures
        0 <= total(shares.take(k)) <= total(shares),
    decreases shares.len() - k,
{
    let some = shares.take(k);
    assert forall|i: int| 0 <= i < some.len() implies 0 <= #[trigger] some[i] by {
        assert(shares[i] >= 0);
    }
    lemma_total_nonnegative(some);
    if k == shares.len() {
        assert(some =~= shares);
    } else {
        lemma_take_bounds(shares, k + 1);
        lemma_total_take(shares, k);
        assert(shares[k] >= 0);
    }
}

/// Flattening a split keeps what the tiles around it share together: its tiles share what the split
/// had.
#[verifier::spinoff_prover]
pub proof fn flattening_keeps_total(t: Tree, split: usize)
    requires
        wf(t),
        valid(t, split),
        kind(t, split) == ContainerKind::Split,
        t[split as int].parent is Some,
        tiles(t, split).len() > 0,
        all_whole(t),
    ensures
        ({
            let p = t[split as int].parent->0;
            total(shares_of(flattened(t, split), tiles(flattened(t, split), p))) == WHOLE
        }),
{
    reveal(flattened);
    let p = t[split as int].parent->0;
    let u = flattened(t, split);
    let kids = tiles(t, split);
    let shares = shares_of(t, kids);
    let by = share_of(t, split) as int;
    lemma_parent_facts(t, split);
    lemma_flattened(t, split);
    flattening_keeps_tree(t, split);
    lemma_tiles_are(t, p);
    lemma_tiles_are(u, p);
    lemma_tiles_are(t, split);
    assert(whole_at(t, p));
    assert(whole_at(t, split));
    lemma_sibling_shares(t, split);
    assert forall|k: int| 0 <= k < shares.len() implies 0 <= #[trigger] shares[k] by {
        assert(MIN_TILING_SIZE <= share_of(t, kids[k]));
    }
    let after = scaled(shares, by);
    lemma_scaled(shares, by, shares.len() as int);
    assert(shares.take(shares.len() as int) =~= shares);
    assert(after.take(shares.len() as int) =~= after);
    assert((by * WHOLE) / (WHOLE as int) == by) by (nonlinear_arith)
        requires
            WHOLE == 1073741824,
    ;
    let others = tile_siblings(t, split);
    lemma_without(tiles(t, p), split);
    lemma_tile_siblings(t, split);
    let both = others + kids;
    assert forall|y: usize| #[trigger] both.contains(y) <==> others.contains(y) || kids.contains(
        y,
    ) by {
        lemma_joined_contains(others, kids, y);
    }
    assert(both.no_duplicates()) by {
        assert forall|i: int, j: int| 0 <= i < both.len() && 0 <= j < both.len() && i
            != j implies both[i] != both[j] by {
            if i < others.len() && j >= others.len() {
                assert(others.contains(both[i]));
                assert(kids.contains(both[j]));
            }
            if j < others.len() && i >= others.len() {
                assert(others.contains(both[j]));
                assert(kids.contains(both[i]));
            }
        }
    }
    let now = tiles(u, p);
    assert forall|y: usize| #[trigger] now.contains(y) <==> both.contains(y) by {
        assert(now.contains(y) <==> valid(u, y) && is_tile(u, y) && u[y as int].parent == Some(p));
        assert(tiles(t, p).contains(y) <==> valid(t, y) && is_tile(t, y) && t[y as int].parent
            == Some(p));
        assert(kids.contains(y) <==> valid(t, y) && is_tile(t, y) && t[y as int].parent == Some(
            split,
        ));
        if valid(t, y) && t[y as int].parent == Some(split) {
            lemma_parent_facts(t, y);
        }
        if valid(t, y) && t[split as int].children.contains(y) {
            let k = choose|k: int|
                0 <= k < t[split as int].children.len() && t[split as int].children[k] == y;
            assert(valid(t, t[split as int].children[k]));
        }
        if y == p && t[p as int].parent == Some(p) {
            lemma_parent_facts(t, p);
        }
    }
    lemma_same_items(u, now, both);
    lemma_total_joined(u, others, kids);
    assert(shares_of(u, others) =~= shares_of(t, others)) by {
        assert forall|k: int| 0 <= k < others.len() implies share_of(u, #[trigger] others[k])
            == share_of(t, others[k]) by {
            let y = others[k];
            assert(t[y as int].parent == Some(p));
            if t[split as int].children.contains(y) {
                let j = choose|j: int|
                    0 <= j < t[split as int].children.len() && t[split as int].children[j] == y;
                assert(valid(t, t[split as int].children[j]));
            }
            if y == p {
                lemma_parent_facts(t, p);
            }
        }
    }
    assert(shares_of(u, kids) =~= after) by {
        assert forall|k: int| 0 <= k < kids.len() implies share_of(u, #[trigger] kids[k])
            == after[k] by {
            lemma_flattened_share(t, split, k);
        }
    }
}

proof fn lemma_flattened_share(t: Tree, split: usize, k: int)
    requires
        wf(t),
        valid(t, split),
        t[split as int].parent is Some,
        0 <= k < tiles(t, split).len(),
    ensures
        share_of(flattened(t, split), tiles(t, split)[k]) == scaled(
            shares_of(t, tiles(t, split)),
            share_of(t, split) as int,
        )[k],
{
    reveal(flattened);
    let p = t[split as int].parent->0;
    let u = flattened(t, split);
    let kids = tiles(t, split);
    let all = t[split as int].children;
    let after = scaled(shares_of(t, kids), share_of(t, split) as int);
    lemma_flattened(t, split);
    lemma_tiles(t, split);
    lemma_tiles_in(t, all);
    lemma_children(t, split);
    lemma_with_shares(t, kids, after);
    let v = with_shares(t, kids, after);
    assert forall|j: int| 0 <= j < all.len() implies valid(v, #[trigger] all[j]) by {
        assert(valid(t, t[split as int].children[j]));
    }
    lemma_with_parents(v, all, Some(p));
    let x = kids[k];
    assert(kids.contains(x));
    assert(all.contains(x));
    assert(x != p && x != split);
    assert(with_parents(v, all, Some(p))[x as int].data == v[x as int].data);
    assert(u[x as int].data == v[x as int].data);
    assert(share_of(v, kids[k]) == after[k]);
}

} // verus!
