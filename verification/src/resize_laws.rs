//! What moving an edge and joining tiles keep.

use vstd::prelude::*;

use crate::allocation::{allocation, allocation_is_fair};
use crate::edge_resize::{
    divider, divider_at, edge_change, edge_resized, lemma_neighbors, neighbors_of,
};
use crate::frame_laws::{lemma_same_twice, lemma_shares_only, same_but_shares};
use crate::geometry::TilingDirection;
use crate::lists::{lemma_position, position};
use crate::minimum_laws::{
    resizing_keeps_total_and_minimums, share_a_whole, share_for_minimum_is_enough,
};
use crate::placement::{
    available, available_of, gap_along, length_along, rect_of, share_pixels, tile_length,
    tile_start, PIXEL_TOLERANCE,
};
use crate::shares::{lemma_total_nonnegative, taken, total, WHOLE};
use crate::tiling_minimums::{
    capacities_of, change_weights, floor_share, insertion_plan, insertion_weights, minimum_of,
    needed_shares, resize_change, share_for, tiles_gap, too_long_across, SUBPIXELS,
};
use crate::tree::{
    is_tile, kind, share_of, shares_of, tile_siblings, tiles, valid, wf, with_shares, Tree,
};
use crate::tree_laws::{
    lemma_parent_facts, lemma_tiles, lemma_tiles_in, lemma_tiles_same_kinds, lemma_with_shares,
};

verus! {

pub proof fn lemma_divider(t: Tree, id: usize, horizontal: bool, leading: bool, fuel: nat)
    requires
        wf(t),
        valid(t, id),
        is_tile(t, id),
    ensures
        divider_at(t, id, horizontal, leading, fuel) matches Some(c) ==> valid(t, c) && is_tile(
            t,
            c,
        ) && t[c as int].parent is Some && neighbors_of(
            t,
            c,
            t[c as int].parent->0,
            leading,
        ).len() > 0,
    decreases fuel,
{
    if let Some(p) = t[id as int].parent {
        lemma_parent_facts(t, id);
        if fuel > 0 && is_tile(t, p) {
            lemma_divider(t, p, horizontal, leading, (fuel - 1) as nat);
        }
    }
}

/// Whether the tiles at a divider have sound shares: none of them negative, and no more than a
/// whole between the tile and its neighbors.
pub open spec fn sound_at_divider(t: Tree, c: usize, leading: bool) -> bool {
    share_a_whole(t, c, neighbors_of(t, c, t[c as int].parent->0, leading))
}

pub proof fn lemma_edge_untouched(
    t: Tree,
    id: usize,
    horizontal: bool,
    leading: bool,
    delta: int,
)
    requires
        wf(t),
        valid(t, id),
        is_tile(t, id),
    ensures
        edge_resized(t, id, horizontal, leading, delta) matches Ok(Some((u, p))) ==> {
            let c = divider(t, id, horizontal, leading)->0;
            let neighbors = neighbors_of(t, c, p, leading);
            &&& divider(t, id, horizontal, leading) is Some
            &&& t[c as int].parent == Some(p)
            &&& u.len() == t.len()
            &&& forall|i: int|
                0 <= i < t.len() && i != c && !neighbors.contains(i as usize) ==> #[trigger] u[i]
                    == t[i]
            &&& forall|i: int|
                0 <= i < t.len() ==> (#[trigger] u[i]).parent == t[i].parent && u[i].children
                    == t[i].children && u[i].data.kind == t[i].data.kind
            &&& u[c as int].data.inner_gaps == t[c as int].data.inner_gaps
        },
{
    lemma_divider(t, id, horizontal, leading, t.len());
    if let Ok(Some((u, p))) = edge_resized(t, id, horizontal, leading, delta) {
        let c = divider(t, id, horizontal, leading)->0;
        let neighbors = neighbors_of(t, c, p, leading);
        lemma_neighbors(t, c, leading);
        let available = available_of(t, c, horizontal)->Ok_0;
        let capacities = capacities_of(t, neighbors, horizontal, available);
        let change = resize_change(
            share_of(t, c) as int,
            share_of(t, c) + edge_change(delta, leading, available),
            floor_share(t, c, horizontal, available),
            total(capacities),
        );
        let shares = shares_of(t, neighbors);
        let after = taken(shares, change, change_weights(change, shares, capacities));
        lemma_with_shares(t, neighbors, after);
        let v = with_shares(t, neighbors, after);
        assert(v[c as int] == t[c as int]);
    }
}

/// Moving an edge changes nothing of any container but shares.
pub proof fn moved_edge_changes_shares_only(
    t: Tree,
    id: usize,
    horizontal: bool,
    leading: bool,
    delta: int,
)
    requires
        wf(t),
        valid(t, id),
        is_tile(t, id),
    ensures
        edge_resized(t, id, horizontal, leading, delta) matches Ok(Some((u, p))) ==> u.len()
            == t.len() && same_but_shares(t, u),
{
    lemma_divider(t, id, horizontal, leading, t.len());
    if let Ok(Some((u, p))) = edge_resized(t, id, horizontal, leading, delta) {
        let c = divider(t, id, horizontal, leading)->0;
        let neighbors = neighbors_of(t, c, p, leading);
        lemma_neighbors(t, c, leading);
        let available = available_of(t, c, horizontal)->Ok_0;
        let capacities = capacities_of(t, neighbors, horizontal, available);
        let change = resize_change(
            share_of(t, c) as int,
            share_of(t, c) + edge_change(delta, leading, available),
            floor_share(t, c, horizontal, available),
            total(capacities),
        );
        let shares = shares_of(t, neighbors);
        let after = taken(shares, change, change_weights(change, shares, capacities));
        lemma_shares_only(t, neighbors, after);
        lemma_same_twice(t, with_shares(t, neighbors, after), u);
    }
}

/// When an edge of a tile is moved, what the tile gains its neighbors on that side lose, none of
/// them falls below the share of its minimum length or further below than it was, and no other
/// container changes: the tiles on the opposite side keep their shares.
pub proof fn moved_edge_keeps_the_opposite_side(
    t: Tree,
    id: usize,
    horizontal: bool,
    leading: bool,
    delta: int,
)
    requires
        wf(t),
        valid(t, id),
        is_tile(t, id),
        divider(t, id, horizontal, leading) matches Some(c) ==> sound_at_divider(t, c, leading),
    ensures
        edge_resized(t, id, horizontal, leading, delta) matches Ok(Some((u, p))) ==> {
            let c = divider(t, id, horizontal, leading)->0;
            let neighbors = neighbors_of(t, c, p, leading);
            let available = available_of(t, c, horizontal)->Ok_0;
            &&& share_of(u, c) + total(shares_of(u, neighbors)) == share_of(t, c) + total(
                shares_of(t, neighbors),
            )
            &&& share_of(u, c) >= floor_share(t, c, horizontal, available)
            &&& forall|k: int|
                0 <= k < neighbors.len() ==> share_of(u, #[trigger] neighbors[k]) >= floor_share(
                    t,
                    neighbors[k],
                    horizontal,
                    available,
                )
            &&& forall|i: int|
                0 <= i < t.len() && i != c && !neighbors.contains(i as usize) ==> #[trigger] u[i]
                    == t[i]
        },
{
    lemma_divider(t, id, horizontal, leading, t.len());
    lemma_edge_untouched(t, id, horizontal, leading, delta);
    if let Ok(Some((u, p))) = edge_resized(t, id, horizontal, leading, delta) {
        let c = divider(t, id, horizontal, leading)->0;
        let neighbors = neighbors_of(t, c, p, leading);
        lemma_neighbors(t, c, leading);
        let available = available_of(t, c, horizontal)->Ok_0;
        resizing_keeps_total_and_minimums(
            t,
            c,
            neighbors,
            share_of(t, c) + edge_change(delta, leading, available),
            horizontal,
            available,
        );
    }
}

pub proof fn lemma_start_untouched(
    t: Tree,
    u: Tree,
    p: usize,
    k: int,
    length: int,
    horizontal: bool,
)
    requires
        wf(t),
        valid(t, p),
        u.len() == t.len(),
        0 <= k < tiles(t, p).len(),
        tiles(u, p) == tiles(t, p),
        forall|j: int| 0 <= j < k ==> u[#[trigger] tiles(t, p)[j] as int] == t[tiles(t, p)[j] as int],
        u[tiles(t, p)[k] as int].data.inner_gaps == t[tiles(t, p)[k] as int].data.inner_gaps,
    ensures
        tile_start(u, tiles(t, p), k, length, horizontal) == tile_start(
            t,
            tiles(t, p),
            k,
            length,
            horizontal,
        ),
    decreases k,
{
    if k > 0 {
        let ids = tiles(t, p);
        lemma_tiles(t, p);
        lemma_start_untouched(t, u, p, k - 1, length, horizontal);
        let id = ids[k - 1];
        assert(u[tiles(t, p)[k - 1] as int] == t[tiles(t, p)[k - 1] as int]);
        assert(valid(t, ids[k - 1]));
        assert(t[id as int].parent == Some(p));
        assert(tile_siblings(u, id) == tile_siblings(t, id));
    }
}

/// When the right or lower edge of a tile is moved, its left or upper edge stays where it is, to
/// the pixel, and so do the tiles before it.
pub proof fn trailing_move_keeps_start(
    t: Tree,
    id: usize,
    horizontal: bool,
    delta: int,
    k: int,
    length: int,
)
    requires
        wf(t),
        valid(t, id),
        is_tile(t, id),
        divider(t, id, horizontal, false) matches Some(c) ==> 0 <= k <= position(
            tiles(t, t[c as int].parent->0),
            c,
        ),
    ensures
        edge_resized(t, id, horizontal, false, delta) matches Ok(Some((u, p))) ==> {
            &&& tiles(u, p) == tiles(t, p)
            &&& tile_start(u, tiles(u, p), k, length, horizontal) == tile_start(
                t,
                tiles(t, p),
                k,
                length,
                horizontal,
            )
        },
{
    lemma_divider(t, id, horizontal, false, t.len());
    lemma_edge_untouched(t, id, horizontal, false, delta);
    if let Ok(Some((u, p))) = edge_resized(t, id, horizontal, false, delta) {
        let c = divider(t, id, horizontal, false)->0;
        let neighbors = neighbors_of(t, c, p, false);
        let ids = tiles(t, p);
        lemma_parent_facts(t, c);
        lemma_tiles(t, p);
        lemma_tiles_in(t, t[p as int].children);
        lemma_position(ids, c);
        assert(ids.contains(c));
        let place = position(ids, c);
        assert(u[p as int].children == t[p as int].children);
        let all = t[p as int].children;
        assert forall|j: int| 0 <= j < all.len() implies kind(t, #[trigger] all[j]) == kind(
            u,
            all[j],
        ) by {
            assert(valid(t, t[p as int].children[j]));
            assert(u[all[j] as int].data.kind == t[all[j] as int].data.kind);
        }
        lemma_tiles_same_kinds(t, u, all);
        assert forall|j: int| 0 <= j < place implies u[#[trigger] ids[j] as int]
            == t[ids[j] as int] by {
            assert(valid(t, ids[j]));
            if neighbors.contains(ids[j]) {
                let m = choose|m: int| 0 <= m < neighbors.len() && neighbors[m] == ids[j];
                assert(neighbors[m] == ids[m + place + 1]);
            }
            assert(ids[j] != c);
        }
        lemma_start_untouched(t, u, p, k, length, horizontal);
    }
}

/// Where a tile ends, up to less than one pixel for it and each tile before it: what their shares
/// come to, and the gaps.
pub proof fn lemma_end_between(
    t: Tree,
    ids: Seq<usize>,
    k: int,
    length: int,
    horizontal: bool,
    gap: int,
    rest: int,
)
    requires
        0 <= k < ids.len(),
        0 <= rest <= i32::MAX,
        forall|j: int|
            0 <= j <= k ==> {
                &&& available(t, #[trigger] ids[j], length, horizontal) == rest
                &&& gap_along(t, ids[j], horizontal) == gap
                &&& 0 <= share_of(t, ids[j]) <= WHOLE
            },
    ensures
        ({
            let end = tile_start(t, ids, k, length, horizontal) + tile_length(
                t,
                ids[k],
                length,
                horizontal,
            ) - k * gap;
            let shared = rest * total(shares_of(t, ids.take(k + 1)));
            &&& end * WHOLE <= shared + (k + 1) * PIXEL_TOLERANCE
            &&& end * WHOLE > shared - (k + 1) * (WHOLE - PIXEL_TOLERANCE)
        }),
    decreases k,
{
    let whole = WHOLE as int;
    let tolerance = PIXEL_TOLERANCE as int;
    let id = ids[k];
    let s = share_of(t, id) as int;
    let own = tile_length(t, id, length, horizontal);
    assert(available(t, ids[k], length, horizontal) == rest);
    assert(0 <= s * rest && s * rest <= whole * rest) by (nonlinear_arith)
        requires
            0 <= s <= whole,
            0 <= rest,
    ;
    assert(own == (s * rest + tolerance) / whole);
    assert(own * whole <= s * rest + tolerance && own * whole > s * rest + tolerance - whole)
        by (nonlinear_arith)
        requires
            own == (s * rest + tolerance) / whole,
            whole == 1073741824,
    ;
    let shares = shares_of(t, ids.take(k + 1));
    assert(shares.drop_last() =~= shares_of(t, ids.take(k)));
    let before = total(shares_of(t, ids.take(k)));
    assert(total(shares) == before + s);
    assert(rest * (before + s) == rest * before + s * rest) by (nonlinear_arith);
    let start = tile_start(t, ids, k, length, horizontal);
    if k > 0 {
        lemma_end_between(t, ids, k - 1, length, horizontal, gap, rest);
        assert(ids.take(k - 1 + 1) =~= ids.take(k));
        assert(gap_along(t, ids[k], horizontal) == gap);
        let last = tile_start(t, ids, k - 1, length, horizontal) + tile_length(
            t,
            ids[k - 1],
            length,
            horizontal,
        );
        assert(start == last + gap);
        assert(start - k * gap == last - (k - 1) * gap) by (nonlinear_arith)
            requires
                start == last + gap,
        ;
    } else {
        assert(shares_of(t, ids.take(0)) =~= Seq::<i64>::empty());
        assert(rest * 0 == 0 && 0 * gap == 0) by (nonlinear_arith);
    }
}

/// Shares that are not negative and make up no more than one whole are each no more than that.
pub proof fn lemma_share_a_whole(t: Tree, id: usize, neighbors: Seq<usize>)
    requires
        share_a_whole(t, id, neighbors),
    ensures
        share_of(t, id) <= WHOLE,
        forall|k: int| 0 <= k < neighbors.len() ==> share_of(t, #[trigger] neighbors[k]) <= WHOLE,
{
    let shares = shares_of(t, neighbors);
    assert forall|k: int| 0 <= k < shares.len() implies 0 <= #[trigger] shares[k] by {
        assert(0 <= share_of(t, neighbors[k]));
    }
    lemma_total_nonnegative(shares);
    assert forall|k: int| 0 <= k < neighbors.len() implies share_of(t, #[trigger] neighbors[k])
        <= WHOLE by {
        assert(shares[k] <= total(shares));
    }
}

/// Where a tile ends, from the shares and the gaps of a row or column.
proof fn lemma_end_of_tile(
    t: Tree,
    c: usize,
    p: usize,
    k: int,
    length: int,
    horizontal: bool,
    gap: int,
)
    requires
        0 <= k < tiles(t, p).len(),
        tiles(t, p)[k] == c,
        tiles(t, p).no_duplicates(),
        share_a_whole(t, c, tiles(t, p).take(k)),
        0 <= length - gap * (tiles(t, p).len() - 1) <= i32::MAX,
        forall|j: int|
            0 <= j < tiles(t, p).len() ==> gap_along(t, #[trigger] tiles(t, p)[j], horizontal)
                == gap,
        forall|j: int|
            0 <= j < tiles(t, p).len() ==> t[#[trigger] tiles(t, p)[j] as int].parent == Some(p),
    ensures
        ({
            let end = tile_start(t, tiles(t, p), k, length, horizontal) + tile_length(
                t,
                c,
                length,
                horizontal,
            ) - k * gap;
            let rest = length - gap * (tiles(t, p).len() - 1);
            let shared = rest * (share_of(t, c) + total(shares_of(t, tiles(t, p).take(k))));
            &&& end * WHOLE <= shared + (k + 1) * PIXEL_TOLERANCE
            &&& end * WHOLE > shared - (k + 1) * (WHOLE - PIXEL_TOLERANCE)
        }),
{
    let ids = tiles(t, p);
    let rest = length - gap * (ids.len() - 1);
    let before = ids.take(k);
    lemma_share_a_whole(t, c, before);
    assert forall|j: int| 0 <= j <= k implies {
        &&& available(t, #[trigger] ids[j], length, horizontal) == rest
        &&& gap_along(t, ids[j], horizontal) == gap
        &&& 0 <= share_of(t, ids[j]) <= WHOLE
    } by {
        assert(t[tiles(t, p)[j] as int].parent == Some(p));
        assert(gap_along(t, tiles(t, p)[j], horizontal) == gap);
        assert(ids.contains(ids[j]));
        crate::lists::lemma_without(ids, ids[j]);
        if j < k {
            assert(before[j] == ids[j]);
            assert(0 <= share_of(t, before[j]) <= WHOLE);
        }
    }
    lemma_end_between(t, ids, k, length, horizontal, gap, rest);
    assert(shares_of(t, ids.take(k + 1)).drop_last() =~= shares_of(t, before));
}

/// When the left or upper edge of a tile is moved, its right or lower edge stays where it is, up to
/// one pixel for each tile before it that rounding may take or give.
pub proof fn leading_move_keeps_end(
    t: Tree,
    id: usize,
    horizontal: bool,
    delta: int,
    length: int,
    gap: int,
)
    requires
        wf(t),
        valid(t, id),
        is_tile(t, id),
        divider(t, id, horizontal, true) matches Some(c) ==> {
            let ids = tiles(t, t[c as int].parent->0);
            &&& sound_at_divider(t, c, true)
            &&& 0 <= length - gap * (ids.len() - 1) <= i32::MAX
            &&& forall|j: int|
                0 <= j < ids.len() ==> gap_along(t, #[trigger] ids[j], horizontal) == gap
        },
    ensures
        edge_resized(t, id, horizontal, true, delta) matches Ok(Some((u, p))) ==> {
            let c = divider(t, id, horizontal, true)->0;
            let ids = tiles(t, p);
            let k = position(ids, c);
            let before = tile_start(t, ids, k, length, horizontal) + tile_length(
                t,
                c,
                length,
                horizontal,
            );
            let after = tile_start(u, ids, k, length, horizontal) + tile_length(
                u,
                c,
                length,
                horizontal,
            );
            &&& tiles(u, p) == ids
            &&& -k <= after - before <= k
        },
{
    lemma_divider(t, id, horizontal, true, t.len());
    lemma_edge_untouched(t, id, horizontal, true, delta);
    moved_edge_keeps_the_opposite_side(t, id, horizontal, true, delta);
    if let Ok(Some((u, p))) = edge_resized(t, id, horizontal, true, delta) {
        let c = divider(t, id, horizontal, true)->0;
        let neighbors = neighbors_of(t, c, p, true);
        let ids = tiles(t, p);
        lemma_parent_facts(t, c);
        lemma_tiles(t, p);
        lemma_tiles_in(t, t[p as int].children);
        lemma_position(ids, c);
        assert(ids.contains(c));
        let k = position(ids, c);
        let all = t[p as int].children;
        assert(u[p as int].children == t[p as int].children);
        assert forall|j: int| 0 <= j < all.len() implies kind(t, #[trigger] all[j]) == kind(
            u,
            all[j],
        ) by {
            assert(valid(t, t[p as int].children[j]));
            assert(u[all[j] as int].data.kind == t[all[j] as int].data.kind);
        }
        lemma_tiles_same_kinds(t, u, all);
        assert(neighbors =~= ids.take(k));
        assert(share_a_whole(u, c, neighbors)) by {
            assert forall|j: int| 0 <= j < neighbors.len() implies 0 <= share_of(
                u,
                #[trigger] neighbors[j],
            ) by {
                assert(0 <= share_of(t, neighbors[j]));
            }
        }
        moved_edge_changes_shares_only(t, id, horizontal, true, delta);
        assert forall|j: int| 0 <= j < ids.len() implies gap_along(
            u,
            #[trigger] ids[j],
            horizontal,
        ) == gap by {
            assert(valid(t, ids[j]));
            assert(gap_along(t, ids[j], horizontal) == gap);
            assert(u[ids[j] as int].data.inner_gaps == t[ids[j] as int].data.inner_gaps);
        }
        assert forall|j: int| 0 <= j < ids.len() implies u[#[trigger] ids[j] as int].parent
            == Some(p) by {
            assert(valid(t, ids[j]));
            assert(t[ids[j] as int].parent == Some(p));
        }
        lemma_end_of_tile(t, c, p, k, length, horizontal, gap);
        lemma_end_of_tile(u, c, p, k, length, horizontal, gap);
    }
}

/// When there is a plan for a window to join the tiles of a container, the planned shares make one
/// whole, each tile and the window get at least their minimum lengths in pixels, and none of them
/// needs more across than there is.
pub proof fn planned_insertion_fits(t: Tree, window: usize, parent: usize, k: int)
    requires
        wf(t),
        valid(t, window),
        valid(t, parent),
        0 <= k <= tiles(t, parent).len(),
        ({
            let horizontal = t[parent as int].data.tiling_direction == TilingDirection::Horizontal;
            0 <= minimum_of(t, tiles(t, parent).push(window)[k], horizontal) <= i32::MAX * SUBPIXELS
        }),
    ensures
        insertion_plan(t, window, parent) matches Ok(Some(plan)) ==> {
            let horizontal = t[parent as int].data.tiling_direction == TilingDirection::Horizontal;
            let all = tiles(t, parent).push(window);
            let rect = rect_of(t, parent)->0;
            let available = length_along(rect, horizontal) - tiles_gap(t, parent, horizontal)
                * tiles(t, parent).len();
            &&& plan.len() == all.len()
            &&& plan[k].0 == all[k]
            &&& total(Seq::new(plan.len(), |i: int| plan[i].1)) == WHOLE
            &&& minimum_of(t, all[k], horizontal) <= share_pixels(plan[k].1 as int, available)
                * SUBPIXELS
            &&& minimum_of(t, all[k], !horizontal) <= length_along(rect, !horizontal) * SUBPIXELS
        },
{
    if let Ok(Some(plan)) = insertion_plan(t, window, parent) {
        let horizontal = t[parent as int].data.tiling_direction == TilingDirection::Horizontal;
        let ids = tiles(t, parent);
        let all = ids.push(window);
        let rect = rect_of(t, parent)->0;
        let available = length_along(rect, horizontal) - tiles_gap(t, parent, horizontal)
            * ids.len();
        let minimums = needed_shares(t, all, horizontal, available);
        let weights = insertion_weights(t, parent);
        assert forall|i: int| 0 <= i < minimums.len() implies 0 <= #[trigger] minimums[i] by {
        }
        allocation_is_fair(weights, minimums);
        let shares = allocation(weights, minimums);
        assert(Seq::new(plan.len(), |i: int| plan[i].1) =~= shares);
        lemma_total_nonnegative(minimums);
        assert(minimums[k] <= total(minimums));
        assert(minimums[k] <= shares[k]);
        let minimum = minimum_of(t, all[k], horizontal);
        assert(share_for(minimum, available) <= minimums[k]);
        share_for_minimum_is_enough(minimum, shares[k] as int, available);
        assert(!too_long_across(t, all, horizontal, length_along(rect, !horizontal)));
        assert(minimum_of(t, all[k], !horizontal) <= length_along(rect, !horizontal) * SUBPIXELS);
    }
}

} // verus!
