//! A window gets the size that is asked for.

use vstd::prelude::*;

use crate::errors::WmError;
use crate::frame_laws::{lemma_same_twice, lemma_shares_only, same_but_shares};
use crate::geometry::{fits_i32, Rect, TilingDirection};
use crate::length_value::{pixels_come_back, shares_give_pixels_back, LengthValue};
use crate::limit_laws::{differ_in_row, lemma_rect_above_row, lemma_row_tiles};
use crate::lists::{lemma_position, position};
use crate::minimum_laws::{resizing_respects_minimums, share_a_whole};
use crate::pending_sync::PendingSyncView;
use crate::placement::{
    available, available_of, length_along, rect_fuel, rect_of, share_pixels, tile_length,
    tile_start, PIXEL_TOLERANCE,
};
use crate::shares::{
    all_ok, clamped_target, share_ok, spread, total, EPSILON, MIN_TILING_SIZE, WHOLE,
};
use crate::tiling_minimums::{
    capacities_of, floor_share, resized_with_minimums, same_axis, self_and_descendants,
    with_minimums, NativeMinimum,
};
use crate::traversal::{descend, enclosing_fuel, lemma_descend_valid, workspace_of};
use crate::tree::{
    is_tile, kind, ranked, resized, share_of, shares_of, tile_siblings, tiles, valid, wf,
    with_share, with_shares, ContainerKind, NodeData, Tree,
};
use crate::tree_laws::{
    lemma_children, lemma_parent_facts, lemma_same_links_wf, lemma_tile_siblings, lemma_tiles,
    lemma_tiles_in, lemma_tiles_same_kinds, lemma_with_shares, resizing_keeps_links, same_links,
};
use crate::trip_laws::{lemma_kinds, lemma_of_kind_some};
use crate::walk_laws::tiles_part_their_container;
use crate::window_size::{length_set, size_changed, sync_before_size, tiled_windows, to_resize_at};

verus! {

/// Whether two trees differ in nothing but what is known of windows, and not in where those float.
pub open spec fn same_places(t: Tree, u: Tree) -> bool {
    &&& u.len() == t.len()
    &&& forall|i: int|
        0 <= i < t.len() ==> {
            &&& (#[trigger] u[i]).parent == t[i].parent
            &&& u[i].children == t[i].children
            &&& u[i].focus == t[i].focus
            &&& (NodeData { window: t[i].data.window, ..u[i].data }) == t[i].data
            &&& u[i].data.window.floating_placement == t[i].data.window.floating_placement
        }
}

/// Noting the smallest sizes of windows leaves all in its place.
proof fn lemma_minimums_keep_places(t: Tree, windows: Seq<usize>, natives: Seq<NativeMinimum>)
    requires
        forall|k: int| 0 <= k < windows.len() ==> valid(t, #[trigger] windows[k]),
    ensures
        same_places(t, with_minimums(t, windows, natives).0),
    decreases windows.len(),
{
    if windows.len() > 0 {
        let front = windows.drop_last();
        assert forall|k: int| 0 <= k < front.len() implies valid(t, #[trigger] front[k]) by {
            assert(front[k] == windows[k]);
        }
        assert(valid(t, windows[windows.len() - 1]));
        lemma_minimums_keep_places(t, windows.drop_last(), natives);
        let before = with_minimums(t, windows.drop_last(), natives).0;
        let after = with_minimums(t, windows, natives).0;
        assert forall|i: int| 0 <= i < t.len() implies {
            &&& (#[trigger] after[i]).parent == t[i].parent
            &&& after[i].children == t[i].children
            &&& after[i].focus == t[i].focus
            &&& (NodeData { window: t[i].data.window, ..after[i].data }) == t[i].data
            &&& after[i].data.window.floating_placement == t[i].data.window.floating_placement
        } by {
            assert(before[i].parent == t[i].parent);
        }
    }
}

proof fn lemma_same_tiles(t: Tree, u: Tree, q: usize)
    requires
        wf(t),
        valid(t, q),
        same_places(t, u),
    ensures
        tiles(u, q) == tiles(t, q),
{
    let all = t[q as int].children;
    lemma_children(t, q);
    assert(u[q as int].children == all);
    assert forall|k: int| 0 <= k < all.len() implies kind(t, #[trigger] all[k]) == kind(
        u,
        all[k],
    ) by {
        assert(valid(t, t[q as int].children[k]));
        assert(u[all[k] as int].parent == t[all[k] as int].parent);
    }
    lemma_tiles_same_kinds(t, u, all);
}

proof fn lemma_same_start(t: Tree, u: Tree, q: usize, k: int, length: int, horizontal: bool)
    requires
        wf(t),
        valid(t, q),
        same_places(t, u),
        0 <= k < tiles(t, q).len(),
    ensures
        tile_start(u, tiles(t, q), k, length, horizontal) == tile_start(
            t,
            tiles(t, q),
            k,
            length,
            horizontal,
        ),
        tile_length(u, tiles(t, q)[k], length, horizontal) == tile_length(
            t,
            tiles(t, q)[k],
            length,
            horizontal,
        ),
    decreases k,
{
    let ids = tiles(t, q);
    lemma_tiles(t, q);
    lemma_same_tiles(t, u, q);
    let id = ids[k];
    assert(valid(t, ids[k]));
    assert(t[id as int].parent == Some(q));
    assert(u[id as int].parent == t[id as int].parent);
    assert(tile_siblings(u, id) == tile_siblings(t, id));
    if k > 0 {
        lemma_same_start(t, u, q, k - 1, length, horizontal);
    }
}

/// Trees with all in the same places show the same rectangles.
proof fn lemma_same_rects(t: Tree, u: Tree, id: usize, fuel: nat)
    requires
        wf(t),
        valid(t, id),
        same_places(t, u),
    ensures
        rect_fuel(u, id, fuel) == rect_fuel(t, id, fuel),
    decreases fuel,
{
    assert(u[id as int].parent == t[id as int].parent);
    if fuel > 0 && is_tile(t, id) {
        if let Some(q) = t[id as int].parent {
            lemma_parent_facts(t, id);
            lemma_same_rects(t, u, q, (fuel - 1) as nat);
            if let Some(outer) = rect_fuel(t, q, (fuel - 1) as nat) {
                assert(u[q as int].parent == t[q as int].parent);
                lemma_tiles_in(t, t[q as int].children);
                lemma_same_tiles(t, u, q);
                let ids = tiles(t, q);
                assert(ids.contains(id));
                lemma_position(ids, id);
                let horizontal = same_axis(t, q, true);
                let length = length_along(outer, horizontal);
                lemma_same_start(t, u, q, position(ids, id), length, horizontal);
            }
        }
    }
}

/// What is left for tiles is the same where all is in the same place.
pub proof fn lemma_same_available(t: Tree, u: Tree, id: usize, horizontal: bool)
    requires
        wf(t),
        valid(t, id),
        same_places(t, u),
    ensures
        available_of(u, id, horizontal) == available_of(t, id, horizontal),
        rect_of(u, id) == rect_of(t, id),
{
    lemma_same_rects(t, u, id, t.len());
    assert(u[id as int].parent == t[id as int].parent);
    if let Some(p) = t[id as int].parent {
        lemma_parent_facts(t, id);
        lemma_same_rects(t, u, p, t.len());
        lemma_same_tiles(t, u, p);
    }
}

/// A tile whose share is what some pixels come to has these pixels.
#[verifier::spinoff_prover]
proof fn lemma_shown_length(
    r: Tree,
    u: Tree,
    id: usize,
    parent: usize,
    horizontal: bool,
    px: int,
    rest: int,
)
    requires
        wf(r),
        wf(u),
        valid(r, id),
        is_tile(r, id),
        r[id as int].parent == Some(parent),
        same_axis(r, parent, horizontal),
        differ_in_row(r, u, parent),
        available_of(r, id, horizontal) == Ok::<int, WmError>(rest),
        0 < rest <= PIXEL_TOLERANCE,
        0 <= px <= i32::MAX,
        share_of(u, id) == LengthValue::of_px(px).share(rest),
    ensures
        rect_of(u, id) matches Some(now) ==> length_along(now, horizontal) == px,
{
    let rank = choose|rank: Seq<int>| ranked(r, rank);
    lemma_parent_facts(r, id);
    lemma_rect_above_row(r, u, parent, parent, r.len(), rank);
    lemma_row_tiles(r, u, parent, parent);
    lemma_kinds(r, u);
    assert(u[id as int].parent == r[id as int].parent);
    assert(u[parent as int] == u[parent as int]);
    assert((NodeData { tiling_size: r[id as int].data.tiling_size, ..u[id as int].data })
        == r[id as int].data);
    tiles_part_their_container(u, id);
    assert(tile_siblings(u, id) == tile_siblings(r, id));
    let outer = rect_of(r, parent)->0;
    assert(available(u, id, length_along(outer, horizontal), horizontal) == rest);
    shares_give_pixels_back(px, rest);
}

/// A tile that is resized, with the minimums left aside, gets the share asked for where its
/// siblings can have theirs.
#[verifier::spinoff_prover]
proof fn lemma_resized_row(r: Tree, id: usize, parent: usize, target: int)
    requires
        wf(r),
        valid(r, id),
        is_tile(r, id),
        r[id as int].parent == Some(parent),
        tile_siblings(r, id).len() > 0,
        MIN_TILING_SIZE <= target <= WHOLE - tile_siblings(r, id).len() * MIN_TILING_SIZE,
    ensures
        wf(resized(r, id, target)),
        differ_in_row(r, resized(r, id, target), parent),
        share_of(resized(r, id, target), id) == target,
{
    let u = resized(r, id, target);
    let siblings = tile_siblings(r, id);
    resizing_keeps_links(r, id, target);
    lemma_tile_siblings(r, id);
    let s = with_share(r, id, target as i64);
    let after = spread(shares_of(r, siblings), target - share_of(r, id));
    assert forall|k: int| 0 <= k < siblings.len() implies valid(s, #[trigger] siblings[k]) by {
        assert(valid(r, siblings[k]));
    }
    assert(siblings.len() * MIN_TILING_SIZE >= 0) by (nonlinear_arith);
    assert(clamped_target(target, siblings.len()) == target);
    lemma_with_shares(s, siblings, after);
    lemma_shares_only(s, siblings, after);
    lemma_same_twice(r, s, u);
    assert(u[id as int] == s[id as int]);
    assert forall|i: int| 0 <= i < r.len() && r[i].parent != Some(parent) implies #[trigger] u[i]
        == r[i] by {
        if siblings.contains(i as usize) {
            let j = choose|j: int| 0 <= j < siblings.len() && siblings[j] == i as usize;
            assert(r[siblings[j] as int].parent == r[id as int].parent);
        }
    }
}

/// Other shares for tiles of one row change nothing else.
#[verifier::spinoff_prover]
proof fn lemma_row_shares(
    r: Tree,
    id: usize,
    parent: usize,
    ids: Seq<usize>,
    shares: Seq<i64>,
    share: i64,
)
    requires
        wf(r),
        valid(r, id),
        r[id as int].parent == Some(parent),
        ids.len() == shares.len(),
        all_ok(shares),
        share_ok(share as int),
        forall|k: int|
            0 <= k < ids.len() ==> valid(r, #[trigger] ids[k]) && r[ids[k] as int].parent == Some(
                parent,
            ),
    ensures
        wf(with_share(with_shares(r, ids, shares), id, share)),
        differ_in_row(r, with_share(with_shares(r, ids, shares), id, share), parent),
{
    let v = with_shares(r, ids, shares);
    let u = with_share(v, id, share);
    lemma_with_shares(r, ids, shares);
    lemma_shares_only(r, ids, shares);
    assert forall|i: int| 0 <= i < u.len() implies share_ok(
        #[trigger] u[i].data.tiling_size as int,
    ) by {
        assert(share_ok(v[i].data.tiling_size as int));
    }
    assert forall|i: int| 0 <= i < r.len() implies (#[trigger] u[i]).parent == r[i].parent
        && u[i].children == r[i].children && u[i].focus == r[i].focus && u[i].data.kind
        == r[i].data.kind by {
        assert(v[i].parent == r[i].parent);
    }
    lemma_same_links_wf(r, u);
    lemma_same_twice(r, v, u);
    assert forall|i: int|
        0 <= i < r.len() && r[i].parent != Some(parent) implies #[trigger] u[i] == r[i] by {
        if ids.contains(i as usize) {
            let j = choose|j: int| 0 <= j < ids.len() && ids[j] == i as usize;
            assert(r[ids[j] as int].parent == Some(parent));
        }
    }
}

/// Resizing a tile changes the shares of its row only.
#[verifier::spinoff_prover]
proof fn lemma_resized_links(r: Tree, id: usize, parent: usize, target: i64)
    requires
        wf(r),
        valid(r, id),
        is_tile(r, id),
        r[id as int].parent == Some(parent),
        share_a_whole(r, id, tile_siblings(r, id)),
    ensures
        resized_with_minimums(r, id, Some(target)) matches Ok(Some(u)) ==> wf(u) && differ_in_row(
            r,
            u,
            parent,
        ),
{
    lemma_tile_siblings(r, id);
    let siblings = tile_siblings(r, id);
    let horizontal = r[parent as int].data.tiling_direction == TilingDirection::Horizontal;
    if let Ok(Some(u)) = resized_with_minimums(r, id, Some(target)) {
        let rest = available_of(r, id, horizontal)->Ok_0;
        let shares = shares_of(r, siblings);
        let capacities = capacities_of(r, siblings, horizontal, rest);
        let size = share_of(r, id) as int;
        let change = crate::tiling_minimums::resize_change(
            size,
            target as int,
            floor_share(r, id, horizontal, rest),
            total(capacities),
        );
        let after = crate::shares::taken(
            shares,
            change,
            crate::tiling_minimums::change_weights(change, shares, capacities),
        );
        assert(all_ok(after));
        let share = crate::shares::saturated(size + change);
        assert(u == with_share(with_shares(r, siblings, after), id, share));
        lemma_row_shares(r, id, parent, siblings, after, share);
    }
}

/// A tile that is resized with regard to the minimums gets the share asked for where the minimums
/// allow it, or stays where the change would be next to nothing.
#[verifier::spinoff_prover]
proof fn lemma_resized_within(r: Tree, id: usize, parent: usize, target: i64)
    requires
        wf(r),
        valid(r, id),
        is_tile(r, id),
        r[id as int].parent == Some(parent),
        tile_siblings(r, id).len() > 0,
        share_a_whole(r, id, tile_siblings(r, id)),
        ({
            let horizontal = r[parent as int].data.tiling_direction == TilingDirection::Horizontal;
            let siblings = tile_siblings(r, id);
            &&& available_of(r, id, horizontal) matches Ok(rest)
            &&& rest > 0
            &&& floor_share(r, id, horizontal, rest) <= target <= share_of(r, id) + total(
                capacities_of(r, siblings, horizontal, rest),
            )
        }),
    ensures
        resized_with_minimums(r, id, Some(target)) is Ok,
        resized_with_minimums(r, id, Some(target)) matches Ok(None) ==> -EPSILON < target
            - share_of(r, id) < EPSILON,
        resized_with_minimums(r, id, Some(target)) matches Ok(Some(u)) ==> wf(u) && differ_in_row(
            r,
            u,
            parent,
        ) && share_of(u, id) == target,
{
    lemma_parent_facts(r, id);
    resizing_respects_minimums(r, id, target);
    lemma_resized_links(r, id, parent, target);
}

/// A tile whose share is next to what some pixels come to has these pixels, give or take one.
proof fn lemma_near_length(share: int, px: int, rest: int)
    requires
        0 <= px <= i32::MAX,
        0 < rest <= PIXEL_TOLERANCE,
        0 <= share,
        -EPSILON < LengthValue::of_px(px).share(rest) - share < EPSILON,
    ensures
        -1 <= share_pixels(share, rest) - px <= 1,
{
    let whole = WHOLE as int;
    let parts = px * whole;
    let exact = parts / rest;
    assert(LengthValue::of_px(px).share(rest) == exact);
    assert(parts - rest < exact * rest <= parts) by (nonlinear_arith)
        requires
            exact == parts / rest,
            0 < rest,
    ;
    let p = share * rest;
    assert(0 <= p && exact * rest - 8388608 <= p <= exact * rest + 8388608) by (nonlinear_arith)
        requires
            p == share * rest,
            0 <= share,
            -128 < exact - share < 128,
            0 < rest <= 65536,
    ;
    let q = (p + PIXEL_TOLERANCE) / whole;
    assert(-1 <= q - px <= 1) by (nonlinear_arith)
        requires
            q == (p + PIXEL_TOLERANCE) / whole,
            parts == px * whole,
            parts - 65536 - 8388608 <= p <= parts + 8388608,
            PIXEL_TOLERANCE == 65536,
            whole == 1073741824,
    ;
}

/// Whether a tile can have some pixels of a row: its siblings can have theirs, and none falls below
/// its minimum where these count.
pub open spec fn can_have(
    r: Tree,
    id: usize,
    horizontal: bool,
    px: int,
    rest: int,
    respects_minimums: bool,
) -> bool {
    let siblings = tile_siblings(r, id);
    let share = (px * WHOLE) / rest;
    &&& siblings.len() > 0
    &&& 0 <= px <= i32::MAX
    &&& !respects_minimums ==> MIN_TILING_SIZE <= share <= WHOLE - siblings.len() * MIN_TILING_SIZE
    &&& respects_minimums ==> share_a_whole(r, id, siblings) && floor_share(
        r,
        id,
        horizontal,
        rest,
    ) <= share <= share_of(r, id) + total(capacities_of(r, siblings, horizontal, rest))
}

/// A tile that stands in a row along the axis and is given a length in pixels has it afterwards, as
/// far as it can. Where minimums count it may stay as it is instead, if it is one pixel from that.
#[verifier::spinoff_prover]
pub proof fn tiles_get_their_length(
    r: Tree,
    sync: PendingSyncView,
    window: usize,
    parent: usize,
    horizontal: bool,
    px: int,
    rest: int,
    respects_minimums: bool,
)
    requires
        wf(r),
        valid(r, window),
        is_tile(r, window),
        r[window as int].parent == Some(parent),
        (r[parent as int].data.tiling_direction == TilingDirection::Horizontal) == horizontal,
        available_of(r, window, horizontal) == Ok::<int, WmError>(rest),
        0 < rest <= PIXEL_TOLERANCE,
        can_have(r, window, horizontal, px, rest, respects_minimums),
    ensures
        ({
            let (u, after, res) = length_set(
                r,
                sync,
                window,
                LengthValue::of_px(px),
                horizontal,
                respects_minimums,
            );
            &&& res is Ok
            &&& wf(u)
            &&& same_but_shares(r, u)
            &&& u.len() == r.len()
            &&& u[window as int].parent == Some(parent)
            &&& forall|i: int|
                0 <= i < r.len() && r[i].parent != Some(parent) ==> #[trigger] u[i] == r[i]
            &&& rect_of(u, window) matches Some(now) ==> {
                ||| length_along(now, horizontal) == px
                ||| respects_minimums && u == r && -1 <= length_along(now, horizontal) - px <= 1
            }
            &&& u != r ==> forall|y: usize|
                tiles(r, parent).contains(y) ==> #[trigger] after.redraw.contains(y)
        }),
{
    let share = LengthValue::of_px(px).share(rest);
    assert(share == (px * WHOLE) / rest);
    assert(to_resize_at(r, window, horizontal, r.len()) == Some(window));
    assert(-0x8000_0000_0000_0000 <= share <= 0x7fff_ffff_ffff_ffff) by (nonlinear_arith)
        requires
            share == (px * WHOLE) / rest,
            0 <= px <= 0x7fff_ffff,
            rest >= 1,
            WHOLE == 1073741824,
    ;
    if respects_minimums {
        lemma_resized_within(r, window, parent, share as i64);
        match resized_with_minimums(r, window, Some(share as i64)) {
            Ok(Some(u)) => {
                lemma_shown_length(r, u, window, parent, horizontal, px, rest);
            },
            _ => {
                tiles_part_their_container(r, window);
                lemma_near_length(share_of(r, window) as int, px, rest);
            },
        }
    } else {
        lemma_resized_row(r, window, parent, share);
        let u = resized(r, window, share);
        lemma_shown_length(r, u, window, parent, horizontal, px, rest);
    }
}

/// The tree in which a tile is resized: where minimums count, with those of all windows on the
/// workspace brought up to date.
pub open spec fn prepared(
    t: Tree,
    window: usize,
    respects_minimums: bool,
    natives: Seq<NativeMinimum>,
) -> (Tree, Result<(), WmError>) {
    if respects_minimums {
        with_minimums(t, tiled_windows(t, workspace_of(t, window)->0), natives)
    } else {
        (t, Ok(()))
    }
}

/// Bringing minimums up to date moves nothing.
#[verifier::spinoff_prover]
pub proof fn preparing_moves_nothing(
    t: Tree,
    window: usize,
    respects_minimums: bool,
    natives: Seq<NativeMinimum>,
)
    requires
        wf(t),
        valid(t, window),
        workspace_of(t, window) is Some,
    ensures
        wf(prepared(t, window, respects_minimums, natives).0),
        same_places(t, prepared(t, window, respects_minimums, natives).0),
{
    let r = prepared(t, window, respects_minimums, natives).0;
    if respects_minimums {
        let workspace = workspace_of(t, window)->0;
        lemma_enclosing_valid(t, window, t.len());
        let all = self_and_descendants(t, workspace);
        let row = t[workspace as int].children;
        lemma_children(t, workspace);
        lemma_descend_valid(t, row, t.len());
        lemma_of_kind_some(t, all, ContainerKind::TilingWindow);
        let windows = tiled_windows(t, workspace);
        assert forall|k: int| 0 <= k < windows.len() implies valid(t, #[trigger] windows[k]) by {
            assert(all.contains(windows[k]));
            let j = choose|j: int| 0 <= j < all.len() && all[j] == windows[k];
            if j > 0 {
                assert(all[j] == descend(t, row, t.len())[j - 1]);
            }
        }
        lemma_minimums_keep_places(t, windows, natives);
    }
    assert forall|i: int| 0 <= i < r.len() implies share_ok(
        #[trigger] r[i].data.tiling_size as int,
    ) by {
        assert(share_ok(t[i].data.tiling_size as int));
        assert(r[i].parent == t[i].parent);
    }
    assert forall|i: int| 0 <= i < t.len() implies (#[trigger] r[i]).parent == t[i].parent
        && r[i].children == t[i].children && r[i].focus == t[i].focus && r[i].data.kind
        == t[i].data.kind by {}
    assert(same_links(t, r));
    lemma_same_links_wf(t, r);
}

proof fn lemma_enclosing_valid(t: Tree, id: usize, fuel: nat)
    requires
        wf(t),
        valid(t, id),
    ensures
        enclosing_fuel(t, id, ContainerKind::Workspace, fuel) matches Some(found) ==> valid(
            t,
            found,
        ),
    decreases fuel,
{
    if fuel > 0 && t[id as int].parent is Some {
        lemma_parent_facts(t, id);
        lemma_enclosing_valid(t, t[id as int].parent->0, (fuel - 1) as nat);
    }
}

/// A change in pixels of a tile asks for the sum of its length and the change.
#[verifier::spinoff_prover]
pub proof fn changes_ask_for_the_sum(
    t: Tree,
    sync: PendingSyncView,
    resize_mode_on: bool,
    window: usize,
    parent: usize,
    horizontal: bool,
    change: int,
    before: Rect,
    respects_minimums: bool,
    natives: Seq<NativeMinimum>,
)
    requires
        wf(t),
        valid(t, window),
        kind(t, window) == ContainerKind::TilingWindow,
        workspace_of(t, window) is Some,
        t[window as int].parent == Some(parent),
        (t[parent as int].data.tiling_direction == TilingDirection::Horizontal) == horizontal,
        rect_of(t, window) == Some(before),
        available_of(t, window, horizontal) is Ok,
        fits_i32(change),
        fits_i32(length_along(before, horizontal) + change),
        prepared(t, window, respects_minimums, natives).1 is Ok,
    ensures
        ({
            let delta = Some(LengthValue::of_px(change));
            size_changed(
                t,
                sync,
                resize_mode_on,
                window,
                if horizontal {
                    delta
                } else {
                    None
                },
                if horizontal {
                    None
                } else {
                    delta
                },
                respects_minimums,
                natives,
            ) == length_set(
                prepared(t, window, respects_minimums, natives).0,
                sync_before_size(sync, resize_mode_on),
                window,
                LengthValue::of_px(length_along(before, horizontal) + change),
                horizontal,
                respects_minimums,
            )
        }),
{
    let rest = available_of(t, window, horizontal)->Ok_0;
    pixels_come_back(change, rest);
    assert(to_resize_at(t, window, horizontal, t.len()) == Some(window));
}

/// A change in pixels adds to the length that a tile has: where the tile can have the sum, it is
/// longer by the change afterwards, and shorter by it where the change is negative. Where minimums
/// count it may stay as it is instead, for a change by one pixel.
#[verifier::spinoff_prover]
pub proof fn changes_add_to_the_length(
    t: Tree,
    sync: PendingSyncView,
    resize_mode_on: bool,
    window: usize,
    parent: usize,
    horizontal: bool,
    change: int,
    rest: int,
    before: Rect,
    respects_minimums: bool,
    natives: Seq<NativeMinimum>,
)
    requires
        wf(t),
        valid(t, window),
        kind(t, window) == ContainerKind::TilingWindow,
        workspace_of(t, window) is Some,
        t[window as int].parent == Some(parent),
        (t[parent as int].data.tiling_direction == TilingDirection::Horizontal) == horizontal,
        rect_of(t, window) == Some(before),
        available_of(t, window, horizontal) == Ok::<int, WmError>(rest),
        0 < rest <= PIXEL_TOLERANCE,
        fits_i32(change),
        prepared(t, window, respects_minimums, natives).1 is Ok,
        can_have(
            prepared(t, window, respects_minimums, natives).0,
            window,
            horizontal,
            length_along(before, horizontal) + change,
            rest,
            respects_minimums,
        ),
    ensures
        ({
            let delta = Some(LengthValue::of_px(change));
            let (u, after, res) = size_changed(
                t,
                sync,
                resize_mode_on,
                window,
                if horizontal {
                    delta
                } else {
                    None
                },
                if horizontal {
                    None
                } else {
                    delta
                },
                respects_minimums,
                natives,
            );
            &&& res is Ok
            &&& rect_of(u, window) matches Some(now) ==> {
                ||| length_along(now, horizontal) == length_along(before, horizontal) + change
                ||| respects_minimums && now == before && -1 <= change <= 1
            }
            &&& resize_mode_on ==> after.animations_suppressed
            &&& !resize_mode_on ==> after.animations_suppressed == sync.animations_suppressed
        }),
{
    let r = prepared(t, window, respects_minimums, natives).0;
    let px = length_along(before, horizontal) + change;
    preparing_moves_nothing(t, window, respects_minimums, natives);
    lemma_same_available(t, r, window, horizontal);
    lemma_parent_facts(t, window);
    assert(r[window as int].parent == t[window as int].parent);
    assert(r[parent as int].parent == t[parent as int].parent);
    changes_ask_for_the_sum(
        t,
        sync,
        resize_mode_on,
        window,
        parent,
        horizontal,
        change,
        before,
        respects_minimums,
        natives,
    );
    tiles_get_their_length(
        r,
        sync_before_size(sync, resize_mode_on),
        window,
        parent,
        horizontal,
        px,
        rest,
        respects_minimums,
    );
}

/// A change that is taken back asks for the length that the tile had first: the two changes
/// together leave the tile as long as it was, as far as it can have both lengths.
pub proof fn changes_are_taken_back(
    t: Tree,
    sync: PendingSyncView,
    window: usize,
    parent: usize,
    horizontal: bool,
    change: int,
    rest: int,
    before: Rect,
    natives: Seq<NativeMinimum>,
)
    requires
        wf(t),
        valid(t, window),
        kind(t, window) == ContainerKind::TilingWindow,
        workspace_of(t, window) is Some,
        t[window as int].parent == Some(parent),
        (t[parent as int].data.tiling_direction == TilingDirection::Horizontal) == horizontal,
        rect_of(t, window) == Some(before),
        available_of(t, window, horizontal) == Ok::<int, WmError>(rest),
        0 < rest <= PIXEL_TOLERANCE,
        fits_i32(change) && fits_i32(-change),
        can_have(t, window, horizontal, length_along(before, horizontal) + change, rest, false),
        ({
            let u = length_set(
                t,
                sync,
                window,
                LengthValue::of_px(length_along(before, horizontal) + change),
                horizontal,
                false,
            ).0;
            &&& workspace_of(u, window) is Some
            &&& rect_of(u, window) is Some
            &&& available_of(u, window, horizontal) == Ok::<int, WmError>(rest)
            &&& can_have(u, window, horizontal, length_along(before, horizontal), rest, false)
        }),
    ensures
        ({
            let there = Some(LengthValue::of_px(change));
            let back = Some(LengthValue::of_px(-change));
            let none = None::<LengthValue>;
            let once = size_changed(
                t,
                sync,
                false,
                window,
                if horizontal {
                    there
                } else {
                    none
                },
                if horizontal {
                    none
                } else {
                    there
                },
                false,
                natives,
            );
            let twice = size_changed(
                once.0,
                once.1,
                false,
                window,
                if horizontal {
                    back
                } else {
                    none
                },
                if horizontal {
                    none
                } else {
                    back
                },
                false,
                natives,
            );
            &&& once.2 is Ok
            &&& twice.2 is Ok
            &&& rect_of(twice.0, window) matches Some(now) ==> length_along(now, horizontal)
                == length_along(before, horizontal)
        }),
{
    let length = length_along(before, horizontal);
    changes_ask_for_the_sum(
        t,
        sync,
        false,
        window,
        parent,
        horizontal,
        change,
        before,
        false,
        natives,
    );
    tiles_get_their_length(
        t,
        sync_before_size(sync, false),
        window,
        parent,
        horizontal,
        length + change,
        rest,
        false,
    );
    let first = length_set(
        t,
        sync_before_size(sync, false),
        window,
        LengthValue::of_px(length + change),
        horizontal,
        false,
    );
    let u = first.0;
    lemma_parent_facts(t, window);
    lemma_kinds(t, u);
    assert(u[window as int] == u[window as int] && u[parent as int] == u[parent as int]);
    tiles_part_their_container(u, window);
    let now = rect_of(u, window)->0;
    assert(u[window as int].parent == Some(parent)) by {
        resizing_keeps_links(t, window, LengthValue::of_px(length + change).share(rest));
        assert(to_resize_at(t, window, horizontal, t.len()) == Some(window));
    }
    changes_add_to_the_length(
        u,
        first.1,
        false,
        window,
        parent,
        horizontal,
        -change,
        rest,
        now,
        false,
        natives,
    );
}

} // verus!
