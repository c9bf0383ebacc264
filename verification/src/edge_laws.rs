//! A dragged edge follows the cursor.

use vstd::prelude::*;

use crate::active_drag::ResizeEdges;
use crate::edge_resize::{
    divider, edge_change, edge_moved, edge_moves, edge_resized, edges_moved, limits_of,
    lemma_neighbors, neighbors_of, resize_asked, tiling_resized, with_drag_edges, TilingResize,
};
use crate::errors::WmError;
use crate::geometry::{Rect, TilingDirection};
use crate::limit_laws::edges_move_by_pixels;
use crate::lists::{lemma_position, lemma_position_is, position};
use crate::pending_sync::PendingSyncView;
use crate::placement::{
    available_of, gap_along, length_along, rect_of, tile_length, tile_start, PIXEL_TOLERANCE,
};
use crate::resize_laws::{lemma_divider, moved_edge_changes_shares_only, sound_at_divider};
use crate::shares::{all_ok, saturated, share_ok, taken, total, EPSILON, WHOLE};
use crate::tiling_minimums::{capacities_of, change_weights, floor_share, resize_change, same_axis};
use crate::tree::{
    is_tile, kind, share_of, shares_of, tiles, valid, wf, with_share, with_shares, ContainerKind,
    Tree,
};
use crate::tree_laws::{
    lemma_parent_facts, lemma_same_links_wf, lemma_tiles, lemma_with_shares, same_links,
};
use crate::trip_laws::lemma_kinds;
use crate::walk_laws::tiles_part_their_container;

verus! {

/// Moving an edge keeps the tree well-formed.
#[verifier::spinoff_prover]
proof fn lemma_edge_keeps_tree(t: Tree, id: usize, horizontal: bool, leading: bool, delta: int)
    requires
        wf(t),
        valid(t, id),
        is_tile(t, id),
    ensures
        edge_resized(t, id, horizontal, leading, delta) matches Ok(Some((u, p))) ==> wf(u)
            && same_links(t, u),
{
    lemma_divider(t, id, horizontal, leading, t.len());
    if let Ok(Some((u, p))) = edge_resized(t, id, horizontal, leading, delta) {
        let c = divider(t, id, horizontal, leading)->0;
        let neighbors = neighbors_of(t, c, p, leading);
        lemma_neighbors(t, c, leading);
        let available = available_of(t, c, horizontal)->Ok_0;
        let capacities = capacities_of(t, neighbors, horizontal, available);
        let change = resize_change(
            share_of(t, c) as int,
            share_of(t, c) + edge_change(delta, leading, available),
            floor_share(t, c, horizontal, available),
            total(capacities),
        );
        let shares = shares_of(t, neighbors);
        let after = taken(shares, change, change_weights(change, shares, capacities));
        assert(all_ok(after));
        lemma_with_shares(t, neighbors, after);
        let v = with_shares(t, neighbors, after);
        assert(u == with_share(v, c, saturated(share_of(t, c) + change)));
        assert forall|i: int| 0 <= i < u.len() implies share_ok(
            #[trigger] u[i].data.tiling_size as int,
        ) by {
            assert(share_ok(t[i].data.tiling_size as int));
            assert(share_ok(v[i].data.tiling_size as int));
        }
        assert forall|i: int| 0 <= i < t.len() implies (#[trigger] u[i]).parent == t[i].parent
            && u[i].children == t[i].children && u[i].focus == t[i].focus && u[i].data.kind
            == t[i].data.kind by {
            assert(v[i].parent == t[i].parent);
        }
        lemma_same_links_wf(t, u);
    }
}

/// Within the limits, an edge that does not move was not asked to.
#[verifier::spinoff_prover]
proof fn lemma_blocked_only_at_zero(
    t: Tree,
    id: usize,
    horizontal: bool,
    leading: bool,
    delta: int,
)
    requires
        wf(t),
        valid(t, id),
        is_tile(t, id),
        divider(t, id, horizontal, leading) matches Some(c) && sound_at_divider(t, c, leading)
            && (available_of(t, c, horizontal) matches Ok(available) && 0 < available
            <= PIXEL_TOLERANCE),
        limits_of(t, id, horizontal, leading) matches Ok(limits) && limits.0 <= delta * WHOLE
            <= limits.1,
    ensures
        edge_resized(t, id, horizontal, leading, delta) is Ok,
        edge_resized(t, id, horizontal, leading, delta) matches Ok(None) ==> delta == 0,
{
    lemma_divider(t, id, horizontal, leading, t.len());
    let c = divider(t, id, horizontal, leading)->0;
    let p = t[c as int].parent->0;
    let available = available_of(t, c, horizontal)->Ok_0;
    let neighbors = neighbors_of(t, c, p, leading);
    let size = share_of(t, c) as int;
    let floor = floor_share(t, c, horizontal, available);
    let capacity = total(capacities_of(t, neighbors, horizontal, available));
    let asked = edge_change(delta, leading, available);
    let signed = if leading {
        -delta
    } else {
        delta
    };
    assert(asked == (signed * WHOLE) / available);
    let shrink = (size - floor) * available;
    let grow = capacity * available;
    assert(-(delta * WHOLE) == (-delta) * WHOLE) by (nonlinear_arith);
    assert(-shrink <= signed * WHOLE <= grow);
    assert(floor - size <= asked <= capacity) by (nonlinear_arith)
        requires
            asked == (signed * WHOLE) / available,
            available > 0,
            -((size - floor) * available) <= signed * WHOLE <= capacity * available,
    ;
    crate::limit_laws::lemma_bounds(t, c, horizontal, leading);
    assert(share_ok(size + asked));
    assert(resize_change(size, size + asked, floor, capacity) == asked);
    if delta != 0 {
        assert(asked >= EPSILON || asked <= -EPSILON) by (nonlinear_arith)
            requires
                asked == (signed * WHOLE) / available,
                signed != 0,
                0 < available <= 65536,
                WHOLE == 1073741824,
                EPSILON == 128,
        ;
    }
}

/// The far end of a tile stays where its near end is moved.
#[verifier::spinoff_prover]
proof fn lemma_end_stays(
    t: Tree,
    id: usize,
    horizontal: bool,
    delta: int,
    gap: int,
    c: usize,
)
    requires
        wf(t),
        valid(t, id),
        is_tile(t, id),
        divider(t, id, horizontal, true) == Some(c),
        ({
            let ids = tiles(t, t[c as int].parent->0);
            &&& sound_at_divider(t, c, true)
            &&& available_of(t, c, horizontal) matches Ok(available) && 0 < available
                <= PIXEL_TOLERANCE
            &&& forall|j: int|
                0 <= j < ids.len() ==> gap_along(t, #[trigger] ids[j], horizontal) == gap
        }),
    ensures
        edge_resized(t, id, horizontal, true, delta) matches Ok(Some((u, p))) ==> {
            let ids = tiles(t, p);
            let k = position(ids, c);
            let length = length_along(rect_of(t, p)->0, horizontal);
            let before = tile_start(t, ids, k, length, horizontal) + tile_length(
                t,
                c,
                length,
                horizontal,
            );
            let after = tile_start(u, ids, k, length, horizontal) + tile_length(
                u,
                c,
                length,
                horizontal,
            );
            -k <= after - before <= k
        },
{
    lemma_divider(t, id, horizontal, true, t.len());
    let p = t[c as int].parent->0;
    let ids = tiles(t, p);
    let length = length_along(rect_of(t, p)->0, horizontal);
    lemma_parent_facts(t, c);
    lemma_tiles(t, p);
    assert(ids.contains(c)) by {
        crate::tree_laws::lemma_tiles_in(t, t[p as int].children);
    }
    crate::lists::lemma_without(ids, c);
    assert(gap_along(t, c, horizontal) == gap) by {
        lemma_position(ids, c);
        assert(gap_along(t, ids[position(ids, c)], horizontal) == gap);
    }
    crate::resize_laws::leading_move_keeps_end(t, id, horizontal, delta, length, gap);
}

/// The rectangle of a tile whose edge has been moved: the edge is where it was to go, and the
/// opposite one where it was, up to rounding.
#[verifier::spinoff_prover]
pub proof fn moved_edges_show(
    t: Tree,
    id: usize,
    horizontal: bool,
    leading: bool,
    delta: int,
    gap: int,
    c: usize,
    before: Rect,
)
    requires
        wf(t),
        valid(t, id),
        is_tile(t, id),
        divider(t, id, horizontal, leading) == Some(c),
        rect_of(t, c) == Some(before),
        ({
            let ids = tiles(t, t[c as int].parent->0);
            &&& same_axis(t, t[c as int].parent->0, horizontal)
            &&& sound_at_divider(t, c, leading)
            &&& available_of(t, c, horizontal) matches Ok(available) && 0 < available
                <= PIXEL_TOLERANCE
            &&& forall|j: int|
                0 <= j < ids.len() ==> gap_along(t, #[trigger] ids[j], horizontal) == gap
        }),
        limits_of(t, id, horizontal, leading) matches Ok(limits) && limits.0 <= delta * WHOLE
            <= limits.1,
    ensures
        edge_resized(t, id, horizontal, leading, delta) is Ok,
        edge_resized(t, id, horizontal, leading, delta) matches Ok(None) ==> delta == 0,
        edge_resized(t, id, horizontal, leading, delta) matches Ok(Some((u, p))) ==> {
            let k = position(tiles(t, p), c);
            rect_of(u, c) matches Some(now) ==> {
                &&& horizontal ==> now.top == before.top && now.bottom == before.bottom
                &&& !horizontal ==> now.left == before.left && now.right == before.right
                &&& horizontal && !leading ==> now.left == before.left && delta - 1 <= now.right
                    - before.right <= delta
                &&& !horizontal && !leading ==> now.top == before.top && delta - 1 <= now.bottom
                    - before.bottom <= delta
                &&& horizontal && leading ==> delta - k <= now.left - before.left <= delta + k
                    && -k <= now.right - before.right <= k
                &&& !horizontal && leading ==> delta - k <= now.top - before.top <= delta + k
                    && -k <= now.bottom - before.bottom <= k
            }
        },
{
    lemma_divider(t, id, horizontal, leading, t.len());
    lemma_blocked_only_at_zero(t, id, horizontal, leading, delta);
    edges_move_by_pixels(t, id, horizontal, leading, delta, gap);
    lemma_edge_keeps_tree(t, id, horizontal, leading, delta);
    moved_edge_changes_shares_only(t, id, horizontal, leading, delta);
    if let Ok(Some((u, p))) = edge_resized(t, id, horizontal, leading, delta) {
        let outer = rect_of(t, p)->0;
        lemma_parent_facts(t, c);
        tiles_part_their_container(t, c);
        lemma_kinds(t, u);
        assert(u[c as int] == u[c as int] && u[p as int] == u[p as int]);
        tiles_part_their_container(u, c);
        if leading {
            lemma_end_stays(t, id, horizontal, delta, gap, c);
        }
    }
}

/// Which edge is selected, if it is just one.
pub open spec fn only_edge(edges: ResizeEdges, horizontal: bool, leading: bool) -> bool {
    &&& edges.left == (horizontal && leading)
    &&& edges.right == (horizontal && !leading)
    &&& edges.top == (!horizontal && leading)
    &&& edges.bottom == (!horizontal && !leading)
}

/// With one edge selected, that edge moves and no other.
#[verifier::spinoff_prover]
proof fn lemma_one_edge(
    t: Tree,
    sync: PendingSyncView,
    window: usize,
    step: TilingResize,
    horizontal: bool,
    leading: bool,
)
    requires
        only_edge(step.edges, horizontal, leading),
    ensures
        ({
            let delta = if horizontal && leading {
                step.requested.left - step.current.left
            } else if horizontal {
                step.requested.right - step.current.right
            } else if leading {
                step.requested.top - step.current.top
            } else {
                step.requested.bottom - step.current.bottom
            };
            edges_moved(t, sync, window, edge_moves(step)) == (if delta == 0 {
                (t, sync, Ok(()))
            } else {
                match edge_resized(t, window, horizontal, leading, delta) {
                    Ok(Some(found)) => (found.0, sync.with_redraw(found.1), Ok(())),
                    Ok(None) => (t, sync, Ok(())),
                    Err(error) => (t, sync, Err(error)),
                }
            })
        }),
{
    let moves = edge_moves(step);
    let m3 = moves.drop_last();
    let m2 = m3.drop_last();
    let m1 = m2.drop_last();
    let m0 = m1.drop_last();
    reveal(edge_moved);
    reveal_with_fuel(edges_moved, 5);
    assert(m0.len() == 0);
    assert(edges_moved(t, sync, window, m0) == (t, sync, Ok::<(), WmError>(())));
    assert(m1.last() == moves[0] && m2.last() == moves[1] && m3.last() == moves[2] && moves.last()
        == moves[3]);
}

/// A tile with others on the side of its edge stands at the divider itself.
proof fn lemma_own_divider(
    t: Tree,
    window: usize,
    parent: usize,
    k: int,
    horizontal: bool,
    leading: bool,
)
    requires
        wf(t),
        valid(t, window),
        t[window as int].parent == Some(parent),
        (t[parent as int].data.tiling_direction == TilingDirection::Horizontal) == horizontal,
        0 <= k < tiles(t, parent).len(),
        tiles(t, parent)[k] == window,
        leading ==> k > 0,
        !leading ==> k < tiles(t, parent).len() - 1,
    ensures
        divider(t, window, horizontal, leading) == Some(window),
        position(tiles(t, parent), window) == k,
{
    lemma_parent_facts(t, window);
    lemma_tiles(t, parent);
    lemma_position_is(tiles(t, parent), window, k);
    if leading {
        assert(neighbors_of(t, window, parent, leading).len() == k);
    } else {
        assert(neighbors_of(t, window, parent, leading).len() == tiles(t, parent).len() - k - 1);
    }
}

/// A frame that differs from the tile at one edge moves that edge, if it is selected.
#[verifier::spinoff_prover]
proof fn lemma_dragged(
    t: Tree,
    sync: PendingSyncView,
    window: usize,
    frame: Rect,
    edges: ResizeEdges,
    horizontal: bool,
    leading: bool,
    before: Rect,
    delta: int,
)
    requires
        valid(t, window),
        only_edge(edges, horizontal, leading),
        t[window as int].data.window.active_drag matches Some(drag) ==> drag.resize_edges == Some(
            edges,
        ),
        rect_of(t, window) == Some(before),
        frame.inset_fits(t[window as int].data.window.border_delta),
        ({
            let asked = frame.inset(t[window as int].data.window.border_delta);
            &&& horizontal ==> asked.h() == before.h()
            &&& !horizontal ==> asked.w() == before.w()
            &&& delta == if horizontal && leading {
                asked.left - before.left
            } else if horizontal {
                asked.right - before.right
            } else if leading {
                asked.top - before.top
            } else {
                asked.bottom - before.bottom
            }
        }),
    ensures
        ({
            let asked = frame.inset(t[window as int].data.window.border_delta);
            let (u, after, res) = tiling_resized(t, sync, window, frame, edges);
            let moved = edge_resized(t, window, horizontal, leading, delta);
            &&& asked == before ==> u == t && after == sync && res is Ok && delta == 0
            &&& asked != before && (delta == 0 || moved == Ok::<Option<(Tree, usize)>, WmError>(
                None,
            )) ==> u == t && after == sync.without_animations().with_redraw(window) && res is Ok
            &&& asked != before && delta != 0 ==> (moved matches Ok(Some((v, p))) ==> {
                &&& u == v
                &&& after == sync.with_redraw(p).without_animations().with_redraw(window)
                &&& res is Ok
            })
        }),
{
    if let Ok(Some(step)) = resize_asked(t, window, frame, edges) {
        assert(step.edges == edges);
        assert(with_drag_edges(t, window, edges) =~= t);
        lemma_one_edge(t, sync, window, step, horizontal, leading);
    }
}

/// The edge of a window that is dragged ends where the frame asks for it, as long as that is within
/// the limits: a right or lower edge to the pixel or one short of it, a left or upper edge up to
/// one pixel for each tile before it. The opposite edge stays, to the pixel where the window's
/// right or lower edge is dragged. So it is for each of the four edges.
#[verifier::spinoff_prover]
pub proof fn dragged_edges_go_where_they_are_asked(
    t: Tree,
    sync: PendingSyncView,
    window: usize,
    frame: Rect,
    edges: ResizeEdges,
    parent: usize,
    k: int,
    horizontal: bool,
    leading: bool,
    gap: int,
    before: Rect,
)
    requires
        wf(t),
        valid(t, window),
        kind(t, window) == ContainerKind::TilingWindow,
        t[window as int].parent == Some(parent),
        (t[parent as int].data.tiling_direction == TilingDirection::Horizontal) == horizontal,
        0 <= k < tiles(t, parent).len(),
        tiles(t, parent)[k] == window,
        leading ==> k > 0,
        !leading ==> k < tiles(t, parent).len() - 1,
        only_edge(edges, horizontal, leading),
        t[window as int].data.window.active_drag matches Some(drag) ==> drag.resize_edges == Some(
            edges,
        ),
        rect_of(t, window) == Some(before),
        frame.inset_fits(t[window as int].data.window.border_delta),
        ({
            let asked = frame.inset(t[window as int].data.window.border_delta);
            let delta = if horizontal && leading {
                asked.left - before.left
            } else if horizontal {
                asked.right - before.right
            } else if leading {
                asked.top - before.top
            } else {
                asked.bottom - before.bottom
            };
            &&& horizontal ==> asked.h() == before.h()
            &&& !horizontal ==> asked.w() == before.w()
            &&& limits_of(t, window, horizontal, leading) matches Ok(limits)
            &&& limits.0 <= delta * WHOLE <= limits.1
        }),
        sound_at_divider(t, window, leading),
        available_of(t, window, horizontal) matches Ok(available) && 0 < available
            <= PIXEL_TOLERANCE,
        forall|j: int|
            0 <= j < tiles(t, parent).len() ==> gap_along(
                t,
                #[trigger] tiles(t, parent)[j],
                horizontal,
            ) == gap,
    ensures
        ({
            let border = t[window as int].data.window.border_delta;
            let (u, after, res) = tiling_resized(t, sync, window, frame, edges);
            &&& res is Ok
            &&& forall|y: usize| sync.redraw.contains(y) ==> #[trigger] after.redraw.contains(y)
            &&& rect_of(u, window) matches Some(now) ==> {
                &&& horizontal && !leading ==> now.left == before.left && frame.right - border.right
                    - 1 <= now.right <= frame.right - border.right
                &&& !horizontal && !leading ==> now.top == before.top && frame.bottom
                    - border.bottom - 1 <= now.bottom <= frame.bottom - border.bottom
                &&& horizontal && leading ==> frame.left + border.left - k <= now.left <= frame.left
                    + border.left + k && -k <= now.right - before.right <= k
                &&& !horizontal && leading ==> frame.top + border.top - k <= now.top <= frame.top
                    + border.top + k && -k <= now.bottom - before.bottom <= k
                &&& horizontal ==> now.top == before.top && now.bottom == before.bottom
                &&& !horizontal ==> now.left == before.left && now.right == before.right
                &&& now != before ==> after.redraw.contains(window) && after.redraw.contains(parent)
                    && after.animations_suppressed
            }
        }),
{
    let asked = frame.inset(t[window as int].data.window.border_delta);
    lemma_own_divider(t, window, parent, k, horizontal, leading);
    let delta = if horizontal && leading {
        asked.left - before.left
    } else if horizontal {
        asked.right - before.right
    } else if leading {
        asked.top - before.top
    } else {
        asked.bottom - before.bottom
    };
    lemma_dragged(t, sync, window, frame, edges, horizontal, leading, before, delta);
    moved_edges_show(t, window, horizontal, leading, delta, gap, window, before);
}

} // verus!
