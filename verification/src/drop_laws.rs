//! Where a window stands after it has been dropped.

use vstd::prelude::*;

use crate::drag_placement::{
    deepest_at, drop_parent, drop_position_of, drop_target, dropped, dropped_across,
    dropped_beside, first_monitor_at, is_slot_at, monitor_at, nearest_of, previewed, workspace_at,
    DropPosition,
};
use crate::errors::WmError;
use crate::geometry::{int_abs, Point, Rect, TilingDirection};
use crate::layout::{lemma_push_wf, lone};
use crate::lists::{
    filtered, first_place, lemma_position, lemma_position_is, lemma_without, lemma_without_at,
    position, without,
};
use crate::pending_sync::PendingSyncView;
use crate::placement::{rect_of, tiles_stand_side_by_side};
use crate::shares::MAX_CONTAINERS;
use crate::stack_laws::lemma_all_tiles;
use crate::step_laws::lemma_moved_children;
use crate::traversal::{ancestors, descendants, workspace_of};
use crate::tree::{
    is_only_child_of_split, is_tile, kind, moved, tiles, valid, wf, wrapped, ContainerKind, Gaps,
    NodeData, Tree, WindowState,
};
use crate::tree_laws::{
    are_tiles_of, lemma_children, lemma_moved_within, lemma_parent_facts, lemma_tiles_in,
    lemma_wrapped, moving_keeps_tree, wrapping_keeps_tree,
};
use crate::frame_laws::{
    lemma_same_twice, moving_changes_shares_only, same_but_shares, wrapping_changes_shares_only,
};
use crate::trip_laws::{lemma_filtered_all, lemma_filtered_join, lemma_kinds};
use crate::walk_laws::tiles_part_their_container;
use crate::window_laws::lemma_window_childless;
use crate::window_move::{lemma_new_split, split_data, with_new_split};

verus! {

/// One container gives way to the split that it goes into.
proof fn lemma_replaced(all: Seq<usize>, k: int, split: usize)
    requires
        all.no_duplicates(),
        0 <= k < all.len(),
        !all.contains(split),
    ensures
        filtered(all.insert(first_place(all, seq![all[k]]), split), seq![all[k]], false)
            == all.update(k, split),
{
    let tile = all[k];
    let ids = seq![tile];
    lemma_position_is(all, tile, k);
    assert(first_place(all, ids) == k) by {
        reveal_with_fuel(first_place, 2);
        assert(ids.drop_last() =~= Seq::<usize>::empty());
    }
    let before = all.take(k).push(split);
    let after = all.skip(k + 1);
    assert(all.insert(k, split) =~= (before + ids) + after);
    lemma_filtered_join(before + ids, after, ids);
    lemma_filtered_join(before, ids, ids);
    assert(all.contains(tile));
    assert forall|j: int| 0 <= j < before.len() implies !ids.contains(#[trigger] before[j]) by {
        if j < k {
            assert(before[j] == all[j]);
        }
    }
    assert forall|j: int| 0 <= j < after.len() implies !ids.contains(#[trigger] after[j]) by {
        assert(after[j] == all[j + k + 1]);
    }
    lemma_filtered_all(before, ids);
    lemma_filtered_all(after, ids);
    assert(filtered(ids, ids, false) =~= Seq::<usize>::empty()) by {
        reveal_with_fuel(filtered, 2);
        assert(ids[0] == tile);
        assert(ids.contains(ids.last()));
        assert(ids.drop_last() =~= Seq::<usize>::empty());
    }
    assert(before + filtered(ids, ids, false) + after =~= all.update(k, split));
}

/// The tree with a new split that nothing stands in yet.
#[verifier::spinoff_prover]
proof fn lemma_split_added(
    t: Tree,
    parent: usize,
    k: int,
    tile: usize,
    direction: TilingDirection,
    gaps: Gaps,
)
    requires
        wf(t),
        valid(t, parent),
        0 <= k < t[parent as int].children.len(),
        t[parent as int].children[k] == tile,
        is_tile(t, tile),
        t.len() < MAX_CONTAINERS,
        t.len() < usize::MAX,
    ensures
        ({
            let n = with_new_split(t, direction, gaps);
            &&& wf(n)
            &&& n == t.push(lone(split_data(direction, gaps)))
            &&& are_tiles_of(n, seq![tile], parent)
            &&& !t[parent as int].children.contains(t.len() as usize)
        }),
{
    let split = t.len() as usize;
    let n = with_new_split(t, direction, gaps);
    let ids = seq![tile];
    let all = t[parent as int].children;
    lemma_children(t, parent);
    lemma_push_wf(t, split_data(direction, gaps));
    lemma_new_split(t, direction, gaps, parent);
    lemma_tiles_in(t, all);
    assert(all.contains(tile));
    assert(tiles(t, parent).contains(tile));
    assert forall|j: int| 0 <= j < ids.len() implies tiles(n, parent).contains(
        #[trigger] ids[j],
    ) by {
        assert(ids[j] == tile);
    }
    if all.contains(split) {
        let j = choose|j: int| 0 <= j < all.len() && all[j] == split;
        assert(valid(t, t[parent as int].children[j]));
    }
}

/// The tree with one tile in a split of its own.
#[verifier::spinoff_prover]
proof fn lemma_wrapped_alone(
    t: Tree,
    parent: usize,
    k: int,
    tile: usize,
    direction: TilingDirection,
    gaps: Gaps,
)
    requires
        wf(t),
        valid(t, parent),
        kind(t, parent).is_direction(),
        0 <= k < t[parent as int].children.len(),
        t[parent as int].children[k] == tile,
        is_tile(t, tile),
        t.len() < MAX_CONTAINERS,
        t.len() < usize::MAX,
    ensures
        ({
            let split = t.len() as usize;
            let w = wrapped(with_new_split(t, direction, gaps), split, parent, seq![tile]);
            &&& wf(w)
            &&& w.len() == t.len() + 1
            &&& same_but_shares(t, w)
            &&& w[parent as int].children == t[parent as int].children.update(k, split)
            &&& w[split as int].children == seq![tile]
            &&& w[split as int].parent == Some(parent)
            &&& kind(w, split) == ContainerKind::Split
            &&& w[split as int].data.tiling_direction == direction
            &&& w[tile as int].parent == Some(split)
            &&& forall|i: int|
                0 <= i < t.len() && i != parent && i != tile ==> (#[trigger] w[i]).parent
                    == t[i].parent && w[i].children == t[i].children
        }),
{
    let split = t.len() as usize;
    let n = with_new_split(t, direction, gaps);
    let ids = seq![tile];
    let all = t[parent as int].children;
    lemma_split_added(t, parent, k, tile, direction, gaps);
    assert(valid(t, t[parent as int].children[k]));
    assert(t[parent as int].children.no_duplicates());
    assert(n[parent as int] == t[parent as int]);
    lemma_wrapped(n, split, parent, ids);
    wrapping_keeps_tree(n, split, parent, ids);
    wrapping_changes_shares_only(n, split, parent, ids);
    let w = wrapped(n, split, parent, ids);
    lemma_replaced(all, k, split);
    assert(same_but_shares(t, n));
    lemma_same_twice(t, n, w);
    assert(ids[0] == tile);
    assert(ids.contains(tile));
    assert forall|i: int| 0 <= i < t.len() && i != parent && i != tile implies (
    #[trigger] w[i]).parent == t[i].parent && w[i].children == t[i].children by {
        assert(!ids.contains(i as usize));
    }
}

/// A window beside a tile that goes into a split of its own stays where it is.
#[verifier::spinoff_prover]
proof fn lemma_apart_from_wrapped(
    t: Tree,
    parent: usize,
    k: int,
    tile: usize,
    direction: TilingDirection,
    gaps: Gaps,
    window: usize,
)
    requires
        wf(t),
        valid(t, window),
        valid(t, parent),
        kind(t, window).is_window(),
        kind(t, parent).is_direction(),
        t[window as int].parent is Some,
        !is_only_child_of_split(t, window),
        0 <= k < t[parent as int].children.len(),
        t[parent as int].children[k] == tile,
        kind(t, tile) == ContainerKind::TilingWindow,
        tile != window,
        t.len() < MAX_CONTAINERS,
        t.len() < usize::MAX,
    ensures
        ({
            let split = t.len() as usize;
            let w = wrapped(with_new_split(t, direction, gaps), split, parent, seq![tile]);
            &&& w[window as int].parent == t[window as int].parent
            &&& kind(w, window) == kind(t, window)
            &&& !is_only_child_of_split(w, window)
            &&& t[window as int].parent->0 != tile
            &&& t[window as int].parent->0 != window
            &&& valid(t, t[window as int].parent->0)
            &&& window != parent
            &&& tile != parent
        }),
{
    let split = t.len() as usize;
    lemma_parent_facts(t, window);
    assert(valid(t, t[parent as int].children[k]));
    assert(t[t[parent as int].children[k] as int].parent == Some(parent));
    lemma_parent_facts(t, tile);
    lemma_window_childless(t, tile);
    lemma_wrapped_alone(t, parent, k, tile, direction, gaps);
    let w = wrapped(with_new_split(t, direction, gaps), split, parent, seq![tile]);
    lemma_kinds(t, w);
    let own = t[window as int].parent->0;
    assert(w[own as int] == w[own as int]);
    assert(w[window as int] == w[window as int]);
}

proof fn lemma_not_among(t: Tree, parent: usize, k: int, split: usize, window: usize)
    requires
        wf(t),
        valid(t, parent),
        valid(t, window),
        0 <= k < t[parent as int].children.len(),
        split == t.len(),
        t[window as int].parent != Some(parent),
    ensures
        !t[parent as int].children.update(k, split).contains(window),
{
    let all = t[parent as int].children.update(k, split);
    if all.contains(window) {
        let j = choose|j: int| 0 <= j < all.len() && all[j] == window;
        assert(t[parent as int].children[j] == window);
        assert(t[t[parent as int].children[j] as int].parent == Some(parent));
    }
}

/// A window that is moved into a split with one tile stands before or after it.
#[verifier::spinoff_prover]
proof fn lemma_moved_in(w: Tree, window: usize, split: usize, tile: usize, index: int)
    requires
        wf(w),
        valid(w, window),
        valid(w, split),
        window != split,
        kind(w, window).is_window(),
        kind(w, split) == ContainerKind::Split,
        w[window as int].parent matches Some(p) && p != split,
        !is_only_child_of_split(w, window),
        w[split as int].children == seq![tile],
        index == 0 || index == 1,
    ensures
        ({
            let u = moved(w, window, split, index);
            let own = w[window as int].parent->0;
            &&& wf(u)
            &&& u.len() == w.len()
            &&& same_but_shares(w, u)
            &&& index == 0 ==> u[split as int].children == seq![window, tile]
            &&& index == 1 ==> u[split as int].children == seq![tile, window]
            &&& kind(u, split) == ContainerKind::Split
            &&& u[split as int].data.tiling_direction == w[split as int].data.tiling_direction
            &&& u[split as int].parent == w[split as int].parent
            &&& u[window as int].parent == Some(split)
            &&& u[own as int].children == without(w[own as int].children, window)
            &&& forall|i: int|
                0 <= i < w.len() && i != window && i != split && i != own ==> (
                #[trigger] u[i]).children == w[i].children
            &&& forall|i: int|
                0 <= i < w.len() && i != window ==> (#[trigger] u[i]).parent == w[i].parent
        }),
{
    lemma_window_childless(w, window);
    lemma_moved_children(w, window, split, index);
    moving_keeps_tree(w, window, split, index);
    moving_changes_shares_only(w, window, split, index);
    let u = moved(w, window, split, index);
    lemma_kinds(w, u);
    assert(seq![tile].insert(0, window) =~= seq![window, tile]);
    assert(seq![tile].insert(1, window) =~= seq![tile, window]);
    assert(u[split as int] == u[split as int]);
}

/// A window that is dropped on a tile, across the layout, stands in a new split with it, in the
/// tile's place. For a side above or to the left the window comes first, else the tile does.
#[verifier::spinoff_prover]
pub proof fn dropping_across_pairs_the_two(
    t: Tree,
    window: usize,
    parent: usize,
    k: int,
    tile: usize,
    side: DropPosition,
    gaps: Gaps,
)
    requires
        wf(t),
        valid(t, window),
        valid(t, parent),
        kind(t, window).is_window(),
        kind(t, parent).is_direction(),
        t[window as int].parent is Some,
        !is_only_child_of_split(t, window),
        0 <= k < t[parent as int].children.len(),
        t[parent as int].children[k] == tile,
        kind(t, tile) == ContainerKind::TilingWindow,
        tile != window,
        t.len() < MAX_CONTAINERS,
        t.len() < usize::MAX,
    ensures
        ({
            let split = t.len() as usize;
            let u = dropped_across(t, window, parent, tile, side, gaps);
            &&& wf(u)
            &&& u.len() == t.len() + 1
            &&& same_but_shares(t, u)
            &&& side == DropPosition::Top || side == DropPosition::Left
                ==> u[split as int].children == seq![window, tile]
            &&& side == DropPosition::Bottom || side == DropPosition::Right
                ==> u[split as int].children == seq![tile, window]
            &&& kind(u, split) == ContainerKind::Split
            &&& u[split as int].data.tiling_direction != t[parent as int].data.tiling_direction
            &&& u[split as int].parent == Some(parent)
            &&& u[window as int].parent == Some(split)
            &&& u[tile as int].parent == Some(split)
            &&& u[parent as int].children == without(
                t[parent as int].children.update(k, split),
                window,
            )
        }),
{
    let split = t.len() as usize;
    let direction = t[parent as int].data.tiling_direction.inverse();
    assert(valid(t, t[parent as int].children[k]));
    lemma_wrapped_alone(t, parent, k, tile, direction, gaps);
    lemma_apart_from_wrapped(t, parent, k, tile, direction, gaps, window);
    if t[window as int].parent != Some(parent) {
        lemma_not_among(t, parent, k, split, window);
    }
    let w = wrapped(with_new_split(t, direction, gaps), split, parent, seq![tile]);
    let index: int = if side == DropPosition::Top || side == DropPosition::Left {
        0
    } else {
        1
    };
    let u = moved(w, window, split, index);
    lemma_moved_in(w, window, split, tile, index);
    lemma_same_twice(t, w, u);
    lemma_without(t[parent as int].children.update(k, split), window);
}

/// A window that is dropped beside a tile stands right before it for a side above or to the left,
/// and else right after it. All others keep their order.
#[verifier::spinoff_prover]
pub proof fn dropping_beside_keeps_the_order(
    t: Tree,
    window: usize,
    parent: usize,
    k: int,
    tile: usize,
    side: DropPosition,
)
    requires
        wf(t),
        valid(t, window),
        valid(t, parent),
        kind(t, window).is_window(),
        kind(t, parent).is_direction(),
        t[window as int].parent is Some,
        !is_only_child_of_split(t, window),
        0 <= k < t[parent as int].children.len(),
        t[parent as int].children[k] == tile,
        tile != window,
    ensures
        ({
            let u = dropped_beside(t, window, parent, tile, side);
            let others = without(t[parent as int].children, window);
            let at = position(others, tile);
            &&& u.len() == t.len()
            &&& u[window as int].parent == Some(parent)
            &&& 0 <= at < others.len() && others[at] == tile
            &&& side == DropPosition::Top || side == DropPosition::Left
                ==> u[parent as int].children == others.insert(at, window)
            &&& side == DropPosition::Bottom || side == DropPosition::Right
                ==> u[parent as int].children == others.insert(at + 1, window)
        }),
{
    let all = t[parent as int].children;
    let own = t[window as int].parent->0;
    let others = without(all, window);
    lemma_children(t, parent);
    assert(all.no_duplicates());
    lemma_position_is(all, tile, k);
    lemma_without(all, window);
    assert(others.contains(tile)) by {
        assert(all.contains(tile));
    }
    lemma_position(others, tile);
    lemma_parent_facts(t, window);
    lemma_window_childless(t, window);
    let before = side == DropPosition::Top || side == DropPosition::Left;
    if own == parent {
        let j = position(all, window);
        lemma_position(all, window);
        lemma_without_at(all, window, j);
        let at = if j < k {
            k - 1
        } else {
            k
        };
        assert(others[at] == tile);
        lemma_position_is(others, tile, at);
        let index = if before {
            at
        } else {
            at + 1
        };
        lemma_moved_within(t, window, parent, index);
    } else {
        assert(!all.contains(window)) by {
            if all.contains(window) {
                let j = choose|j: int| 0 <= j < all.len() && all[j] == window;
                assert(t[t[parent as int].children[j] as int].parent == Some(parent));
            }
        }
        lemma_moved_children(
            t,
            window,
            parent,
            if before {
                k
            } else {
                k + 1
            },
        );
    }
}

/// What is nearest to a point is one of the tiles, and none of them is nearer.
pub proof fn the_nearest_is_nearest(t: Tree, ids: Seq<usize>, point: Point)
    ensures
        nearest_of(t, ids, point) matches Ok(Some(found)) ==> {
            &&& ids.contains(found)
            &&& ids.len() > 1 ==> rect_of(t, found) is Some && forall|k: int|
                0 <= k < ids.len() ==> (rect_of(t, #[trigger] ids[k]) matches Some(rect)
                    && rect_of(t, found)->0.distance_squared(point) <= rect.distance_squared(point))
        },
        nearest_of(t, ids, point) matches Ok(None) ==> ids.len() == 0,
        (forall|k: int| 0 <= k < ids.len() ==> rect_of(t, #[trigger] ids[k]) is Some)
            ==> nearest_of(t, ids, point) is Ok,
    decreases ids.len(),
{
    if ids.len() > 0 {
        let front = ids.drop_last();
        the_nearest_is_nearest(t, front, point);
        if forall|k: int| 0 <= k < ids.len() ==> rect_of(t, #[trigger] ids[k]) is Some {
            assert forall|k: int| 0 <= k < front.len() implies rect_of(
                t,
                #[trigger] front[k],
            ) is Some by {
                assert(front[k] == ids[k]);
            }
            assert(rect_of(t, ids[ids.len() - 1]) is Some);
            if let Ok(Some(before)) = nearest_of(t, front, point) {
                let j = choose|j: int| 0 <= j < front.len() && front[j] == before;
                assert(rect_of(t, ids[j]) is Some);
            }
        }
        if let Ok(Some(found)) = nearest_of(t, ids, point) {
            assert(ids[ids.len() - 1] == ids.last());
            if let Ok(Some(before)) = nearest_of(t, front, point) {
                let j = choose|j: int| 0 <= j < front.len() && front[j] == before;
                assert(ids[j] == before);
                assert forall|k: int| 0 <= k < ids.len() implies (rect_of(
                    t,
                    #[trigger] ids[k],
                ) matches Some(rect) && rect_of(t, found)->0.distance_squared(point)
                    <= rect.distance_squared(point)) by {
                    if k < front.len() {
                        assert(front[k] == ids[k]);
                        if front.len() == 1 {
                            assert(before == front[k]);
                        }
                    }
                }
            } else {
                assert(front.len() == 0);
            }
        }
    }
}

/// A window that is dropped on a workspace goes to the tile nearest to the point. Where the point
/// is in the quarter above or below a window that stands in a row, or to the left or right of one
/// that stands in a column, the two are paired in a new split in its place; else the window goes
/// beside it. It comes first for the quarter above or to the left, and last for the one below or to
/// the right. A split keeps its tiles to itself: a window goes beside it.
#[verifier::spinoff_prover]
pub proof fn windows_drop_on_the_side_of_the_point(
    t: Tree,
    sync: PendingSyncView,
    window: usize,
    point: Point,
    workspace: usize,
    gaps: Gaps,
    parent: usize,
    k: int,
    tile: usize,
    rect: Rect,
)
    requires
        wf(t),
        valid(t, window),
        kind(t, window).is_window(),
        t[window as int].parent is Some,
        !is_only_child_of_split(t, window),
        valid(t, parent),
        kind(t, parent).is_direction(),
        parent == drop_parent(t, window, workspace, point),
        nearest_of(t, without(tiles(t, parent), window), point) == Ok::<Option<usize>, WmError>(
            Some(tile),
        ),
        0 <= k < t[parent as int].children.len(),
        t[parent as int].children[k] == tile,
        tile != window,
        is_tile(t, tile),
        rect_of(t, tile) == Some(rect),
        t.len() < MAX_CONTAINERS,
        t.len() < usize::MAX,
    ensures
        ({
            let split = t.len() as usize;
            let dx = point.x - rect.center_x();
            let dy = point.y - rect.center_y();
            let above = dy <= 0 && int_abs(dx) <= int_abs(dy);
            let below = dy > 0 && int_abs(dx) <= int_abs(dy);
            let left = dx < 0 && int_abs(dx) > int_abs(dy);
            let right = dx > 0 && int_abs(dx) > int_abs(dy);
            let in_row = t[parent as int].data.tiling_direction == TilingDirection::Horizontal;
            let paired = kind(t, tile) == ContainerKind::TilingWindow && (if in_row {
                above || below
            } else {
                left || right
            });
            let others = without(t[parent as int].children, window);
            let at = position(others, tile);
            let (u, after, res) = dropped(t, sync, window, point, workspace, gaps);
            let shown = paired && kind(t, window) == ContainerKind::TilingWindow && rect_of(
                u,
                window,
            ) is Some && rect_of(u, tile) is Some;
            &&& res is Ok
            &&& after.redraw == sync.redraw.insert(parent)
            &&& paired ==> {
                &&& above || left ==> u[split as int].children == seq![window, tile]
                &&& below || right ==> u[split as int].children == seq![tile, window]
                &&& u[split as int].data.tiling_direction != t[parent as int].data.tiling_direction
                &&& u[split as int].parent == Some(parent)
                &&& u[parent as int].children == without(
                    t[parent as int].children.update(k, split),
                    window,
                )
            }
            &&& !paired ==> {
                &&& u.len() == t.len()
                &&& u[window as int].parent == Some(parent)
                &&& above || left ==> u[parent as int].children == others.insert(at, window)
                &&& below || right ==> u[parent as int].children == others.insert(at + 1, window)
            }
            &&& shown && above ==> rect_of(u, window)->0.bottom
                + t[tile as int].data.inner_gaps.y == rect_of(u, tile)->0.top
            &&& shown && below ==> rect_of(u, tile)->0.bottom
                + t[window as int].data.inner_gaps.y == rect_of(u, window)->0.top
            &&& shown && left ==> rect_of(u, window)->0.right
                + t[tile as int].data.inner_gaps.x == rect_of(u, tile)->0.left
            &&& shown && right ==> rect_of(u, tile)->0.right
                + t[window as int].data.inner_gaps.x == rect_of(u, window)->0.left
        }),
{
    let split = t.len() as usize;
    let side = drop_position_of(point, rect);
    lemma_children(t, parent);
    assert(valid(t, t[parent as int].children[k]));
    let all = tiles(t, parent);
    lemma_tiles_in(t, t[parent as int].children);
    assert(t[parent as int].children.contains(tile));
    lemma_without(all, window);
    assert(without(all, window).contains(tile));
    assert(without(all, window).len() > 0);
    if kind(t, tile) == ContainerKind::TilingWindow && side.is_across(
        t[parent as int].data.tiling_direction,
    ) {
        dropping_across_pairs_the_two(t, window, parent, k, tile, side, gaps);
        let u = dropped_across(t, window, parent, tile, side, gaps);
        lemma_pair_rects(t, u, window, tile, split);
    } else {
        dropping_beside_keeps_the_order(t, window, parent, k, tile, side);
    }
}

/// The two of a pair stand side by side, the first one first.
#[verifier::spinoff_prover]
proof fn lemma_pair_rects(t: Tree, u: Tree, window: usize, tile: usize, split: usize)
    requires
        wf(u),
        same_but_shares(t, u),
        valid(t, window),
        valid(t, tile),
        valid(u, split),
        is_tile(t, tile),
        u[window as int].parent == Some(split),
        u[tile as int].parent == Some(split),
        window != tile,
        u[split as int].children == seq![window, tile] || u[split as int].children == seq![
            tile,
            window,
        ],
    ensures
        kind(t, window) == ContainerKind::TilingWindow && rect_of(u, window) is Some && rect_of(
            u,
            tile,
        ) is Some ==> ({
            let a = rect_of(u, window)->0;
            let b = rect_of(u, tile)->0;
            let first = u[split as int].children[0] == window;
            let horizontal = u[split as int].data.tiling_direction == TilingDirection::Horizontal;
            &&& first && horizontal ==> b.left == a.right + t[tile as int].data.inner_gaps.x
            &&& first && !horizontal ==> b.top == a.bottom + t[tile as int].data.inner_gaps.y
            &&& !first && horizontal ==> a.left == b.right + t[window as int].data.inner_gaps.x
            &&& !first && !horizontal ==> a.top == b.bottom + t[window as int].data.inner_gaps.y
        }),
{
    if kind(t, window) == ContainerKind::TilingWindow && rect_of(u, window) is Some && rect_of(
        u,
        tile,
    ) is Some {
        let all = u[split as int].children;
        lemma_kinds(t, u);
        assert(u[window as int] == u[window as int] && u[tile as int] == u[tile as int]);
        lemma_all_tiles(u, all);
        tiles_part_their_container(u, window);
        tiles_part_their_container(u, tile);
        let outer = rect_of(u, split)->0;
        tiles_stand_side_by_side(u, split, outer, 0);
        lemma_gaps(t, u, window);
        lemma_gaps(t, u, tile);
    }
}

proof fn lemma_gaps(t: Tree, u: Tree, id: usize)
    requires
        same_but_shares(t, u),
        valid(t, id),
    ensures
        u[id as int].data.inner_gaps == t[id as int].data.inner_gaps,
{
    assert((NodeData {
        tiling_size: t[id as int].data.tiling_size,
        ..u[id as int].data
    }) == t[id as int].data);
}

/// The container that a window is dropped into is the deepest split at the point, or the workspace
/// where there is none: it has the point, and no other split that has it stands deeper.
pub proof fn the_deepest_is_deepest(
    t: Tree,
    ids: Seq<usize>,
    start: usize,
    moving: usize,
    point: Point,
)
    ensures
        ({
            let found = deepest_at(t, ids, start, moving, point);
            &&& found == start || {
                &&& ids.contains(found)
                &&& found != moving
                &&& kind(t, found) == ContainerKind::Split
                &&& rect_of(t, found) matches Some(rect)
                &&& rect.left <= point.x < rect.right
                &&& rect.top <= point.y < rect.bottom
            }
            &&& ancestors(t, start).len() <= ancestors(t, found).len()
            &&& forall|k: int|
                0 <= k < ids.len() && ids[k] != moving && kind(t, ids[k]) == ContainerKind::Split
                    && (rect_of(t, ids[k]) matches Some(rect) && rect.left <= point.x < rect.right
                    && rect.top <= point.y < rect.bottom) ==> ancestors(
                    t,
                    #[trigger] ids[k],
                ).len() <= ancestors(t, found).len()
        }),
    decreases ids.len(),
{
    if ids.len() > 0 {
        let front = ids.drop_last();
        the_deepest_is_deepest(t, front, start, moving, point);
        let before = deepest_at(t, front, start, moving, point);
        let found = deepest_at(t, ids, start, moving, point);
        assert(ids[ids.len() - 1] == ids.last());
        if found == before && front.contains(before) {
            let j = choose|j: int| 0 <= j < front.len() && front[j] == before;
            assert(ids[j] == before);
        }
        assert forall|k: int|
            0 <= k < ids.len() && ids[k] != moving && kind(t, ids[k]) == ContainerKind::Split && (
            rect_of(t, ids[k]) matches Some(rect) && rect.left <= point.x < rect.right && rect.top
                <= point.y < rect.bottom) implies ancestors(t, #[trigger] ids[k]).len()
            <= ancestors(t, found).len() by {
            if k < front.len() {
                assert(front[k] == ids[k]);
            }
        }
    }
}

proof fn lemma_first_monitor(t: Tree, ids: Seq<usize>, point: Point)
    ensures
        first_monitor_at(t, ids, point) matches Some(found) ==> {
            &&& ids.contains(found)
            &&& kind(t, found) == ContainerKind::Monitor
            &&& t[found as int].data.rect.left <= point.x < t[found as int].data.rect.right
            &&& t[found as int].data.rect.top <= point.y < t[found as int].data.rect.bottom
        },
        first_monitor_at(t, ids, point) is None ==> forall|k: int|
            0 <= k < ids.len() && kind(t, #[trigger] ids[k]) == ContainerKind::Monitor ==> {
                let rect = t[ids[k] as int].data.rect;
                !(rect.left <= point.x < rect.right && rect.top <= point.y < rect.bottom)
            },
    decreases ids.len(),
{
    if ids.len() > 0 {
        let front = ids.drop_last();
        lemma_first_monitor(t, front, point);
        assert(ids[ids.len() - 1] == ids.last());
        if let Some(found) = first_monitor_at(t, front, point) {
            let j = choose|j: int| 0 <= j < front.len() && front[j] == found;
            assert(ids[j] == found);
        } else {
            assert forall|k: int|
                0 <= k < ids.len() && first_monitor_at(t, ids, point) is None && kind(
                    t,
                    #[trigger] ids[k],
                ) == ContainerKind::Monitor implies {
                let rect = t[ids[k] as int].data.rect;
                !(rect.left <= point.x < rect.right && rect.top <= point.y < rect.bottom)
            } by {
                if k < front.len() {
                    assert(front[k] == ids[k]);
                }
            }
        }
    }
}

/// A window is dropped on the workspace that is shown where the cursor is: the one that had the
/// focus last on a monitor under the cursor. Where the cursor is on no monitor, or nothing is shown
/// there, it is dropped on its own workspace.
pub proof fn windows_drop_on_the_workspace_under_the_cursor(t: Tree, window: usize, cursor: Point)
    ensures
        ({
            let monitors = t[0].children;
            match workspace_at(t, cursor) {
                Some(workspace) => {
                    &&& drop_target(t, window, cursor) == Ok::<usize, WmError>(workspace)
                    &&& kind(t, workspace) == ContainerKind::Workspace
                    &&& monitor_at(t, cursor) matches Some(monitor)
                    &&& monitors.contains(monitor)
                    &&& t[monitor as int].focus.len() > 0 && t[monitor as int].focus[0] == workspace
                    &&& t[monitor as int].data.rect.left <= cursor.x
                        < t[monitor as int].data.rect.right
                    &&& t[monitor as int].data.rect.top <= cursor.y
                        < t[monitor as int].data.rect.bottom
                },
                None => {
                    &&& workspace_of(t, window) matches Some(own) ==> drop_target(t, window, cursor)
                        == Ok::<usize, WmError>(own)
                    &&& workspace_of(t, window) is None ==> drop_target(t, window, cursor) is Err
                    &&& monitor_at(t, cursor) is None ==> forall|k: int|
                        0 <= k < monitors.len() && kind(t, #[trigger] monitors[k])
                            == ContainerKind::Monitor ==> {
                            let rect = t[monitors[k] as int].data.rect;
                            !(rect.left <= cursor.x < rect.right && rect.top <= cursor.y
                                < rect.bottom)
                        }
                },
            }
        }),
{
    lemma_first_monitor(t, t[0].children, cursor);
}

/// A tile that is dragged out of its slot and well into that of another is placed there while the
/// drag lasts, as if it were dropped; both workspaces are drawn again.
pub proof fn dragged_tiles_take_the_slot_under_the_cursor(
    t: Tree,
    sync: PendingSyncView,
    window: usize,
    cursor: Point,
    gaps: Gaps,
    workspace: usize,
    slot: Rect,
    k: int,
    other: Rect,
)
    requires
        workspace_at(t, cursor) == Some(workspace),
        workspace_of(t, window) is Some,
        rect_of(t, window) == Some(slot),
        cursor.x < slot.left - 16 || cursor.x > slot.right + 16 || cursor.y < slot.top - 16
            || cursor.y > slot.bottom + 16,
        0 <= k < descendants(t, workspace).len(),
        ({
            let id = descendants(t, workspace)[k];
            &&& id != window
            &&& kind(t, id) == ContainerKind::TilingWindow
            &&& t[id as int].data.window.state == WindowState::Tiling
            &&& rect_of(t, id) == Some(other)
        }),
        other.left + 16 <= cursor.x <= other.right - 16,
        other.top + 16 <= cursor.y <= other.bottom - 16,
    ensures
        ({
            let there = dropped(t, sync, window, cursor, workspace, gaps);
            let (u, after, res) = previewed(t, sync, window, cursor, gaps);
            &&& u == there.0
            &&& res == there.2
            &&& res is Ok ==> after.redraw.contains(workspace) && after.redraw.contains(
                workspace_of(t, window)->0,
            )
        }),
{
    assert(is_slot_at(t, descendants(t, workspace)[k], window, cursor));
}

/// A tile that is dragged stays where it is while the cursor is no further than the margin from its
/// slot, and while it is well inside no other slot of a workspace that has tiles.
pub proof fn dragged_tiles_stay_near_their_slot(
    t: Tree,
    sync: PendingSyncView,
    window: usize,
    cursor: Point,
    gaps: Gaps,
    slot: Rect,
)
    requires
        rect_of(t, window) == Some(slot),
        slot.left - 16 <= cursor.x <= slot.right + 16,
        slot.top - 16 <= cursor.y <= slot.bottom + 16,
    ensures
        previewed(t, sync, window, cursor, gaps) == (t, sync, Ok::<(), WmError>(())),
{
}

} // verus!
