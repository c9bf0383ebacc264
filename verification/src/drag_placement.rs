//! Placing a tiled window where it is dragged to.

use vstd::prelude::*;

use crate::errors::WmError;
use crate::frame_laws::{lemma_same_twice, same_but_shares, wrapping_changes_shares_only};
use crate::geometry::{abs_i64, half_i64, int_abs, Point, Rect, TilingDirection};
use crate::layout::Layout;
use crate::lists::{
    contains, lemma_position, lemma_position_is, lemma_shifted, lemma_without, lemma_without_at,
    position, remove_item, shifted, without,
};
use crate::pending_sync::{PendingSync, PendingSyncView};
use crate::placement::rect_of;
use crate::shares::MAX_CONTAINERS;
use crate::traversal::{ancestors, descendants, workspace_of};
use crate::tree::{kind, moved, tiles, valid, wf, wrapped, ContainerKind, Gaps, Tree, WindowState};
use crate::tree_laws::{
    are_tiles_of, lemma_children, lemma_parent_facts, lemma_tiles, lemma_wrapped,
};
use crate::window_laws::{keeps_windows, lemma_keeps_windows_twice, wrapping_keeps_windows};
use crate::window_move::{lemma_new_split, move_child, new_split, with_new_split};
use crate::window_size::Outcome;

verus! {

/// Where a window is dropped over another.
#[derive(Debug, Clone, Copy, PartialEq, Eq, Structural)]
pub enum DropPosition {
    Top,
    Bottom,
    Left,
    Right,
}

/// The quarter of a rectangle that a point lies in, where the two diagonals divide it.
pub open spec fn drop_position_of(point: Point, rect: Rect) -> DropPosition {
    let dx = point.x - rect.center_x();
    let dy = point.y - rect.center_y();
    if int_abs(dx) > int_abs(dy) {
        if dx > 0 {
            DropPosition::Right
        } else {
            DropPosition::Left
        }
    } else if dy > 0 {
        DropPosition::Bottom
    } else {
        DropPosition::Top
    }
}

impl DropPosition {
    /// Whether the window goes before the one it is dropped on.
    pub open spec fn is_before(self) -> bool {
        self == DropPosition::Top || self == DropPosition::Left
    }

    pub open spec fn is_across(self, direction: TilingDirection) -> bool {
        (direction == TilingDirection::Horizontal) == (self == DropPosition::Top || self
            == DropPosition::Bottom)
    }
}

/// The quarter of a rectangle that a point lies in. The rectangle is divided crosswise, so the
/// quarter tells which side is closest.
pub fn drop_position(point: &Point, rect: &Rect) -> (res: DropPosition)
    ensures
        res == drop_position_of(*point, *rect),
{
    let dx: i64 = point.x as i64 - (rect.left as i64 + half_i64(rect.wide_width()));
    let dy: i64 = point.y as i64 - (rect.top as i64 + half_i64(rect.wide_height()));
    if abs_i64(dx) > abs_i64(dy) {
        if dx > 0 {
            DropPosition::Right
        } else {
            DropPosition::Left
        }
    } else if dy > 0 {
        DropPosition::Bottom
    } else {
        DropPosition::Top
    }
}

/// Whether a point lies on a rectangle that is widened on all sides.
pub open spec fn within_margin(rect: Rect, point: Point, margin: int) -> bool {
    rect.left - margin <= point.x <= rect.right + margin && rect.top - margin <= point.y
        <= rect.bottom + margin
}

/// Whether a point lies on a rectangle that is widened on all sides, or narrowed by a negative
/// margin.
pub fn contains_with_margin(rect: &Rect, point: &Point, margin: i32) -> (res: bool)
    ensures
        res == within_margin(*rect, *point, margin as int),
{
    point.x as i64 >= rect.left as i64 - margin as i64 && point.x as i64 <= rect.right as i64
        + margin as i64 && point.y as i64 >= rect.top as i64 - margin as i64 && point.y as i64
        <= rect.bottom as i64 + margin as i64
}

/// The place to move to so that a window ends up in front of what is at `insertion`: leaving its
/// own place moves what is behind it up.
pub open spec fn place_after_leaving(same_parent: bool, source: int, insertion: int) -> int {
    if same_parent && source < insertion {
        insertion - 1
    } else {
        insertion
    }
}

pub fn insertion_index(same_parent: bool, source: usize, insertion: usize) -> (res: usize)
    ensures
        res == place_after_leaving(same_parent, source as int, insertion as int),
{
    if same_parent && source < insertion {
        insertion - 1
    } else {
        insertion
    }
}

/// Whether a split, other than the moved container, is under a point.
pub open spec fn is_split_at(t: Tree, id: usize, moving: usize, point: Point) -> bool {
    id != moving && kind(t, id) == ContainerKind::Split && (rect_of(t, id) matches Some(rect)
        && rect.has_point(point))
}

/// The deepest of some splits under a point, or `start` if none is deeper.
pub open spec fn deepest_at(
    t: Tree,
    ids: Seq<usize>,
    start: usize,
    moving: usize,
    point: Point,
) -> usize
    decreases ids.len(),
{
    if ids.len() == 0 {
        start
    } else {
        let before = deepest_at(t, ids.drop_last(), start, moving, point);
        if is_split_at(t, ids.last(), moving, point) && ancestors(t, ids.last()).len()
            > ancestors(t, before).len() {
            ids.last()
        } else {
            before
        }
    }
}

/// The container that a window is dropped into.
pub open spec fn drop_parent(t: Tree, window: usize, workspace: usize, point: Point) -> usize {
    deepest_at(t, descendants(t, workspace), workspace, window, point)
}

fn find_deepest(layout: &Layout, window: usize, workspace: usize, point: &Point) -> (res: usize)
    requires
        layout.wf(),
        valid(layout@, workspace),
        kind(layout@, workspace) == ContainerKind::Workspace,
    ensures
        res == drop_parent(layout@, window, workspace, *point),
        valid(layout@, res),
        kind(layout@, res).is_direction(),
{
    let all = layout.descendants(workspace);
    let mut found: usize = workspace;
    let mut depth: usize = layout.ancestors(workspace).len();
    assert(all@.take(0) =~= Seq::<usize>::empty());
    for i in 0..all.len()
        invariant
            layout.wf(),
            forall|k: int| 0 <= k < all.len() ==> valid(layout@, #[trigger] all[k]),
            found == deepest_at(layout@, all@.take(i as int), workspace, window, *point),
            valid(layout@, found),
            kind(layout@, found).is_direction(),
            depth == ancestors(layout@, found).len(),
    {
        assert(valid(layout@, all[i as int]));
        assert(all@.take(i + 1).drop_last() =~= all@.take(i as int));
        let id = all[i];
        if id != window && layout.kind(id) == ContainerKind::Split {
            if let Some(rect) = layout.to_rect(id) {
                if rect.contains_point(point) {
                    let here: usize = layout.ancestors(id).len();
                    if here > depth {
                        found = id;
                        depth = here;
                    }
                }
            }
        }
    }
    assert(all@.take(all.len() as int) =~= all@);
    found
}

/// The nearest of some tiles to a point, a later one where two are equally near. `Ok(None)` where
/// there is no tile, an error where a rectangle that is compared cannot be represented.
pub open spec fn nearest_of(t: Tree, ids: Seq<usize>, point: Point) -> Result<
    Option<usize>,
    WmError,
>
    decreases ids.len(),
{
    if ids.len() == 0 {
        Ok(None)
    } else {
        match nearest_of(t, ids.drop_last(), point) {
            Err(error) => Err(error),
            Ok(None) => Ok(Some(ids.last())),
            Ok(Some(before)) => match (rect_of(t, before), rect_of(t, ids.last())) {
                (Some(a), Some(b)) => if a.distance_squared(point) < b.distance_squared(point) {
                    Ok(Some(before))
                } else {
                    Ok(Some(ids.last()))
                },
                _ => Err(WmError::OutOfRange),
            },
        }
    }
}

proof fn lemma_nearest_fails(t: Tree, ids: Seq<usize>, point: Point, k: int)
    requires
        0 <= k <= ids.len(),
        nearest_of(t, ids.take(k), point) is Err,
    ensures
        nearest_of(t, ids, point) == nearest_of(t, ids.take(k), point),
    decreases ids.len() - k,
{
    if k == ids.len() {
        assert(ids.take(k) =~= ids);
    } else {
        assert(ids.take(k + 1).drop_last() =~= ids.take(k));
        lemma_nearest_fails(t, ids, point, k + 1);
    }
}

#[verifier::spinoff_prover]
fn find_nearest(layout: &Layout, ids: &Vec<usize>, point: &Point) -> (res: Result<
    Option<usize>,
    WmError,
>)
    requires
        layout.wf(),
        forall|k: int| 0 <= k < ids.len() ==> valid(layout@, #[trigger] ids[k]),
    ensures
        res == nearest_of(layout@, ids@, *point),
        res matches Ok(None) ==> ids.len() == 0,
        res matches Ok(Some(found)) ==> ids@.contains(found),
{
    let mut nearest: Option<usize> = None;
    assert(ids@.take(0) =~= Seq::<usize>::empty());
    for i in 0..ids.len()
        invariant
            layout.wf(),
            forall|k: int| 0 <= k < ids.len() ==> valid(layout@, #[trigger] ids[k]),
            nearest_of(layout@, ids@.take(i as int), *point) == Ok::<Option<usize>, WmError>(
                nearest,
            ),
            nearest is None ==> i == 0,
            nearest matches Some(found) ==> ids@.contains(found) && valid(layout@, found),
    {
        assert(valid(layout@, ids[i as int]));
        assert(ids@.take(i + 1).drop_last() =~= ids@.take(i as int));
        let id = ids[i];
        match nearest {
            None => {
                nearest = Some(id);
            },
            Some(before) => {
                let first = layout.to_rect(before);
                let second = layout.to_rect(id);
                match (first, second) {
                    (Some(a), Some(b)) => {
                        if !(a.distance_to_point_squared(point) < b.distance_to_point_squared(
                            point,
                        )) {
                            nearest = Some(id);
                        }
                    },
                    _ => {
                        proof {
                            lemma_nearest_fails(layout@, ids@, *point, i + 1);
                        }
                        return Err(WmError::OutOfRange);
                    },
                }
            },
        }
    }
    assert(ids@.take(ids.len() as int) =~= ids@);
    Ok(nearest)
}

/// The tree after a window has been dropped on a tile, at a side that is across the layout: both
/// stand in a new split.
pub open spec fn dropped_across(
    t: Tree,
    window: usize,
    parent: usize,
    nearest: usize,
    side: DropPosition,
    gaps: Gaps,
) -> Tree {
    let split = t.len() as usize;
    moved(
        wrapped(
            with_new_split(t, t[parent as int].data.tiling_direction.inverse(), gaps),
            split,
            parent,
            seq![nearest],
        ),
        window,
        split,
        if side.is_before() {
            0
        } else {
            1
        },
    )
}

/// The tree after a window has been dropped beside a tile.
pub open spec fn dropped_beside(
    t: Tree,
    window: usize,
    parent: usize,
    nearest: usize,
    side: DropPosition,
) -> Tree {
    let place = position(t[parent as int].children, nearest);
    let own = t[window as int].parent->0;
    moved(
        t,
        window,
        parent,
        place_after_leaving(
            own == parent,
            position(t[own as int].children, window),
            if side.is_before() {
                place
            } else {
                place + 1
            },
        ),
    )
}

/// What dropping a window into a container with other tiles comes to.
pub open spec fn dropped_into(
    t: Tree,
    sync: PendingSyncView,
    window: usize,
    parent: usize,
    point: Point,
    gaps: Gaps,
) -> Outcome {
    match nearest_of(t, without(tiles(t, parent), window), point) {
        Err(error) => (t, sync, Err(error)),
        Ok(None) => (t, sync, Err(WmError::NoNearestContainer)),
        Ok(Some(nearest)) => match rect_of(t, nearest) {
            None => (t, sync, Err(WmError::OutOfRange)),
            Some(rect) => {
                let side = drop_position_of(point, rect);
                if kind(t, nearest) == ContainerKind::TilingWindow && side.is_across(
                    t[parent as int].data.tiling_direction,
                ) {
                    if t.len() >= MAX_CONTAINERS {
                        (t, sync, Err(WmError::TooManyContainers))
                    } else {
                        (
                            dropped_across(t, window, parent, nearest, side, gaps),
                            sync.with_redraw(parent),
                            Ok(()),
                        )
                    }
                } else {
                    (
                        dropped_beside(t, window, parent, nearest, side),
                        sync.with_redraw(parent),
                        Ok(()),
                    )
                }
            },
        },
    }
}

/// What dropping a window on a workspace comes to.
pub open spec fn dropped(
    t: Tree,
    sync: PendingSyncView,
    window: usize,
    point: Point,
    workspace: usize,
    gaps: Gaps,
) -> Outcome {
    let parent = drop_parent(t, window, workspace, point);
    if t[window as int].parent is None {
        (t, sync, Err(WmError::NoParent))
    } else if without(tiles(t, parent), window).len() == 0 {
        // Nothing else is there, as on an empty workspace.
        (moved(t, window, parent, 0), sync, Ok(()))
    } else {
        dropped_into(t, sync, window, parent, point, gaps)
    }
}

#[verifier::spinoff_prover]
fn drop_across(
    layout: &mut Layout,
    window: usize,
    parent: usize,
    nearest: usize,
    side: DropPosition,
    gaps: Gaps,
)
    requires
        old(layout).wf(),
        valid(old(layout)@, window),
        valid(old(layout)@, parent),
        kind(old(layout)@, window).is_window(),
        kind(old(layout)@, parent).is_direction(),
        old(layout)@[window as int].parent is Some,
        tiles(old(layout)@, parent).contains(nearest),
        nearest != window,
        old(layout)@.len() < MAX_CONTAINERS,
    ensures
        final(layout)@ == dropped_across(old(layout)@, window, parent, nearest, side, gaps),
        final(layout).wf(),
        keeps_windows(old(layout)@, final(layout)@),
        same_but_shares(old(layout)@, final(layout)@),
{
    let ghost t = layout@;
    let direction = layout.tiling_direction(parent).inverse();
    let split = new_split(layout, direction, gaps);
    let ghost t1 = layout@;
    let mut ids: Vec<usize> = Vec::new();
    ids.push(nearest);
    assert(ids@ =~= seq![nearest]);
    proof {
        lemma_new_split(t, direction, gaps, parent);
        assert(are_tiles_of(t1, ids@, parent));
        wrapping_keeps_windows(t1, split, parent, ids@);
        wrapping_changes_shares_only(t1, split, parent, ids@);
        lemma_wrapped(t1, split, parent, ids@);
        assert(!ids@.contains(window));
    }
    layout.wrap_in_split_container(split, parent, &ids);
    let ghost t2 = layout@;
    proof {
        lemma_keeps_windows_twice(t, t1, t2);
        lemma_same_twice(t, t1, t2);
    }
    let index: usize = match side {
        DropPosition::Top | DropPosition::Left => 0,
        _ => 1,
    };
    move_child(layout, window, split, index);
    proof {
        lemma_keeps_windows_twice(t, t2, layout@);
        lemma_same_twice(t, t2, layout@);
    }
}

fn drop_beside(
    layout: &mut Layout,
    window: usize,
    parent: usize,
    nearest: usize,
    side: DropPosition,
)
    requires
        old(layout).wf(),
        valid(old(layout)@, window),
        valid(old(layout)@, parent),
        kind(old(layout)@, window).is_window(),
        kind(old(layout)@, parent).is_direction(),
        old(layout)@[window as int].parent is Some,
        tiles(old(layout)@, parent).contains(nearest),
    ensures
        final(layout)@ == dropped_beside(old(layout)@, window, parent, nearest, side),
        final(layout).wf(),
        keeps_windows(old(layout)@, final(layout)@),
        same_but_shares(old(layout)@, final(layout)@),
{
    proof {
        lemma_tiles(layout@, parent);
        lemma_children(layout@, parent);
    }
    let place = layout.index(nearest);
    let insertion: usize = match side {
        DropPosition::Top | DropPosition::Left => place,
        _ => place + 1,
    };
    let same_parent: bool = match layout.parent(window) {
        Some(own) => own == parent,
        None => false,
    };
    let source = layout.index(window);
    let index = insertion_index(same_parent, source, insertion);
    move_child(layout, window, parent, index);
}

/// Places a tiled window on a workspace, at the point where it is dragged to: beside the nearest
/// tile of the deepest container there, or in a new split with it.
#[verifier::spinoff_prover]
pub fn place_tiling_window(
    layout: &mut Layout,
    sync: &mut PendingSync,
    window: usize,
    point: &Point,
    workspace: usize,
    gaps: Gaps,
) -> (res: Result<(), WmError>)
    requires
        old(layout).wf(),
        valid(old(layout)@, window),
        valid(old(layout)@, workspace),
        kind(old(layout)@, window).is_window(),
        kind(old(layout)@, workspace) == ContainerKind::Workspace,
    ensures
        (final(layout)@, final(sync)@, res) == dropped(
            old(layout)@,
            old(sync)@,
            window,
            *point,
            workspace,
            gaps,
        ),
        final(layout).wf(),
        keeps_windows(old(layout)@, final(layout)@),
        same_but_shares(old(layout)@, final(layout)@),
{
    if layout.parent(window).is_none() {
        return Err(WmError::NoParent);
    }
    let parent = find_deepest(layout, window, workspace, point);
    let all = layout.tiling_children(parent);
    let others = remove_item(&all, window);
    proof {
        lemma_tiles(layout@, parent);
        lemma_without(tiles(layout@, parent), window);
    }
    if others.len() == 0 {
        move_child(layout, window, parent, 0);
        return Ok(());
    }
    assert forall|k: int| 0 <= k < others.len() implies valid(layout@, #[trigger] others[k]) by {
        assert(others@.contains(others@[k]));
    }
    let nearest = match find_nearest(layout, &others, point) {
        Ok(Some(nearest)) => nearest,
        Ok(None) => {
            return Err(WmError::NoNearestContainer);
        },
        Err(error) => {
            return Err(error);
        },
    };
    let rect = match layout.to_rect(nearest) {
        Some(rect) => rect,
        None => {
            return Err(WmError::OutOfRange);
        },
    };
    let side = drop_position(point, &rect);
    let vertical_side: bool = match side {
        DropPosition::Top | DropPosition::Bottom => true,
        _ => false,
    };
    let across: bool = (layout.tiling_direction(parent) == TilingDirection::Horizontal)
        == vertical_side;
    if layout.kind(nearest) == ContainerKind::TilingWindow && across {
        if layout.len() as u64 >= MAX_CONTAINERS {
            return Err(WmError::TooManyContainers);
        }
        drop_across(layout, window, parent, nearest, side, gaps);
    } else {
        drop_beside(layout, window, parent, nearest, side);
    }
    sync.queue_container_to_redraw(parent);
    Ok(())
}

/// The first of some monitors that a point lies on.
pub open spec fn first_monitor_at(t: Tree, ids: Seq<usize>, point: Point) -> Option<usize>
    decreases ids.len(),
{
    if ids.len() == 0 {
        None
    } else {
        match first_monitor_at(t, ids.drop_last(), point) {
            Some(found) => Some(found),
            None => if kind(t, ids.last()) == ContainerKind::Monitor
                && t[ids.last() as int].data.rect.has_point(point) {
                Some(ids.last())
            } else {
                None
            },
        }
    }
}

/// The monitor that a point lies on. Monitors stand in the root, container number 0.
pub open spec fn monitor_at(t: Tree, point: Point) -> Option<usize> {
    first_monitor_at(t, t[0].children, point)
}

/// The workspace that a monitor shows: the one that had the focus last.
pub open spec fn displayed_workspace_of(t: Tree, monitor: usize) -> Option<usize> {
    if t[monitor as int].focus.len() > 0 && kind(t, t[monitor as int].focus[0])
        == ContainerKind::Workspace {
        Some(t[monitor as int].focus[0])
    } else {
        None
    }
}

/// The workspace under a point.
pub open spec fn workspace_at(t: Tree, point: Point) -> Option<usize> {
    match monitor_at(t, point) {
        Some(monitor) => displayed_workspace_of(t, monitor),
        None => None,
    }
}

/// Finds the monitor that a point lies on.
pub fn monitor_at_point(layout: &Layout, point: &Point) -> (res: Option<usize>)
    requires
        layout.wf(),
        layout@.len() > 0,
    ensures
        res == monitor_at(layout@, *point),
        res matches Some(found) ==> valid(layout@, found),
{
    let ids = layout.children(0);
    proof {
        lemma_children(layout@, 0);
    }
    let mut res: Option<usize> = None;
    assert(ids@.take(0) =~= Seq::<usize>::empty());
    for i in 0..ids.len()
        invariant
            ids@ == layout@[0].children,
            forall|k: int| 0 <= k < ids.len() ==> valid(layout@, #[trigger] layout@[0].children[k]),
            res == first_monitor_at(layout@, ids@.take(i as int), *point),
            res matches Some(found) ==> valid(layout@, found),
    {
        assert(valid(layout@, layout@[0].children[i as int]));
        assert(ids@.take(i + 1).drop_last() =~= ids@.take(i as int));
        if res.is_none() {
            let data = layout.data(ids[i]);
            if data.kind == ContainerKind::Monitor && data.rect.contains_point(point) {
                res = Some(ids[i]);
            }
        }
    }
    assert(ids@.take(ids.len() as int) =~= ids@);
    res
}

/// Finds the workspace that is shown at a point.
pub fn workspace_at_point(layout: &Layout, point: &Point) -> (res: Option<usize>)
    requires
        layout.wf(),
        layout@.len() > 0,
    ensures
        res == workspace_at(layout@, *point),
        res matches Some(found) ==> valid(layout@, found) && kind(layout@, found)
            == ContainerKind::Workspace,
{
    let monitor = match monitor_at_point(layout, point) {
        Some(monitor) => monitor,
        None => {
            return None;
        },
    };
    proof {
        lemma_children(layout@, monitor);
    }
    let focus = layout.focus_order(monitor);
    if focus.len() == 0 {
        return None;
    }
    assert(valid(layout@, layout@[monitor as int].focus[0]));
    if layout.kind(focus[0]) == ContainerKind::Workspace {
        Some(focus[0])
    } else {
        None
    }
}

/// The workspace that a window is dropped on: the one under the cursor, or else its own.
pub open spec fn drop_target(t: Tree, window: usize, cursor: Point) -> Result<usize, WmError> {
    match workspace_at(t, cursor) {
        Some(workspace) => Ok(workspace),
        None => match workspace_of(t, window) {
            Some(workspace) => Ok(workspace),
            None => Err(WmError::NoWorkspace),
        },
    }
}

/// Finds the workspace that a dragged window is dropped on.
pub fn drop_workspace(layout: &Layout, window: usize, cursor: &Point) -> (res: Result<
    usize,
    WmError,
>)
    requires
        layout.wf(),
        valid(layout@, window),
    ensures
        res == drop_target(layout@, window, *cursor),
        res matches Ok(found) ==> valid(layout@, found) && kind(layout@, found)
            == ContainerKind::Workspace,
{
    match workspace_at_point(layout, cursor) {
        Some(workspace) => Ok(workspace),
        None => match layout.workspace(window) {
            Some(workspace) => Ok(workspace),
            None => Err(WmError::NoWorkspace),
        },
    }
}

/// How far the cursor must leave the slot of a dragged window, and enter that of another, before
/// the layout changes.
pub const SLOT_MARGIN: i32 = 16;

/// Whether a window, other than the dragged one, is tiled and well under the cursor.
pub open spec fn is_slot_at(t: Tree, id: usize, moving: usize, cursor: Point) -> bool {
    id != moving && kind(t, id).is_window() && t[id as int].data.window.state
        == WindowState::Tiling && (rect_of(t, id) matches Some(rect) && within_margin(
        rect,
        cursor,
        -SLOT_MARGIN as int,
    ))
}

/// Whether some tiled window on a workspace is well under the cursor.
pub open spec fn has_slot_at(t: Tree, workspace: usize, moving: usize, cursor: Point) -> bool {
    exists|k: int|
        0 <= k < descendants(t, workspace).len() && is_slot_at(
            t,
            #[trigger] descendants(t, workspace)[k],
            moving,
            cursor,
        )
}

fn find_slot(layout: &Layout, workspace: usize, moving: usize, cursor: &Point) -> (res: bool)
    requires
        layout.wf(),
        valid(layout@, workspace),
    ensures
        res == has_slot_at(layout@, workspace, moving, *cursor),
{
    let all = layout.descendants(workspace);
    for i in 0..all.len()
        invariant
            layout.wf(),
            all@ == descendants(layout@, workspace),
            forall|k: int| 0 <= k < all.len() ==> valid(layout@, #[trigger] all[k]),
            forall|k: int|
                0 <= k < i ==> !is_slot_at(
                    layout@,
                    #[trigger] descendants(layout@, workspace)[k],
                    moving,
                    *cursor,
                ),
    {
        assert(valid(layout@, all[i as int]));
        let id = all[i];
        assert(id == descendants(layout@, workspace)[i as int]);
        let data = layout.data(id);
        if id != moving && (data.kind == ContainerKind::TilingWindow || data.kind
            == ContainerKind::NonTilingWindow) && data.window.state == WindowState::Tiling {
            if let Some(rect) = layout.to_rect(id) {
                if contains_with_margin(&rect, cursor, -SLOT_MARGIN) {
                    assert(is_slot_at(layout@, id, moving, *cursor));
                    return true;
                }
            }
        }
    }
    false
}

/// What dragging a tiled window comes to while the drag lasts.
pub open spec fn previewed(
    t: Tree,
    sync: PendingSyncView,
    window: usize,
    cursor: Point,
    gaps: Gaps,
) -> Outcome {
    match workspace_at(t, cursor) {
        None => (t, sync, Ok(())),
        Some(workspace) => match rect_of(t, window) {
            None => (t, sync, Err(WmError::OutOfRange)),
            Some(slot) => if within_margin(slot, cursor, SLOT_MARGIN as int) || (!has_slot_at(
                t,
                workspace,
                window,
                cursor,
            ) && tiles(t, workspace).len() > 0) {
                (t, sync, Ok(()))
            } else {
                match workspace_of(t, window) {
                    None => (t, sync, Err(WmError::NoWorkspace)),
                    Some(previous) => {
                        let after = dropped(t, sync, window, cursor, workspace, gaps);
                        if after.2 is Err {
                            after
                        } else {
                            (
                                after.0,
                                after.1.with_redraw(previous).with_redraw(workspace),
                                Ok(()),
                            )
                        }
                    },
                }
            },
        },
    }
}

/// Rearranges the layout under a tiled window while it is dragged. The slots of the layout count,
/// never the frames on the screen, and the cursor must be well inside another slot. Windows keep
/// their frames: only links and shares change.
pub fn preview_tiling_drag_at(
    layout: &mut Layout,
    sync: &mut PendingSync,
    window: usize,
    cursor: &Point,
    gaps: Gaps,
) -> (res: Result<(), WmError>)
    requires
        old(layout).wf(),
        valid(old(layout)@, window),
        kind(old(layout)@, window).is_window(),
    ensures
        (final(layout)@, final(sync)@, res) == previewed(
            old(layout)@,
            old(sync)@,
            window,
            *cursor,
            gaps,
        ),
        final(layout).wf(),
        keeps_windows(old(layout)@, final(layout)@),
        same_but_shares(old(layout)@, final(layout)@),
{
    let workspace = match workspace_at_point(layout, cursor) {
        Some(workspace) => workspace,
        None => {
            return Ok(());
        },
    };
    let slot = match layout.to_rect(window) {
        Some(slot) => slot,
        None => {
            return Err(WmError::OutOfRange);
        },
    };
    if contains_with_margin(&slot, cursor, SLOT_MARGIN) {
        return Ok(());
    }
    if !find_slot(layout, workspace, window, cursor) && layout.tiling_children(workspace).len()
        > 0 {
        return Ok(());
    }
    let previous = match layout.workspace(window) {
        Some(previous) => previous,
        None => {
            return Err(WmError::NoWorkspace);
        },
    };
    let placed = place_tiling_window(layout, sync, window, cursor, workspace, gaps);
    if placed.is_ok() {
        sync.queue_container_to_redraw(previous);
        sync.queue_container_to_redraw(workspace);
    }
    placed
}

/// A window that has been dropped beside a tile of its own row or column is in place: dropping it
/// there again, as under a cursor that rests, changes nothing.
#[verifier::spinoff_prover]
pub proof fn dropping_again_changes_nothing(
    t: Tree,
    window: usize,
    parent: usize,
    nearest: usize,
    side: DropPosition,
)
    requires
        wf(t),
        valid(t, window),
        t[window as int].parent == Some(parent),
        t[parent as int].children.contains(nearest),
        nearest != window,
    ensures
        ({
            let u = dropped_beside(t, window, parent, nearest, side);
            dropped_beside(u, window, parent, nearest, side) == u
        }),
{
    lemma_parent_facts(t, window);
    let all = t[parent as int].children;
    assert(t[parent as int].children.no_duplicates());
    let source = position(all, window);
    let place = position(all, nearest);
    lemma_position(all, window);
    lemma_position(all, nearest);
    let index = place_after_leaving(
        true,
        source,
        if side.is_before() {
            place
        } else {
            place + 1
        },
    );
    lemma_shifted(all, window, index);
    lemma_without_at(all, window, source);
    let after = shifted(all, window, index);
    assert(after[index] == window);
    lemma_position_is(after, window, index);
    let beside = if side.is_before() {
        index + 1
    } else {
        index - 1
    };
    assert(after[beside] == nearest);
    lemma_position_is(after, nearest, beside);
    lemma_without_at(after, window, index);
    assert(shifted(after, window, index) =~= after);
    let u = dropped_beside(t, window, parent, nearest, side);
    reveal(moved);
    assert(dropped_beside(u, window, parent, nearest, side) =~= u);
}

/// As long as the cursor is within the margin around the slot of a dragged window, nothing changes,
/// however it trembles.
pub proof fn jitter_changes_nothing(
    t: Tree,
    sync: PendingSyncView,
    window: usize,
    cursor: Point,
    gaps: Gaps,
)
    requires
        rect_of(t, window) matches Some(slot) && within_margin(slot, cursor, SLOT_MARGIN as int),
    ensures
        previewed(t, sync, window, cursor, gaps) == (t, sync, Ok::<(), WmError>(())),
{
}

/// On a workspace with tiles nothing changes until the cursor has entered the slot of another window
/// by the margin.
pub proof fn another_slot_must_be_entered(
    t: Tree,
    sync: PendingSyncView,
    window: usize,
    cursor: Point,
    gaps: Gaps,
)
    requires
        rect_of(t, window) is Some,
        workspace_at(t, cursor) matches Some(workspace) && tiles(t, workspace).len() > 0
            && !has_slot_at(t, workspace, window, cursor),
    ensures
        previewed(t, sync, window, cursor, gaps) == (t, sync, Ok::<(), WmError>(())),
{
}

} // verus!
