//! Where a window stands after it has been moved in a direction.

use vstd::prelude::*;

use crate::errors::WmError;
use crate::frame_laws::{moving_changes_shares_only, same_but_shares};
use crate::geometry::{Direction, Rect, TilingDirection};
use crate::lists::{lemma_position_is, lemma_without_at, without};
use crate::move_command::{
    crossed, crossing_window, focused_within, moved_in_direction, moved_tiling, moved_to_workspace,
    ready_to_move, stepped, tiling_step, MonitorTarget, MoveContext, TilingStep,
};
use crate::pending_sync::PendingSyncView;
use crate::shares::share_ok;
use crate::traversal::{enclosing_fuel, monitor_of, workspace_of};
use crate::tree::{
    attached, detached, focused, is_only_child_of_split, is_tile, kind, linked, moved,
    tile_siblings, tiles, tiles_in, valid, wf, with_focus, with_window, ContainerKind, NodeData,
    Tree, WindowProps,
};
use crate::tree_laws::{
    attaching_keeps_tree, cut_out, focusing_keeps_tree, lemma_children, lemma_parent_facts,
    lemma_same_links_wf, moving_keeps_tree, unlinking_keeps_tree,
};
use crate::trip_laws::{is_normal, normal_layouts_stay};
use crate::window_laws::lemma_window_childless;

verus! {

/// What moving a window into another container does to the children of both.
#[verifier::spinoff_prover]
pub proof fn lemma_moved_children(t: Tree, id: usize, parent: usize, index: int)
    requires
        wf(t),
        valid(t, id),
        valid(t, parent),
        id != parent,
        kind(t, id).is_window(),
        t[id as int].parent matches Some(p) && p != parent,
        !is_only_child_of_split(t, id),
        kind(t, parent).is_direction(),
        0 <= index <= t[parent as int].children.len(),
    ensures
        ({
            let u = moved(t, id, parent, index);
            let source = t[id as int].parent->0;
            &&& u.len() == t.len()
            &&& u[id as int].parent == Some(parent)
            &&& u[parent as int].children == t[parent as int].children.insert(index, id)
            &&& u[source as int].children == without(t[source as int].children, id)
            &&& u[parent as int].parent == t[parent as int].parent
            &&& u[source as int].parent == t[source as int].parent
            &&& forall|i: int|
                0 <= i < t.len() && i != id && i != parent && i != source ==> (
                #[trigger] u[i]).parent == t[i].parent && u[i].children == t[i].children
        }),
{
    reveal(moved);
    let p = t[id as int].parent->0;
    let c = cut_out(t, id);
    let d = detached(t, id);
    lemma_parent_facts(t, id);
    lemma_window_childless(t, id);
    unlinking_keeps_tree(t, id);
    assert(d[parent as int].children == c[parent as int].children);
    let a = attached(d, id, parent, index);
    let u = moved(t, id, parent, index);
    attaching_keeps_tree(d, id, parent, index);
    focusing_keeps_tree(a, id, t.len());
    let l = linked(d, id, parent, index);
    assert forall|i: int| 0 <= i < t.len() implies (#[trigger] u[i]).parent == a[i].parent
        && u[i].children == a[i].children by {}
    assert(u[parent as int].parent == l[parent as int].parent);
    assert(u[p as int].parent == l[p as int].parent);
    assert forall|i: int| 0 <= i < t.len() && i != id && i != parent && i != p implies (
    #[trigger] u[i]).parent == t[i].parent && u[i].children == t[i].children by {
        assert(a[i].parent == l[i].parent);
        assert(d[i].parent == c[i].parent);
    }
}

/// Putting a container first in focus orders leaves all else alone.
pub proof fn lemma_focused_within(t: Tree, id: usize, end: usize, fuel: nat)
    requires
        wf(t),
        valid(t, id),
    ensures
        ({
            let u = focused_within(t, id, end, fuel);
            &&& u.len() == t.len()
            &&& forall|i: int|
                0 <= i < t.len() ==> (#[trigger] u[i]).parent == t[i].parent && u[i].children
                    == t[i].children && u[i].data == t[i].data
        }),
    decreases fuel,
{
    if fuel > 0 {
        if let Some(p) = t[id as int].parent {
            let u = with_focus(t, p, without(t[p as int].focus, id).insert(0, id));
            lemma_parent_facts(t, id);
            focusing_keeps_tree(t, id, 1);
            assert(focused(t, id, 1) == focused(u, p, 0));
            assert(focused(u, p, 0) == u);
            if p != end {
                lemma_focused_within(u, p, end, (fuel - 1) as nat);
            }
        }
    }
}

/// A window on its way to another monitor is to float in the middle of the area there.
proof fn lemma_crossing_window(window: WindowProps, is_tiled: bool, target: MonitorTarget, area: Rect)
    ensures
        ({
            let before = window.floating_placement;
            let now = crossing_window(window, is_tiled, target, area)->0.floating_placement;
            &&& 0 <= before.w() <= area.w() && 0 <= before.h() <= area.h() ==> crossing_window(
                window,
                is_tiled,
                target,
                area,
            ) is Some
            &&& crossing_window(window, is_tiled, target, area) matches Some(props) ==> {
                &&& now.w() == before.w()
                &&& now.h() == before.h()
                &&& -2 <= (now.left - area.left) - (area.right - now.right) <= 2
                &&& -2 <= (now.top - area.top) - (area.bottom - now.bottom) <= 2
                &&& props.has_pending_dpi_adjustment <==> window.has_pending_dpi_adjustment
                    || target.has_dpi_difference
                &&& props.has_insertion_target <==> window.has_insertion_target && is_tiled
                &&& props.state == window.state
            }
        }),
{
}

/// The links of a tree after a window has crossed to another workspace.
#[verifier::spinoff_prover]
proof fn lemma_crossed_links(
    t: Tree,
    window: usize,
    workspace: usize,
    target: usize,
    props: WindowProps,
    direction: Direction,
    focus_target: Option<usize>,
)
    requires
        wf(t),
        valid(t, window),
        kind(t, window).is_window(),
        t[window as int].parent matches Some(p) && p != target,
        !is_only_child_of_split(t, window),
        valid(t, target),
        kind(t, target) == ContainerKind::Workspace,
        focus_target matches Some(id) ==> valid(t, id),
    ensures
        ({
            let source = t[window as int].parent->0;
            let there = t[target as int].children;
            let u = crossed(t, window, workspace, target, props, direction, focus_target);
            &&& u.len() == t.len()
            &&& u[window as int].parent == Some(target)
            &&& u[window as int].data.window == props
            &&& direction == Direction::Right || direction == Direction::Down
                ==> u[target as int].children == seq![window] + there
            &&& direction == Direction::Left || direction == Direction::Up
                ==> u[target as int].children == there.push(window)
            &&& u[source as int].children == without(t[source as int].children, window)
            &&& forall|i: int|
                0 <= i < t.len() && i != source && i != target ==> (#[trigger] u[i]).children
                    == t[i].children
        }),
{
    let there = t[target as int].children;
    lemma_parent_facts(t, window);
    lemma_window_childless(t, window);
    let t1 = with_window(t, window, props);
    assert forall|i: int| 0 <= i < t.len() implies share_ok(
        #[trigger] t1[i].data.tiling_size as int,
    ) by {
        assert(share_ok(t[i].data.tiling_size as int));
    }
    lemma_same_links_wf(t, t1);
    let forward = direction == Direction::Right || direction == Direction::Down;
    let index: int = if forward {
        0
    } else {
        there.len() as int
    };
    lemma_moved_children(t1, window, target, index);
    moving_changes_shares_only(t1, window, target, index);
    moving_keeps_tree(t1, window, target, index);
    let t2 = moved(t1, window, target, index);
    if let Some(id) = focus_target {
        lemma_focused_within(t2, id, workspace, t2.len());
    }
    assert(there.insert(0, window) =~= seq![window] + there);
    assert(there.insert(there.len() as int, window) =~= there.push(window));
    lemma_window_data(t1, t2, window);
}

/// A window that goes to the next monitor enters the workspace there at the near edge: a window that
/// moves right or down comes first among what stands there, one that moves left or up comes last, and
/// the others keep their order. It leaves the container that it stood in. It floats in the middle of
/// the workspace with the size that it had, if it floats again. All that is affected is drawn again,
/// and the cursor follows.
#[verifier::spinoff_prover]
pub proof fn crossing_enters_at_the_near_edge(
    t: Tree,
    sync: PendingSyncView,
    window: usize,
    direction: Direction,
    target: MonitorTarget,
    focus_target: Option<usize>,
)
    requires
        wf(t),
        valid(t, window),
        kind(t, window).is_window(),
        t[window as int].parent matches Some(p) && p != target.workspace,
        !is_only_child_of_split(t, window),
        valid(t, target.workspace),
        kind(t, target.workspace) == ContainerKind::Workspace,
        focus_target matches Some(id) ==> valid(t, id),
    ensures
        ({
            let source = t[window as int].parent->0;
            let there = t[target.workspace as int].children;
            let area = t[target.workspace as int].data.rect;
            let before = t[window as int].data.window;
            let (u, after, res) = moved_to_workspace(
                t,
                sync,
                window,
                direction,
                Some(target),
                focus_target,
            );
            let now = u[window as int].data.window;
            &&& workspace_of(t, window) is Some && monitor_of(t, source) is Some ==> res is Ok
                || res == Err::<(), WmError>(WmError::OutOfRange)
            &&& workspace_of(t, window) is Some && monitor_of(t, source) is Some && 0
                <= before.floating_placement.w() <= area.w() && 0 <= before.floating_placement.h()
                <= area.h() ==> res is Ok
            &&& workspace_of(t, window) is None ==> res == Err::<(), WmError>(WmError::NoWorkspace)
            &&& res is Err ==> u == t && after == sync
            &&& res is Ok ==> {
                &&& u.len() == t.len()
                &&& u[window as int].parent == Some(target.workspace)
                &&& direction == Direction::Right || direction == Direction::Down
                    ==> u[target.workspace as int].children == seq![window] + there
                &&& direction == Direction::Left || direction == Direction::Up
                    ==> u[target.workspace as int].children == there.push(window)
                &&& u[source as int].children == without(t[source as int].children, window)
                &&& forall|i: int|
                    0 <= i < t.len() && i != source && i != target.workspace ==> (
                    #[trigger] u[i]).children == t[i].children
                &&& now.floating_placement.w() == before.floating_placement.w()
                &&& now.floating_placement.h() == before.floating_placement.h()
                &&& -2 <= (now.floating_placement.left - area.left) - (area.right
                    - now.floating_placement.right) <= 2
                &&& -2 <= (now.floating_placement.top - area.top) - (area.bottom
                    - now.floating_placement.bottom) <= 2
                &&& now.has_pending_dpi_adjustment <==> before.has_pending_dpi_adjustment
                    || target.has_dpi_difference
                &&& kind(t, window) == ContainerKind::TilingWindow ==> now.has_insertion_target
                    == before.has_insertion_target
                &&& kind(t, window) == ContainerKind::NonTilingWindow ==> !now.has_insertion_target
                &&& now.state == before.state
                &&& after.redraw.contains(window)
                &&& forall|y: usize| sync.redraw.contains(y) ==> #[trigger] after.redraw.contains(y)
                &&& forall|y: usize|
                    (tiles(u, source).contains(y) || tiles(u, target.workspace).contains(y))
                        ==> #[trigger] after.redraw.contains(y)
                &&& after.cursor_jump
                &&& after.reorder == sync.reorder.insert(target.workspace)
                &&& after.animations_suppressed == sync.animations_suppressed
            }
        }),
{
    let source = t[window as int].parent->0;
    let own = t[window as int].data.window;
    let is_tiled = kind(t, window) == ContainerKind::TilingWindow;
    let area = t[target.workspace as int].data.rect;
    let (u, after, res) = moved_to_workspace(t, sync, window, direction, Some(target), focus_target);
    lemma_crossing_window(own, is_tiled, target, area);
    if res is Ok {
        lemma_crossed_links(
            t,
            window,
            workspace_of(t, window)->0,
            target.workspace,
            crossing_window(own, is_tiled, target, area)->0,
            direction,
            focus_target,
        );
        assert forall|y: usize|
            (tiles(u, source).contains(y) || tiles(u, target.workspace).contains(
                y,
            )) implies #[trigger] after.redraw.contains(y) by {}
    }
}

proof fn lemma_window_data(t: Tree, u: Tree, window: usize)
    requires
        same_but_shares(t, u),
        valid(t, window),
    ensures
        u[window as int].data.window == t[window as int].data.window,
{
    assert((NodeData {
        tiling_size: t[window as int].data.tiling_size,
        ..u[window as int].data
    }) == t[window as int].data);
}

/// Where nothing is a tile there are no tiles.
pub proof fn lemma_no_tiles(t: Tree, ids: Seq<usize>)
    requires
        forall|k: int| 0 <= k < ids.len() ==> !is_tile(t, #[trigger] ids[k]),
    ensures
        tiles_in(t, ids).len() == 0,
    decreases ids.len(),
{
    if ids.len() > 0 {
        let front = ids.drop_last();
        assert forall|k: int| 0 <= k < front.len() implies !is_tile(t, #[trigger] front[k]) by {
            assert(front[k] == ids[k]);
        }
        lemma_no_tiles(t, front);
        assert(!is_tile(t, ids[ids.len() - 1]));
    }
}

/// A tile at the edge of its workspace, with no other tile beyond it in the direction that it is
/// moved in, goes to the next monitor, and so does the only tile of a workspace. It stays where no
/// monitor is there.
#[verifier::spinoff_prover]
pub proof fn edge_tiles_cross(
    t: Tree,
    sync: PendingSyncView,
    workspace: usize,
    window: usize,
    k: int,
    direction: Direction,
    context: MoveContext,
)
    requires
        wf(t),
        valid(t, workspace),
        kind(t, workspace) == ContainerKind::Workspace,
        is_normal(t, workspace),
        0 <= k < t[workspace as int].children.len(),
        t[workspace as int].children[k] == window,
        kind(t, window) == ContainerKind::TilingWindow,
        t[workspace as int].data.tiling_direction == TilingDirection::from_direction(direction)
            || tiles(t, workspace) == seq![window],
        direction == Direction::Right || direction == Direction::Down ==> forall|j: int|
            k < j < t[workspace as int].children.len() ==> !is_tile(
                t,
                #[trigger] t[workspace as int].children[j],
            ),
        direction == Direction::Left || direction == Direction::Up ==> forall|j: int|
            0 <= j < k ==> !is_tile(t, #[trigger] t[workspace as int].children[j]),
        monitor_of(t, workspace) is Some,
        context.focus_target matches Some(id) ==> valid(t, id),
        context.target matches Some(target) ==> valid(t, target.workspace) && kind(
            t,
            target.workspace,
        ) == ContainerKind::Workspace && target.workspace != workspace,
    ensures
        ({
            let (u, after, res) = moved_tiling(t, sync, window, direction, context);
            &&& context.target is None ==> u == t && after == sync && res is Ok
            &&& context.target matches Some(target) ==> {
                let there = t[target.workspace as int].children;
                let before = t[window as int].data.window.floating_placement;
                let area = t[target.workspace as int].data.rect;
                &&& res is Ok || res == Err::<(), WmError>(WmError::OutOfRange)
                &&& 0 <= before.w() <= area.w() && 0 <= before.h() <= area.h() ==> res is Ok
                &&& res is Ok ==> {
                    &&& u[window as int].parent == Some(target.workspace)
                    &&& direction == Direction::Right || direction == Direction::Down
                        ==> u[target.workspace as int].children == seq![window] + there
                    &&& direction == Direction::Left || direction == Direction::Up
                        ==> u[target.workspace as int].children == there.push(window)
                    &&& u[workspace as int].children == t[workspace as int].children.remove(k)
                    &&& after.cursor_jump
                    &&& after.redraw.contains(window)
                }
            }
        }),
{
    let all = t[workspace as int].children;
    lemma_children(t, workspace);
    assert(valid(t, t[workspace as int].children[k]));
    assert(t[window as int].parent == Some(workspace));
    assert(all.no_duplicates());
    lemma_position_is(all, window, k);
    lemma_without_at(all, window, k);
    normal_layouts_stay(t, workspace);
    assert(!is_only_child_of_split(t, window));
    assert(ready_to_move(t, window, workspace) == t);
    assert(enclosing_fuel(t, workspace, ContainerKind::Workspace, (t.len() - 1) as nat) == Some(
        workspace,
    ));
    assert(workspace_of(t, window) == Some(workspace));
    if direction == Direction::Right || direction == Direction::Down {
        let rest = all.skip(k + 1);
        assert forall|j: int| 0 <= j < rest.len() implies !is_tile(t, #[trigger] rest[j]) by {
            assert(rest[j] == t[workspace as int].children[j + k + 1]);
        }
        lemma_no_tiles(t, rest);
    } else {
        let rest = all.take(k);
        assert forall|j: int| 0 <= j < rest.len() implies !is_tile(t, #[trigger] rest[j]) by {
            assert(rest[j] == t[workspace as int].children[j]);
        }
        lemma_no_tiles(t, rest);
    }
    if tiles(t, workspace) == seq![window] {
        assert(seq![window].no_duplicates());
        lemma_without_at(seq![window], window, 0);
        assert(tile_siblings(t, window).len() == 0);
    }
    assert(tiling_step(t, window, direction) == TilingStep::ToWorkspace);
    reveal(stepped);
    if let Some(target) = context.target {
        crossing_enters_at_the_near_edge(
            t,
            sync,
            window,
            direction,
            target,
            context.focus_target,
        );
    }
}

/// A window that fills the screen goes to the next monitor, one that is minimized stays.
pub proof fn full_screen_windows_cross(
    t: Tree,
    sync: PendingSyncView,
    window: usize,
    direction: Direction,
    context: MoveContext,
)
    requires
        kind(t, window) == ContainerKind::NonTilingWindow,
    ensures
        t[window as int].data.window.state is Fullscreen ==> moved_in_direction(
            t,
            sync,
            window,
            direction,
            context,
        ) == moved_to_workspace(
            t,
            sync,
            window,
            direction,
            context.target,
            context.focus_target,
        ),
        t[window as int].data.window.state is Minimized ==> moved_in_direction(
            t,
            sync,
            window,
            direction,
            context,
        ) == (t, sync, Ok::<(), WmError>(())),
{
}

} // verus!
