//! The command that moves a window in a direction.

use vstd::prelude::*;

use crate::errors::WmError;
use crate::floating_move::{move_floating_window, moved_floating, FloatingContext};
use crate::geometry::{Direction, Rect, TilingDirection};
use crate::layout::Layout;
use crate::lists::{insert_item, remove_item, without};
use crate::pending_sync::{PendingSync, PendingSyncView};
use crate::shares::share_ok;
use crate::split_ops::{lone_parents_flattened, splits_normalized};
use crate::traversal::{
    ancestors, descendants, lemma_sibling_in_direction, monitor_of, of_kind, sibling_in_direction,
    workspace_of,
};
use crate::tree::{
    focused, kind, moved, tile_siblings, tiles, valid, wf, with_focus, with_window, ContainerKind,
    Gaps, Tree, WindowProps, WindowState,
};
use crate::tree_laws::{focusing_keeps_tree, lemma_parent_facts, lemma_same_links_wf};
use crate::window_laws::{
    keeps_windows, lemma_keeps_windows_twice, lemma_same_links_keeps_windows,
};
use crate::window_move::{
    entry_place, find_along, first_along, insert_into_ancestor, invert_workspace_tiling_direction,
    move_child, move_to_sibling_container, move_to_vertical_workspace_edge, moved_across,
    moved_into_ancestor, moved_to_sibling, moved_to_vertical_edge, stack_with_neighbor,
    stacked_with_neighbor,
};
use crate::window_size::Outcome;
use crate::wm_state::WmState;

verus! {

/// The workspace on the next monitor in a direction.
#[derive(Debug, Clone, Copy, PartialEq, Eq, Structural)]
pub struct MonitorTarget {
    pub workspace: usize,
    /// Whether the monitor there has another resolution.
    pub has_dpi_difference: bool,
}

/// What surrounds a move of a window.
#[derive(Debug, Clone, Copy, PartialEq, Eq)]
pub struct MoveContext {
    /// The gaps in new splits.
    pub gaps: Gaps,
    /// The workspace that a window goes to when it leaves its own.
    pub target: Option<MonitorTarget>,
    /// What has the focus on the window's workspace once it has left.
    pub focus_target: Option<usize>,
    /// What surrounds the window while it floats.
    pub floating: FloatingContext,
}

impl MoveContext {
    /// Whether the containers that the context speaks of are what they should be.
    pub open spec fn fits(self, t: Tree) -> bool {
        &&& self.target matches Some(target) ==> valid(t, target.workspace) && kind(
            t,
            target.workspace,
        ) == ContainerKind::Workspace
        &&& self.focus_target matches Some(id) ==> valid(t, id)
    }
}

/// The tree after a container, and all it stands in up to `end`, have been put first in the
/// focus orders.
pub open spec fn focused_within(t: Tree, id: usize, end: usize, fuel: nat) -> Tree
    decreases fuel,
{
    match t[id as int].parent {
        Some(p) if fuel > 0 => {
            let u = with_focus(t, p, without(t[p as int].focus, id).insert(0, id));
            if p == end {
                u
            } else {
                focused_within(u, p, end, (fuel - 1) as nat)
            }
        },
        _ => t,
    }
}

/// Puts a container, and all it stands in up to `end`, first in the focus orders.
pub fn set_focused_within(layout: &mut Layout, id: usize, end: usize)
    requires
        old(layout).wf(),
        valid(old(layout)@, id),
    ensures
        final(layout)@ == focused_within(old(layout)@, id, end, old(layout)@.len()),
        final(layout).wf(),
        keeps_windows(old(layout)@, final(layout)@),
        final(layout)@.len() == old(layout)@.len(),
{
    let ghost t = layout@;
    let mut current: usize = id;
    let mut fuel: usize = layout.len();
    while fuel > 0
        invariant
            t == old(layout)@,
            layout.wf(),
            layout@.len() == t.len(),
            valid(t, current),
            keeps_windows(t, layout@),
            focused_within(t, id, end, t.len()) == focused_within(
                layout@,
                current,
                end,
                fuel as nat,
            ),
        decreases fuel,
    {
        let p = match layout.parent(current) {
            Some(p) => p,
            None => {
                return;
            },
        };
        let ghost before = layout@;
        proof {
            lemma_parent_facts(before, current);
            focusing_keeps_tree(before, current, 1);
        }
        let focus = layout.focus_order(p);
        let rest = remove_item(&focus, current);
        let new_focus = insert_item(&rest, 0, current);
        layout.set_focus(p, new_focus);
        proof {
            assert(focused(before, current, 1) == focused(layout@, p, 0));
            assert(focused(layout@, p, 0) == layout@);
            assert(keeps_windows(before, layout@));
            lemma_keeps_windows_twice(t, before, layout@);
        }
        if p == end {
            return;
        }
        current = p;
        fuel = fuel - 1;
    }
}

/// A window that crosses to another monitor: it floats in the middle of the workspace there,
/// and while it is not tiled it has no place to return to.
pub open spec fn crossing_window(
    window: WindowProps,
    is_tiled: bool,
    target: MonitorTarget,
    area: Rect,
) -> Option<WindowProps> {
    let placement = window.floating_placement;
    match placement.at(placement.centered_x(area), placement.centered_y(area)) {
        Some(floating_placement) => Some(
            WindowProps {
                floating_placement,
                has_pending_dpi_adjustment: window.has_pending_dpi_adjustment
                    || target.has_dpi_difference,
                has_insertion_target: window.has_insertion_target && is_tiled,
                ..window
            },
        ),
        None => None,
    }
}

/// The tree after a window has crossed to the workspace on another monitor.
pub open spec fn crossed(
    t: Tree,
    window: usize,
    workspace: usize,
    target: usize,
    props: WindowProps,
    direction: Direction,
    focus_target: Option<usize>,
) -> Tree {
    let t1 = with_window(t, window, props);
    let t2 = moved(t1, window, target, entry_place(t1, target, !direction.is_backward()));
    match focus_target {
        Some(id) => focused_within(t2, id, workspace, t2.len()),
        None => t2,
    }
}

/// What moving a window to the next monitor in a direction comes to.
pub open spec fn moved_to_workspace(
    t: Tree,
    sync: PendingSyncView,
    window: usize,
    direction: Direction,
    target: Option<MonitorTarget>,
    focus_target: Option<usize>,
) -> Outcome {
    match (t[window as int].parent, workspace_of(t, window)) {
        (None, _) => (t, sync, Err(WmError::NoParent)),
        (_, None) => (t, sync, Err(WmError::NoWorkspace)),
        (Some(parent), Some(workspace)) => match (monitor_of(t, parent), target) {
            (None, _) => (t, sync, Err(WmError::NoMonitor)),
            (_, None) => (t, sync, Ok(())),
            (_, Some(target)) => match crossing_window(
                t[window as int].data.window,
                kind(t, window) == ContainerKind::TilingWindow,
                target,
                t[target.workspace as int].data.rect,
            ) {
                None => (t, sync, Err(WmError::OutOfRange)),
                Some(props) => {
                    let u = crossed(
                        t,
                        window,
                        workspace,
                        target.workspace,
                        props,
                        direction,
                        focus_target,
                    );
                    (
                        u,
                        sync.with_redraw(window).with_redraws(
                            tiles(u, target.workspace),
                        ).with_redraws(tiles(u, parent)).with_cursor_jump().with_reorder(
                            target.workspace,
                        ),
                        Ok(()),
                    )
                },
            },
        },
    }
}

fn cross_to_workspace(
    layout: &mut Layout,
    window: usize,
    workspace: usize,
    target: usize,
    props: WindowProps,
    direction: Direction,
    focus_target: Option<usize>,
)
    requires
        old(layout).wf(),
        valid(old(layout)@, window),
        valid(old(layout)@, target),
        kind(old(layout)@, window).is_window(),
        old(layout)@[window as int].parent is Some,
        kind(old(layout)@, target) == ContainerKind::Workspace,
        focus_target matches Some(id) ==> valid(old(layout)@, id),
    ensures
        final(layout)@ == crossed(
            old(layout)@,
            window,
            workspace,
            target,
            props,
            direction,
            focus_target,
        ),
        final(layout).wf(),
        keeps_windows(old(layout)@, final(layout)@),
        final(layout)@.len() == old(layout)@.len(),
{
    let ghost t = layout@;
    layout.set_window(window, props);
    let ghost t1 = layout@;
    proof {
        assert forall|i: int| 0 <= i < t.len() implies share_ok(
            #[trigger] t1[i].data.tiling_size as int,
        ) by {
            assert(share_ok(t[i].data.tiling_size as int));
        }
        lemma_same_links_wf(t, t1);
        lemma_same_links_keeps_windows(t, t1);
        assert(t1[window as int].parent == t[window as int].parent);
    }
    let index: usize = if direction.is_backward() {
        layout.child_count(target)
    } else {
        0
    };
    move_child(layout, window, target, index);
    let ghost t2 = layout@;
    proof {
        lemma_keeps_windows_twice(t, t1, t2);
    }
    if let Some(id) = focus_target {
        set_focused_within(layout, id, workspace);
        proof {
            lemma_keeps_windows_twice(t, t2, layout@);
        }
    }
}

fn move_to_workspace_in_direction(
    layout: &mut Layout,
    sync: &mut PendingSync,
    window: usize,
    direction: Direction,
    target: Option<MonitorTarget>,
    focus_target: Option<usize>,
) -> (res: Result<(), WmError>)
    requires
        old(layout).wf(),
        valid(old(layout)@, window),
        kind(old(layout)@, window).is_window(),
        target matches Some(found) ==> valid(old(layout)@, found.workspace) && kind(
            old(layout)@,
            found.workspace,
        ) == ContainerKind::Workspace,
        focus_target matches Some(id) ==> valid(old(layout)@, id),
    ensures
        (final(layout)@, final(sync)@, res) == moved_to_workspace(
            old(layout)@,
            old(sync)@,
            window,
            direction,
            target,
            focus_target,
        ),
        final(layout).wf(),
        keeps_windows(old(layout)@, final(layout)@),
{
    let parent = match layout.parent(window) {
        Some(parent) => parent,
        None => {
            return Err(WmError::NoParent);
        },
    };
    proof {
        lemma_parent_facts(layout@, window);
    }
    let workspace = match layout.workspace(window) {
        Some(workspace) => workspace,
        None => {
            return Err(WmError::NoWorkspace);
        },
    };
    if layout.monitor(parent).is_none() {
        return Err(WmError::NoMonitor);
    }
    let target = match target {
        Some(target) => target,
        None => {
            return Ok(());
        },
    };
    let props = layout.window(window);
    let area = layout.data(target.workspace).rect;
    let floating_placement = match props.floating_placement.translate_to_center(&area) {
        Some(placement) => placement,
        None => {
            return Err(WmError::OutOfRange);
        },
    };
    let is_tiled = layout.kind(window) == ContainerKind::TilingWindow;
    let crossing = WindowProps {
        floating_placement,
        has_pending_dpi_adjustment: props.has_pending_dpi_adjustment || target.has_dpi_difference,
        has_insertion_target: props.has_insertion_target && is_tiled,
        ..props
    };
    cross_to_workspace(
        layout,
        window,
        workspace,
        target.workspace,
        crossing,
        direction,
        focus_target,
    );
    let there = layout.tiling_children(target.workspace);
    let here = layout.tiling_children(parent);
    sync.queue_container_to_redraw(window);
    sync.queue_containers_to_redraw(&there);
    sync.queue_containers_to_redraw(&here);
    sync.queue_cursor_jump();
    sync.queue_workspace_to_reorder(target.workspace);
    Ok(())
}

/// The number of tiled windows on a workspace.
pub open spec fn window_count(t: Tree, workspace: usize) -> nat {
    of_kind(t, descendants(t, workspace), ContainerKind::TilingWindow).len()
}

/// What a step of a tiled window is.
#[derive(Debug, Clone, Copy, PartialEq, Eq, Structural)]
pub enum TilingStep {
    /// The window is not in the tree.
    Detached,
    /// Past or into the tile beside it.
    ToSibling(usize),
    /// Out of a column to the edge of the workspace.
    ToVerticalEdge,
    /// The window is on no workspace.
    Lost,
    /// Into a column with its neighbor.
    Stack,
    /// To the next monitor.
    ToWorkspace,
    /// Across the axis of the workspace.
    Across,
    /// Into a container above it.
    IntoAncestor(usize),
}

/// The step that a tiled window takes in a direction, in a tree without redundant splits.
pub open spec fn tiling_step(t: Tree, window: usize, direction: Direction) -> TilingStep {
    match t[window as int].parent {
        None => TilingStep::Detached,
        Some(parent) => {
            let axis = TilingDirection::from_direction(direction);
            let matching = t[parent as int].data.tiling_direction == axis;
            let on_workspace = kind(t, parent) == ContainerKind::Workspace;
            let count = tiles(t, parent).len();
            let workspace = workspace_of(t, window);
            if matching && sibling_in_direction(t, window, direction) is Some {
                TilingStep::ToSibling(sibling_in_direction(t, window, direction)->0)
            } else if direction.is_vertical() && matching && !on_workspace {
                TilingStep::ToVerticalEdge
            } else if direction.is_vertical() && !matching && count == 2 && workspace is None {
                TilingStep::Lost
            } else if direction.is_vertical() && !matching && count > 1 && (count > 2
                || window_count(t, workspace->0) >= 4) {
                TilingStep::Stack
            } else if (matching || tile_siblings(t, window).len() == 0) && on_workspace {
                TilingStep::ToWorkspace
            } else {
                match first_along(t, ancestors(t, parent), axis) {
                    Some(ancestor) => TilingStep::IntoAncestor(ancestor),
                    None => TilingStep::Across,
                }
            }
        },
    }
}

fn plan_step(layout: &Layout, window: usize, direction: Direction) -> (res: TilingStep)
    requires
        layout.wf(),
        valid(layout@, window),
        kind(layout@, window) == ContainerKind::TilingWindow,
    ensures
        res == tiling_step(layout@, window, direction),
        res matches TilingStep::IntoAncestor(ancestor) ==> valid(layout@, ancestor) && kind(
            layout@,
            ancestor,
        ).is_direction(),
        !(res is Detached) ==> layout@[window as int].parent is Some,
{
    let parent = match layout.parent(window) {
        Some(parent) => parent,
        None => {
            return TilingStep::Detached;
        },
    };
    proof {
        lemma_parent_facts(layout@, window);
    }
    let axis = TilingDirection::from_direction(direction);
    let matching = layout.tiling_direction(parent) == axis;
    if matching {
        if let Some(sibling) = layout.tiling_sibling_in_direction(window, direction) {
            return TilingStep::ToSibling(sibling);
        }
    }
    let on_workspace = layout.kind(parent) == ContainerKind::Workspace;
    if direction.is_vertical() && matching && !on_workspace {
        return TilingStep::ToVerticalEdge;
    }
    if direction.is_vertical() && !matching {
        let count: usize = layout.tiling_children(parent).len();
        if count > 2 {
            return TilingStep::Stack;
        }
        if count == 2 {
            match layout.workspace(window) {
                Some(workspace) => {
                    let all = layout.descendants(workspace);
                    let windows = layout.filter_kind(&all, ContainerKind::TilingWindow);
                    if windows.len() >= 4 {
                        return TilingStep::Stack;
                    }
                },
                None => {
                    return TilingStep::Lost;
                },
            }
        }
    }
    if (matching || layout.tiling_siblings(window).len() == 0) && on_workspace {
        return TilingStep::ToWorkspace;
    }
    let above = layout.ancestors(parent);
    match find_along(layout, &above, axis) {
        Some(ancestor) => TilingStep::IntoAncestor(ancestor),
        None => TilingStep::Across,
    }
}

/// What a step of a tiled window comes to.
#[verifier::opaque]
pub open spec fn stepped(
    t: Tree,
    sync: PendingSyncView,
    window: usize,
    direction: Direction,
    context: MoveContext,
) -> Outcome {
    match tiling_step(t, window, direction) {
        TilingStep::Detached => (t, sync, Err(WmError::NoDirectionContainer)),
        TilingStep::ToSibling(sibling) => moved_to_sibling(t, sync, window, sibling, direction),
        TilingStep::ToVerticalEdge => moved_to_vertical_edge(
            t,
            sync,
            window,
            direction,
            context.gaps,
        ),
        TilingStep::Lost => (t, sync, Err(WmError::NoWorkspace)),
        TilingStep::Stack => stacked_with_neighbor(t, sync, window, direction, context.gaps),
        TilingStep::ToWorkspace => moved_to_workspace(
            t,
            sync,
            window,
            direction,
            context.target,
            context.focus_target,
        ),
        TilingStep::Across => moved_across(t, sync, window, direction, context.gaps),
        TilingStep::IntoAncestor(ancestor) => moved_into_ancestor(
            t,
            sync,
            window,
            ancestor,
            direction,
        ),
    }
}

fn take_step(
    layout: &mut Layout,
    sync: &mut PendingSync,
    window: usize,
    direction: Direction,
    context: &MoveContext,
) -> (res: Result<(), WmError>)
    requires
        old(layout).wf(),
        valid(old(layout)@, window),
        kind(old(layout)@, window) == ContainerKind::TilingWindow,
        context.fits(old(layout)@),
    ensures
        (final(layout)@, final(sync)@, res) == stepped(
            old(layout)@,
            old(sync)@,
            window,
            direction,
            *context,
        ),
        final(layout).wf(),
        keeps_windows(old(layout)@, final(layout)@),
{
    proof {
        reveal(stepped);
    }
    match plan_step(layout, window, direction) {
        TilingStep::Detached => Err(WmError::NoDirectionContainer),
        TilingStep::ToSibling(sibling) => {
            proof {
                lemma_sibling_in_direction(layout@, window, direction);
            }
            move_to_sibling_container(layout, sync, window, sibling, direction)
        },
        TilingStep::ToVerticalEdge => move_to_vertical_workspace_edge(
            layout,
            sync,
            window,
            direction,
            context.gaps,
        ),
        TilingStep::Lost => Err(WmError::NoWorkspace),
        TilingStep::Stack => stack_with_neighbor(layout, sync, window, direction, context.gaps),
        TilingStep::ToWorkspace => move_to_workspace_in_direction(
            layout,
            sync,
            window,
            direction,
            context.target,
            context.focus_target,
        ),
        TilingStep::Across => invert_workspace_tiling_direction(
            layout,
            sync,
            window,
            direction,
            context.gaps,
        ),
        TilingStep::IntoAncestor(ancestor) => insert_into_ancestor(
            layout,
            sync,
            window,
            ancestor,
            direction,
        ),
    }
}

/// The tree without redundant splits on a window's workspace and around the window.
pub open spec fn ready_to_move(t: Tree, window: usize, workspace: usize) -> Tree {
    let u = splits_normalized(t, workspace);
    lone_parents_flattened(u, window, u.len())
}

/// What moving a tiled window in a direction comes to.
pub open spec fn moved_tiling(
    t: Tree,
    sync: PendingSyncView,
    window: usize,
    direction: Direction,
    context: MoveContext,
) -> Outcome {
    match workspace_of(t, window) {
        None => (t, sync, Err(WmError::NoWorkspace)),
        Some(workspace) => stepped(
            ready_to_move(t, window, workspace),
            sync,
            window,
            direction,
            context,
        ),
    }
}

/// Flattens the redundant splits on a window's workspace.
pub fn normalize_workspace_splits(layout: &mut Layout, window: usize) -> (res: Result<
    (),
    WmError,
>)
    requires
        old(layout).wf(),
        valid(old(layout)@, window),
    ensures
        match workspace_of(old(layout)@, window) {
            None => {
                &&& res == Err::<(), WmError>(WmError::NoWorkspace)
                &&& final(layout)@ == old(layout)@
            },
            Some(workspace) => res is Ok && final(layout)@ == splits_normalized(
                old(layout)@,
                workspace,
            ),
        },
        final(layout).wf(),
        keeps_windows(old(layout)@, final(layout)@),
        final(layout)@.len() == old(layout)@.len(),
{
    match layout.workspace(window) {
        Some(workspace) => {
            layout.normalize_splits(workspace);
            Ok(())
        },
        None => Err(WmError::NoWorkspace),
    }
}

/// Moves a tiled window in a direction: past or into the tile beside it, into a column with its
/// neighbor, out of the container it stands in, or to the next monitor.
pub fn move_tiling_window(
    window: usize,
    direction: &Direction,
    state: &mut WmState,
    context: &MoveContext,
) -> (res: Result<(), WmError>)
    requires
        old(state).layout.wf(),
        valid(old(state).layout@, window),
        kind(old(state).layout@, window) == ContainerKind::TilingWindow,
        context.fits(old(state).layout@),
    ensures
        (final(state).layout@, final(state).pending_sync@, res) == moved_tiling(
            old(state).layout@,
            old(state).pending_sync@,
            window,
            *direction,
            *context,
        ),
        final(state).layout.wf(),
        keeps_windows(old(state).layout@, final(state).layout@),
        final(state).binding_modes == old(state).binding_modes,
        final(state).events == old(state).events,
        final(state).window_target_positions == old(state).window_target_positions,
        final(state).is_paused == old(state).is_paused,
{
    let ghost t = state.layout@;
    let normalized = normalize_workspace_splits(&mut state.layout, window);
    if normalized.is_err() {
        return normalized;
    }
    let ghost u = state.layout@;
    state.layout.flatten_lone_parents(window);
    let ghost v = state.layout@;
    proof {
        lemma_keeps_windows_twice(t, u, v);
        assert(v[window as int].data.kind == t[window as int].data.kind);
        if let Some(target) = context.target {
            assert(v[target.workspace as int].data.kind == t[target.workspace as int].data.kind);
        }
    }
    let res = take_step(
        &mut state.layout,
        &mut state.pending_sync,
        window,
        *direction,
        context,
    );
    proof {
        lemma_keeps_windows_twice(t, v, state.layout@);
    }
    res
}

/// What moving a window in a direction comes to.
pub open spec fn moved_in_direction(
    t: Tree,
    sync: PendingSyncView,
    window: usize,
    direction: Direction,
    context: MoveContext,
) -> Outcome {
    if kind(t, window) == ContainerKind::TilingWindow {
        moved_tiling(t, sync, window, direction, context)
    } else {
        match t[window as int].data.window.state {
            WindowState::Floating(_) => moved_floating(
                t,
                sync,
                window,
                direction,
                context.floating,
            ),
            WindowState::Fullscreen(_) => moved_to_workspace(
                t,
                sync,
                window,
                direction,
                context.target,
                context.focus_target,
            ),
            _ => (t, sync, Ok(())),
        }
    }
}

/// Moves a window in a direction. A tiled window goes through the layout, a floating one over
/// the screen, and one that fills the screen goes to the next monitor. A minimized window stays.
pub fn move_window_in_direction(
    window: usize,
    direction: &Direction,
    state: &mut WmState,
    context: &MoveContext,
) -> (res: Result<(), WmError>)
    requires
        old(state).layout.wf(),
        valid(old(state).layout@, window),
        kind(old(state).layout@, window).is_window(),
        context.fits(old(state).layout@),
    ensures
        (final(state).layout@, final(state).pending_sync@, res) == moved_in_direction(
            old(state).layout@,
            old(state).pending_sync@,
            window,
            *direction,
            *context,
        ),
        final(state).layout.wf(),
        keeps_windows(old(state).layout@, final(state).layout@),
        final(state).binding_modes == old(state).binding_modes,
        final(state).events == old(state).events,
        final(state).window_target_positions == old(state).window_target_positions,
        final(state).is_paused == old(state).is_paused,
{
    if state.layout.kind(window) == ContainerKind::TilingWindow {
        return move_tiling_window(window, direction, state, context);
    }
    match state.layout.window(window).state {
        WindowState::Floating(_) => move_floating_window(
            &mut state.layout,
            &mut state.pending_sync,
            window,
            *direction,
            &context.floating,
        ),
        WindowState::Fullscreen(_) => move_to_workspace_in_direction(
            &mut state.layout,
            &mut state.pending_sync,
            window,
            *direction,
            context.target,
            context.focus_target,
        ),
        _ => Ok(()),
    }
}

} // verus!
