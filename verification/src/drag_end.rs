//! What happens when a drag of a window ends.

use vstd::prelude::*;

use crate::active_drag::ActiveDragOperation;
use crate::errors::WmError;
use crate::geometry::to_i32;
use crate::layout::Layout;
use crate::length_value::LengthValue;
use crate::pending_sync::{PendingSync, PendingSyncView};
use crate::shares::share_ok;
use crate::tiling_minimums::NativeMinimum;
use crate::tree::{
    kind, share_of, valid, with_window, ContainerKind, FullscreenStateConfig, Tree, WindowProps,
    WindowState,
};
use crate::tree_laws::{lemma_same_links_wf, same_links};
use crate::window_size::{
    resize_mode, set_window_size, size_set, sync_before_size, WindowBehaviorConfig,
};
use crate::wm_state::{has_mode, WmState};

verus! {

/// The monitor that a window is nearest to.
#[derive(Debug, Clone, Copy, PartialEq, Eq, Structural)]
pub struct NearestMonitor {
    pub displayed_workspace: Option<usize>,
    /// Whether the window fills the workspace there.
    pub should_fullscreen: bool,
}

/// What the system says when a drag ends.
#[derive(Debug, Clone, Copy, PartialEq, Eq, Structural)]
pub struct DragEndInputs {
    /// Whether the window is maximized, if it answered.
    pub is_maximized: Option<bool>,
    pub nearest_monitor: Option<NearestMonitor>,
    /// How windows fill the screen unless they say otherwise.
    pub fullscreen_defaults: FullscreenStateConfig,
}

/// What is left to do when a drag ends.
#[derive(Debug, Clone, Copy, PartialEq, Eq, Structural)]
pub enum DragEndAction {
    /// Nothing.
    Done,
    /// The window fills the screen from now on.
    EnterFullscreen(FullscreenStateConfig),
    /// The window keeps floating where it was dropped.
    FollowFloating,
    /// The window becomes a tile where it was dropped.
    DropAsTile,
}

/// Whether a window is dragged.
pub open spec fn is_dragged(t: Tree, window: usize) -> bool {
    t[window as int].data.window.active_drag is Some
}

/// The tree with a window that is not dragged.
pub open spec fn drag_cleared(t: Tree, window: usize) -> Tree {
    with_window(t, window, WindowProps { active_drag: None, ..t[window as int].data.window })
}

/// What the end of a drag comes to for a window that is not tiled.
pub open spec fn floating_drag_ended(
    t: Tree,
    window: usize,
    is_from_floating: bool,
    inputs: DragEndInputs,
) -> (Tree, Result<DragEndAction, WmError>) {
    match inputs.is_maximized {
        None => (t, Ok(DragEndAction::Done)),
        Some(is_maximized) => {
            let props = t[window as int].data.window;
            let u = with_window(t, window, WindowProps { is_maximized, ..props });
            match inputs.nearest_monitor {
                None => (u, Err(WmError::NoMonitor)),
                Some(monitor) => if monitor.displayed_workspace is None {
                    (u, Err(WmError::NoWorkspace))
                } else if is_maximized || monitor.should_fullscreen {
                    let config = match props.state {
                        WindowState::Fullscreen(config) => config,
                        _ => inputs.fullscreen_defaults,
                    };
                    (
                        u,
                        Ok(
                            DragEndAction::EnterFullscreen(
                                FullscreenStateConfig { maximized: is_maximized, ..config },
                            ),
                        ),
                    )
                } else if is_from_floating {
                    (u, Ok(DragEndAction::FollowFloating))
                } else {
                    (u, Ok(DragEndAction::DropAsTile))
                },
            }
        },
    }
}

/// What the end of a move comes to for a tiled window. The layout has been rearranged while it
/// lasted, so the window only snaps into its slot.
pub open spec fn tiling_move_ended(
    t: Tree,
    sync: PendingSyncView,
    window: usize,
    inputs: DragEndInputs,
) -> (Tree, PendingSyncView, Result<DragEndAction, WmError>) {
    let u = drag_cleared(t, window);
    match inputs.is_maximized {
        None => (u, sync, Err(WmError::NoAnswer)),
        Some(is_maximized) => if is_maximized {
            (
                u,
                sync,
                Ok(
                    DragEndAction::EnterFullscreen(
                        FullscreenStateConfig { maximized: true, ..inputs.fullscreen_defaults },
                    ),
                ),
            )
        } else {
            (u, sync.with_redraw(window), Ok(DragEndAction::Done))
        },
    }
}

/// What the end of a resize comes to for a tiled window: it gets the size of its frame, as far as
/// the layout allows, and is drawn again.
pub open spec fn tiling_resize_ended(
    t: Tree,
    sync: PendingSyncView,
    window: usize,
    respects_minimums: bool,
    natives: Seq<NativeMinimum>,
) -> (Tree, PendingSyncView, Result<DragEndAction, WmError>) {
    let frame = t[window as int].data.window.frame;
    let after = size_set(
        t,
        sync,
        window,
        Some(LengthValue::of_px(frame.w())),
        Some(LengthValue::of_px(frame.h())),
        respects_minimums,
        natives,
    );
    match after.2 {
        Err(error) => (after.0, after.1, Err(error)),
        Ok(_) => (
            drag_cleared(after.0, window),
            after.1.with_redraw(window),
            Ok(DragEndAction::Done),
        ),
    }
}

fn clear_drag(layout: &mut Layout, window: usize)
    requires
        old(layout).wf(),
        valid(old(layout)@, window),
    ensures
        final(layout)@ == drag_cleared(old(layout)@, window),
        final(layout).wf(),
        same_links(old(layout)@, final(layout)@),
{
    let props = layout.window(window);
    change_window(layout, window, WindowProps { active_drag: None, ..props });
}

fn change_window(layout: &mut Layout, window: usize, props: WindowProps)
    requires
        old(layout).wf(),
        valid(old(layout)@, window),
    ensures
        final(layout)@ == with_window(old(layout)@, window, props),
        final(layout).wf(),
        same_links(old(layout)@, final(layout)@),
{
    let ghost t = layout@;
    layout.set_window(window, props);
    proof {
        assert forall|i: int| 0 <= i < t.len() implies share_ok(
            #[trigger] layout@[i].data.tiling_size as int,
        ) by {
            assert(share_ok(t[i].data.tiling_size as int));
        }
        lemma_same_links_wf(t, layout@);
    }
}

fn end_floating_drag(
    layout: &mut Layout,
    window: usize,
    is_from_floating: bool,
    inputs: &DragEndInputs,
) -> (res: Result<DragEndAction, WmError>)
    requires
        old(layout).wf(),
        valid(old(layout)@, window),
    ensures
        (final(layout)@, res) == floating_drag_ended(
            old(layout)@,
            window,
            is_from_floating,
            *inputs,
        ),
        final(layout).wf(),
        same_links(old(layout)@, final(layout)@),
{
    let is_maximized = match inputs.is_maximized {
        Some(is_maximized) => is_maximized,
        None => {
            return Ok(DragEndAction::Done);
        },
    };
    let props = layout.window(window);
    change_window(layout, window, WindowProps { is_maximized, ..props });
    let monitor = match inputs.nearest_monitor {
        Some(monitor) => monitor,
        None => {
            return Err(WmError::NoMonitor);
        },
    };
    if monitor.displayed_workspace.is_none() {
        return Err(WmError::NoWorkspace);
    }
    if is_maximized || monitor.should_fullscreen {
        let config = match props.state {
            WindowState::Fullscreen(config) => config,
            _ => inputs.fullscreen_defaults,
        };
        return Ok(
            DragEndAction::EnterFullscreen(
                FullscreenStateConfig { maximized: is_maximized, ..config },
            ),
        );
    }
    if is_from_floating {
        Ok(DragEndAction::FollowFloating)
    } else {
        Ok(DragEndAction::DropAsTile)
    }
}

/// What the end of a drag comes to for a window that is dragged.
pub open spec fn drag_ended(
    t: Tree,
    sync: PendingSyncView,
    resize_mode_on: bool,
    window: usize,
    inputs: DragEndInputs,
    respects_minimums: bool,
    natives: Seq<NativeMinimum>,
) -> (Tree, PendingSyncView, Result<DragEndAction, WmError>) {
    match t[window as int].data.window.active_drag {
        None => (t, sync, Ok(DragEndAction::Done)),
        Some(drag) => if kind(t, window) == ContainerKind::NonTilingWindow {
            let after = floating_drag_ended(t, window, drag.is_from_floating, inputs);
            (after.0, sync, after.1)
        } else if drag.operation == Some(ActiveDragOperation::Move) {
            tiling_move_ended(t, sync, window, inputs)
        } else if !t[window as int].data.window.frame.measurable() {
            (t, sync, Err(WmError::OutOfRange))
        } else {
            tiling_resize_ended(
                t,
                sync_before_size(sync, resize_mode_on),
                window,
                respects_minimums,
                natives,
            )
        },
    }
}

/// Whether a window is a tile that is being moved with the mouse.
pub open spec fn is_moved_tile(t: Tree, window: usize) -> bool {
    &&& kind(t, window) == ContainerKind::TilingWindow
    &&& t[window as int].data.window.active_drag matches Some(drag)
    &&& drag.operation == Some(ActiveDragOperation::Move)
}

/// A tile that was moved and is released snaps into its slot: nothing is left to do, the tile is
/// drawn again, and the layout is as it was but for the drag. A tile that the system has maximized
/// meanwhile fills the screen, maximized, and one that does not answer fails. The drag is over in
/// every case, and no share changes.
pub proof fn released_tiles_snap_or_fill(
    t: Tree,
    sync: PendingSyncView,
    resize_mode_on: bool,
    window: usize,
    inputs: DragEndInputs,
    respects_minimums: bool,
    natives: Seq<NativeMinimum>,
)
    requires
        valid(t, window),
        kind(t, window) == ContainerKind::TilingWindow,
        t[window as int].data.window.active_drag matches Some(drag) && drag.operation == Some(
            ActiveDragOperation::Move,
        ),
    ensures
        ({
            let (u, after, res) = drag_ended(
                t,
                sync,
                resize_mode_on,
                window,
                inputs,
                respects_minimums,
                natives,
            );
            &&& inputs.is_maximized == Some(false) ==> {
                &&& res == Ok::<DragEndAction, WmError>(DragEndAction::Done)
                &&& after.redraw == sync.redraw.insert(window)
            }
            &&& inputs.is_maximized == Some(true) ==> {
                &&& res matches Ok(DragEndAction::EnterFullscreen(config))
                &&& config.maximized
                &&& config.shown_on_top == inputs.fullscreen_defaults.shown_on_top
                &&& after.redraw == sync.redraw
            }
            &&& inputs.is_maximized is None ==> res == Err::<DragEndAction, WmError>(
                WmError::NoAnswer,
            )
            &&& after.reorder == sync.reorder
            &&& after.cursor_jump == sync.cursor_jump
            &&& after.animations_suppressed == sync.animations_suppressed
            &&& u.len() == t.len()
            &&& u[window as int].data.window.active_drag is None
            &&& forall|i: int|
                0 <= i < t.len() ==> (#[trigger] u[i]).parent == t[i].parent && u[i].children
                    == t[i].children && u[i].data.tiling_size == t[i].data.tiling_size
            &&& forall|i: int| 0 <= i < t.len() && i != window ==> #[trigger] u[i] == t[i]
        }),
{
}

/// A window that is not tiled and is released fills the screen where the system has maximized it or
/// it covers the workspace, with the first as a maximized window and the second not. Any other goes
/// on floating if it floated when the drag began, and else becomes a tile again. The window notes
/// whether it is maximized. Nothing is known of a window that does not answer, so it stays. The
/// drag goes on until it is given its new place, and nothing is drawn yet.
pub proof fn released_windows_fill_float_or_drop(
    t: Tree,
    sync: PendingSyncView,
    resize_mode_on: bool,
    window: usize,
    inputs: DragEndInputs,
    respects_minimums: bool,
    natives: Seq<NativeMinimum>,
)
    requires
        valid(t, window),
        kind(t, window) == ContainerKind::NonTilingWindow,
        t[window as int].data.window.active_drag is Some,
    ensures
        ({
            let floated = t[window as int].data.window.active_drag->0.is_from_floating;
            let (u, after, res) = drag_ended(
                t,
                sync,
                resize_mode_on,
                window,
                inputs,
                respects_minimums,
                natives,
            );
            let there = inputs.nearest_monitor matches Some(monitor)
                && monitor.displayed_workspace is Some;
            let maximized = inputs.is_maximized == Some(true);
            let fills = there && inputs.nearest_monitor->0.should_fullscreen;
            &&& after == sync
            &&& inputs.is_maximized is None ==> u == t && res == Ok::<DragEndAction, WmError>(
                DragEndAction::Done,
            )
            &&& inputs.is_maximized matches Some(is_maximized) ==> {
                &&& u[window as int].data.window.is_maximized == is_maximized
                &&& res is Ok <==> there
                &&& inputs.nearest_monitor is None ==> res == Err::<DragEndAction, WmError>(
                    WmError::NoMonitor,
                )
                &&& (res matches Ok(DragEndAction::EnterFullscreen(_))) <==> there && (maximized
                    || fills)
                &&& res matches Ok(DragEndAction::EnterFullscreen(config)) ==> {
                    &&& config.maximized == maximized
                    &&& match t[window as int].data.window.state {
                        WindowState::Fullscreen(own) => config.shown_on_top == own.shown_on_top,
                        _ => config.shown_on_top == inputs.fullscreen_defaults.shown_on_top,
                    }
                }
                &&& res == Ok::<DragEndAction, WmError>(DragEndAction::FollowFloating) <==> there
                    && !maximized && !fills && floated
                &&& res == Ok::<DragEndAction, WmError>(DragEndAction::DropAsTile) <==> there
                    && !maximized && !fills && !floated
            }
            &&& u.len() == t.len()
            &&& u[window as int].data.window.active_drag
                == t[window as int].data.window.active_drag
            &&& u[window as int].data.window.floating_placement
                == t[window as int].data.window.floating_placement
            &&& forall|i: int| 0 <= i < t.len() && i != window ==> #[trigger] u[i] == t[i]
        }),
{
}

/// The end of a drag means nothing to a window that is not dragged.
pub proof fn undragged_windows_stay(
    t: Tree,
    sync: PendingSyncView,
    resize_mode_on: bool,
    window: usize,
    inputs: DragEndInputs,
    respects_minimums: bool,
    natives: Seq<NativeMinimum>,
)
    requires
        t[window as int].data.window.active_drag is None,
    ensures
        drag_ended(t, sync, resize_mode_on, window, inputs, respects_minimums, natives) == (
            t,
            sync,
            Ok::<DragEndAction, WmError>(DragEndAction::Done),
        ),
{
}

/// Lets a tile that was moved snap into its slot, or fill the screen.
fn release_tile(
    layout: &mut Layout,
    sync: &mut PendingSync,
    window: usize,
    inputs: &DragEndInputs,
) -> (res: Result<DragEndAction, WmError>)
    requires
        old(layout).wf(),
        valid(old(layout)@, window),
    ensures
        (final(layout)@, final(sync)@, res) == tiling_move_ended(
            old(layout)@,
            old(sync)@,
            window,
            *inputs,
        ),
        inputs.is_maximized == Some(false) ==> res == Ok::<DragEndAction, WmError>(
            DragEndAction::Done,
        ) && final(sync)@.redraw == old(sync)@.redraw.insert(window),
        inputs.is_maximized == Some(true) ==> {
            &&& res matches Ok(DragEndAction::EnterFullscreen(config))
            &&& config.maximized
            &&& config.shown_on_top == inputs.fullscreen_defaults.shown_on_top
        },
        inputs.is_maximized is None ==> res is Err,
        final(layout)@[window as int].data.window.active_drag is None,
        forall|y: usize|
            valid(old(layout)@, y) ==> #[trigger] share_of(final(layout)@, y) == share_of(
                old(layout)@,
                y,
            ),
        final(layout).wf(),
        same_links(old(layout)@, final(layout)@),
{
    clear_drag(layout, window);
    match inputs.is_maximized {
        None => Err(WmError::NoAnswer),
        Some(true) => Ok(
            DragEndAction::EnterFullscreen(
                FullscreenStateConfig { maximized: true, ..inputs.fullscreen_defaults },
            ),
        ),
        Some(false) => {
            sync.queue_container_to_redraw(window);
            Ok(DragEndAction::Done)
        },
    }
}

/// Takes in that the user has finished moving or resizing a window. A tiled window gets the size
/// it was dragged to, or snaps into its slot; a window that is not tiled fills the screen, keeps
/// floating or becomes a tile again, which is left to do. Animations start where the window is.
pub fn handle_window_moved_or_resized_end(
    window: usize,
    state: &mut WmState,
    inputs: &DragEndInputs,
    behavior: &WindowBehaviorConfig,
    natives: &Vec<NativeMinimum>,
) -> (res: Result<DragEndAction, WmError>)
    requires
        old(state).layout.wf(),
        valid(old(state).layout@, window),
        kind(old(state).layout@, window).is_window(),
        natives.len() == old(state).layout@.len(),
    ensures
        (final(state).layout@, final(state).pending_sync@, res) == drag_ended(
            old(state).layout@,
            old(state).pending_sync@,
            has_mode(old(state).binding_modes@, resize_mode()),
            window,
            *inputs,
            behavior.resize_respects_minimum_size,
            natives@,
        ),
        final(state).window_target_positions@ == (if is_dragged(old(state).layout@, window) {
            old(state).window_target_positions@.insert(
                window,
                old(state).layout@[window as int].data.window.frame,
            )
        } else {
            old(state).window_target_positions@
        }),
        is_moved_tile(old(state).layout@, window) && inputs.is_maximized == Some(false) ==> {
            &&& res == Ok::<DragEndAction, WmError>(DragEndAction::Done)
            &&& final(state).pending_sync@.redraw == old(state).pending_sync@.redraw.insert(window)
            &&& final(state).layout@[window as int].data.window.active_drag is None
            &&& forall|y: usize|
                valid(old(state).layout@, y) ==> #[trigger] share_of(final(state).layout@, y)
                    == share_of(old(state).layout@, y)
        },
        is_moved_tile(old(state).layout@, window) && inputs.is_maximized == Some(true) ==> {
            &&& res matches Ok(DragEndAction::EnterFullscreen(config))
            &&& config.maximized
            &&& config.shown_on_top == inputs.fullscreen_defaults.shown_on_top
            &&& final(state).layout@[window as int].data.window.active_drag is None
        },
        is_moved_tile(old(state).layout@, window) && inputs.is_maximized is None ==> res is Err,
        final(state).layout.wf(),
        same_links(old(state).layout@, final(state).layout@),
        final(state).binding_modes == old(state).binding_modes,
        final(state).events == old(state).events,
        final(state).is_paused == old(state).is_paused,
{
    broadcast use vstd::std_specs::hash::group_hash_axioms;

    let props = state.layout.window(window);
    let drag = match props.active_drag {
        Some(drag) => drag,
        None => {
            return Ok(DragEndAction::Done);
        },
    };
    state.window_target_positions.insert(window, props.frame);
    if state.layout.kind(window) == ContainerKind::NonTilingWindow {
        return end_floating_drag(&mut state.layout, window, drag.is_from_floating, inputs);
    }
    let is_move: bool = match drag.operation {
        Some(ActiveDragOperation::Move) => true,
        _ => false,
    };
    if is_move {
        return release_tile(&mut state.layout, &mut state.pending_sync, window, inputs);
    }
    let (width, height): (i32, i32) = match (
        to_i32(props.frame.wide_width()),
        to_i32(props.frame.wide_height()),
    ) {
        (Some(width), Some(height)) => (width, height),
        _ => {
            return Err(WmError::OutOfRange);
        },
    };
    let resized = set_window_size(
        window,
        Some(LengthValue::from_px(width)),
        Some(LengthValue::from_px(height)),
        state,
        behavior,
        natives,
    );
    if let Err(error) = resized {
        return Err(error);
    }
    clear_drag(&mut state.layout, window);
    state.pending_sync.queue_container_to_redraw(window);
    Ok(DragEndAction::Done)
}

/// Ends the drag of a window, once it has been given its new place.
pub fn end_drag(window: usize, state: &mut WmState)
    requires
        old(state).layout.wf(),
        valid(old(state).layout@, window),
    ensures
        final(state).layout@ == drag_cleared(old(state).layout@, window),
        final(state).layout@[window as int].data.window.active_drag is None,
        final(state).layout.wf(),
        same_links(old(state).layout@, final(state).layout@),
        final(state).pending_sync == old(state).pending_sync,
        final(state).binding_modes == old(state).binding_modes,
        final(state).events == old(state).events,
        final(state).window_target_positions == old(state).window_target_positions,
        final(state).is_paused == old(state).is_paused,
{
    clear_drag(&mut state.layout, window);
}

/// The tree after a dragged window was dropped as a tile, or could not be: the drag is over for the
/// window, and for the container that stands for it now, if there is one.
pub open spec fn drop_ended(t: Tree, window: usize, live: Option<usize>) -> Tree {
    let u = drag_cleared(t, window);
    match live {
        Some(live) => drag_cleared(u, live),
        None => u,
    }
}

/// Ends the drag of a window that was to be dropped as a tile. `live` is the container that stands
/// for the window now, if there is one, and `outcome` tells whether it could be dropped. The drag
/// is over in either case.
pub fn end_drop<E>(
    window: usize,
    live: Option<usize>,
    outcome: Result<(), E>,
    state: &mut WmState,
) -> (res: Result<(), E>)
    requires
        old(state).layout.wf(),
        valid(old(state).layout@, window),
        live matches Some(live) ==> valid(old(state).layout@, live),
    ensures
        res == outcome,
        final(state).layout@ == drop_ended(old(state).layout@, window, live),
        final(state).layout@[window as int].data.window.active_drag is None,
        live matches Some(live) ==> final(state).layout@[live as int].data.window.active_drag
            is None,
        !is_dragged(final(state).layout@, window),
        live matches Some(live) ==> !is_dragged(final(state).layout@, live),
        final(state).layout.wf(),
        same_links(old(state).layout@, final(state).layout@),
        final(state).pending_sync == old(state).pending_sync,
        final(state).binding_modes == old(state).binding_modes,
        final(state).events == old(state).events,
        final(state).window_target_positions == old(state).window_target_positions,
        final(state).is_paused == old(state).is_paused,
{
    clear_drag(&mut state.layout, window);
    if let Some(live) = live {
        clear_drag(&mut state.layout, live);
    }
    outcome
}

/// Ends the drag of a window that now fills the screen. A maximized window is in place already; any
/// other is drawn again, so that it snaps to the edges of the monitor.
pub fn end_drag_fullscreen(window: usize, is_maximized: bool, state: &mut WmState)
    requires
        old(state).layout.wf(),
        valid(old(state).layout@, window),
    ensures
        final(state).layout@ == drag_cleared(old(state).layout@, window),
        final(state).layout.wf(),
        same_links(old(state).layout@, final(state).layout@),
        final(state).pending_sync@ == (if is_maximized {
            old(state).pending_sync@.without_redraw(window)
        } else {
            old(state).pending_sync@.with_redraw(window)
        }),
        final(state).pending_sync@.redraw.contains(window) <==> !is_maximized,
        final(state).layout@[window as int].data.window.active_drag is None,
        final(state).binding_modes == old(state).binding_modes,
        final(state).events == old(state).events,
        final(state).window_target_positions == old(state).window_target_positions,
        final(state).is_paused == old(state).is_paused,
{
    clear_drag(&mut state.layout, window);
    if is_maximized {
        state.pending_sync.dequeue_container_from_redraw(window);
    } else {
        state.pending_sync.queue_container_to_redraw(window);
    }
}

} // verus!
