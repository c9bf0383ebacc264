//! Setting the size of windows.

use vstd::prelude::*;

use crate::errors::WmError;
use crate::geometry::{fits_i32, int_max, max_i32, to_i32, Rect};
use crate::layout::Layout;
use crate::length_value::LengthValue;
use crate::pending_sync::{PendingSync, PendingSyncView};
use crate::placement::{available_of, available_tiling_length, length_along, rect_of};
use crate::shares::share_ok;
use crate::tiling_minimums::{
    refresh_tiling_minimums, refresh_window_minimum, resize_with_minimums, resized_with_minimums,
    same_axis, self_and_descendants, smallest_size, with_minimum, with_minimums, NativeMinimum,
};
use crate::traversal::{monitor_of, of_kind, workspace_of};
use crate::tree::{
    is_tile, kind, resized, tiles, valid, wf, with_window, ContainerKind, Tree, WindowProps,
    WindowState,
};
use crate::tree_laws::{lemma_parent_facts, lemma_same_links_wf, same_links};
use crate::wm_state::{has_mode, is_mode_on, WmState};

verus! {

/// How windows behave.
#[derive(Debug, Clone, Copy, PartialEq, Eq, Structural)]
pub struct WindowBehaviorConfig {
    /// Whether commands keep windows at or above the smallest size they accept.
    pub resize_respects_minimum_size: bool,
}

/// The name of the binding mode in which keys that are held down resize windows.
pub open spec fn resize_mode() -> Seq<char> {
    "resize"@
}

/// A tree, what is pending, and whether a command was carried out.
pub type Outcome = (Tree, PendingSyncView, Result<(), WmError>);

/// The tile to resize so that a window changes its length along an axis: the window, or the
/// nearest split above it that stands in a container laid out along the axis.
pub open spec fn to_resize_at(t: Tree, id: usize, horizontal: bool, fuel: nat) -> Option<usize>
    decreases fuel,
{
    match t[id as int].parent {
        Some(p) if fuel > 0 => if same_axis(t, p, horizontal) {
            Some(id)
        } else if is_tile(t, p) {
            to_resize_at(t, p, horizontal, (fuel - 1) as nat)
        } else {
            None
        },
        _ => None,
    }
}

pub open spec fn to_resize(t: Tree, id: usize, horizontal: bool) -> Option<usize> {
    to_resize_at(t, id, horizontal, t.len())
}

/// Finds the tile to resize so that a window changes its length along an axis.
pub fn container_to_resize(
    layout: &Layout,
    window: usize,
    is_width_resize: bool,
) -> (res: Result<Option<usize>, WmError>)
    requires
        layout.wf(),
        valid(layout@, window),
        is_tile(layout@, window),
    ensures
        res == (if layout@[window as int].parent is None {
            Err::<Option<usize>, WmError>(WmError::NoParent)
        } else {
            Ok::<Option<usize>, WmError>(to_resize(layout@, window, is_width_resize))
        }),
        res matches Ok(Some(found)) ==> valid(layout@, found) && is_tile(layout@, found)
            && layout@[found as int].parent is Some,
{
    if layout.parent(window).is_none() {
        return Err(WmError::NoParent);
    }
    let mut current: usize = window;
    let mut fuel: usize = layout.len();
    while fuel > 0
        invariant
            layout.wf(),
            valid(layout@, current),
            is_tile(layout@, current),
            layout@[window as int].parent is Some,
            to_resize(layout@, window, is_width_resize) == to_resize_at(
                layout@,
                current,
                is_width_resize,
                fuel as nat,
            ),
        decreases fuel,
    {
        let parent = match layout.parent(current) {
            Some(parent) => parent,
            None => {
                return Ok(None);
            },
        };
        proof {
            lemma_parent_facts(layout@, current);
        }
        let along: bool = layout.tiling_direction(parent).is_horizontal() == is_width_resize;
        if along {
            return Ok(Some(current));
        }
        if !layout.is_tile(parent) {
            return Ok(None);
        }
        current = parent;
        fuel = fuel - 1;
    }
    Ok(None)
}

/// What setting the length of a tiled window along an axis comes to.
pub open spec fn length_set(
    t: Tree,
    sync: PendingSyncView,
    window: usize,
    target: LengthValue,
    horizontal: bool,
    respects_minimums: bool,
) -> Outcome {
    if t[window as int].parent is None {
        (t, sync, Err(WmError::NoParent))
    } else {
        match to_resize(t, window, horizontal) {
            None => (t, sync, Ok(())),
            Some(c) => match available_of(t, c, horizontal) {
                Err(error) => (t, sync, Err(error)),
                Ok(available) => {
                    let affected = tiles(t, t[c as int].parent->0);
                    let share = target.share(available);
                    if available <= 0 {
                        (t, sync, Ok(()))
                    } else if respects_minimums {
                        match resized_with_minimums(t, c, Some(share as i64)) {
                            Err(error) => (t, sync, Err(error)),
                            Ok(None) => (t, sync, Ok(())),
                            Ok(Some(u)) => (u, sync.with_redraws(affected), Ok(())),
                        }
                    } else {
                        (resized(t, c, share), sync.with_redraws(affected), Ok(()))
                    }
                },
            },
        }
    }
}

/// Sets the width or the height of a tiled window.
pub fn set_tiling_window_length(
    layout: &mut Layout,
    sync: &mut PendingSync,
    window: usize,
    target_length: &LengthValue,
    is_width_resize: bool,
    behavior: &WindowBehaviorConfig,
) -> (res: Result<(), WmError>)
    requires
        old(layout).wf(),
        valid(old(layout)@, window),
        is_tile(old(layout)@, window),
    ensures
        (final(layout)@, final(sync)@, res) == length_set(
            old(layout)@,
            old(sync)@,
            window,
            *target_length,
            is_width_resize,
            behavior.resize_respects_minimum_size,
        ),
        final(layout).wf(),
        same_links(old(layout)@, final(layout)@),
{
    let ghost t = layout@;
    let container = match container_to_resize(layout, window, is_width_resize) {
        Ok(Some(container)) => container,
        Ok(None) => {
            return Ok(());
        },
        Err(error) => {
            return Err(error);
        },
    };
    let parent = match layout.parent(container) {
        Some(parent) => parent,
        None => {
            return Err(WmError::NoParent);
        },
    };
    proof {
        lemma_parent_facts(t, container);
    }
    let available = match available_tiling_length(layout, container, is_width_resize) {
        Ok(available) => available,
        Err(error) => {
            return Err(error);
        },
    };
    if available <= 0 {
        return Ok(());
    }
    let share = target_length.to_percentage(available);
    let affected = layout.tiling_children(parent);
    if behavior.resize_respects_minimum_size {
        match resize_with_minimums(layout, container, Some(share)) {
            Ok(changed) => {
                if changed {
                    sync.queue_containers_to_redraw(&affected);
                }
                Ok(())
            },
            Err(error) => Err(error),
        }
    } else {
        layout.resize_tile(container, share);
        sync.queue_containers_to_redraw(&affected);
        Ok(())
    }
}

/// What setting both lengths of a tiled window comes to, the width first, up to the first
/// error.
pub open spec fn lengths_set(
    t: Tree,
    sync: PendingSyncView,
    window: usize,
    width: Option<LengthValue>,
    height: Option<LengthValue>,
    respects_minimums: bool,
) -> Outcome {
    let first = match width {
        Some(width) => length_set(t, sync, window, width, true, respects_minimums),
        None => (t, sync, Ok(())),
    };
    match height {
        Some(height) if first.2 is Ok => length_set(
            first.0,
            first.1,
            window,
            height,
            false,
            respects_minimums,
        ),
        _ => first,
    }
}

/// The tiled windows on a workspace.
pub open spec fn tiled_windows(t: Tree, workspace: usize) -> Seq<usize> {
    of_kind(t, self_and_descendants(t, workspace), ContainerKind::TilingWindow)
}

/// What setting the size of a tiled window comes to. The smallest sizes on its workspace are
/// brought up to date first, where they count.
pub open spec fn tiling_size_set(
    t: Tree,
    sync: PendingSyncView,
    window: usize,
    width: Option<LengthValue>,
    height: Option<LengthValue>,
    respects_minimums: bool,
    natives: Seq<NativeMinimum>,
) -> Outcome {
    match workspace_of(t, window) {
        None => (t, sync, Err(WmError::NoWorkspace)),
        Some(workspace) => if respects_minimums {
            let refreshed = with_minimums(t, tiled_windows(t, workspace), natives);
            if refreshed.1 is Err {
                (refreshed.0, sync, refreshed.1)
            } else {
                lengths_set(refreshed.0, sync, window, width, height, true)
            }
        } else {
            lengths_set(t, sync, window, width, height, false)
        },
    }
}

fn set_tiling_window_size(
    layout: &mut Layout,
    sync: &mut PendingSync,
    window: usize,
    target_width: Option<LengthValue>,
    target_height: Option<LengthValue>,
    behavior: &WindowBehaviorConfig,
    natives: &Vec<NativeMinimum>,
) -> (res: Result<(), WmError>)
    requires
        old(layout).wf(),
        valid(old(layout)@, window),
        is_tile(old(layout)@, window),
        natives.len() == old(layout)@.len(),
    ensures
        (final(layout)@, final(sync)@, res) == tiling_size_set(
            old(layout)@,
            old(sync)@,
            window,
            target_width,
            target_height,
            behavior.resize_respects_minimum_size,
            natives@,
        ),
        final(layout).wf(),
        same_links(old(layout)@, final(layout)@),
{
    let ghost t = layout@;
    let workspace = match layout.workspace(window) {
        Some(workspace) => workspace,
        None => {
            return Err(WmError::NoWorkspace);
        },
    };
    if behavior.resize_respects_minimum_size {
        let refreshed = refresh_tiling_minimums(layout, workspace, natives);
        if refreshed.is_err() {
            return refreshed;
        }
        assert(layout@[window as int].data.kind == t[window as int].data.kind);
    }
    if let Some(width) = target_width {
        let done = set_tiling_window_length(layout, sync, window, &width, true, behavior);
        if done.is_err() {
            return done;
        }
        assert(layout@[window as int].data.kind == t[window as int].data.kind);
    }
    if let Some(height) = target_height {
        let done = set_tiling_window_length(layout, sync, window, &height, false, behavior);
        if done.is_err() {
            return done;
        }
    }
    Ok(())
}

/// A length that may always grow, but shrinks no further than the minimum.
pub open spec fn clamped_length(target: Option<int>, current: int, minimum: int) -> int {
    match target {
        None => current,
        Some(target) => if target >= current {
            target
        } else {
            int_max(target, minimum)
        },
    }
}

fn length_with_clamp(target: Option<i32>, current: i32, minimum: i32) -> (res: i32)
    ensures
        res == clamped_length(
            match target {
                Some(target) => Some(target as int),
                None => None,
            },
            current as int,
            minimum as int,
        ),
{
    match target {
        None => current,
        Some(target) => if target >= current {
            target
        } else {
            max_i32(target, minimum)
        },
    }
}

pub open spec fn in_px(length: Option<LengthValue>, total: int) -> Option<int> {
    match length {
        Some(length) => Some(length.px(total)),
        None => None,
    }
}

/// The new place of a floating window that is given a size, if it can be represented.
pub open spec fn floating_resized(
    window: WindowProps,
    monitor: Rect,
    width: Option<LengthValue>,
    height: Option<LengthValue>,
    respects_minimums: bool,
) -> Option<Rect> {
    let placement = window.floating_placement;
    let minimum = match window.minimum_tiling_size {
        Some(size) if respects_minimums => size,
        _ => (1i32, 1i32),
    };
    let new_width = clamped_length(
        in_px(width, monitor.w()),
        placement.w(),
        minimum.0 as int,
    );
    let new_height = clamped_length(
        in_px(height, monitor.h()),
        placement.h(),
        minimum.1 as int,
    );
    if monitor.measurable() && placement.measurable() && Rect::xy_fits(
        placement.left as int,
        placement.top as int,
        new_width,
        new_height,
    ) {
        Some(Rect::xy_spec(placement.left as int, placement.top as int, new_width, new_height))
    } else {
        None
    }
}

/// A floating window that is given a size stays where its corner is. It gets every size that it
/// is to grow to, and shrinks to no less than its minimum.
pub proof fn floating_windows_keep_minimums(
    window: WindowProps,
    monitor: Rect,
    width: Option<LengthValue>,
    height: Option<LengthValue>,
    respects_minimums: bool,
)
    requires
        floating_resized(window, monitor, width, height, respects_minimums) is Some,
    ensures
        ({
            let before = window.floating_placement;
            let after = floating_resized(window, monitor, width, height, respects_minimums)->0;
            let minimum = match window.minimum_tiling_size {
                Some(size) if respects_minimums => size,
                _ => (1i32, 1i32),
            };
            &&& after.left == before.left && after.top == before.top
            &&& width is None ==> after.w() == before.w()
            &&& height is None ==> after.h() == before.h()
            &&& width is Some && width->0.px(monitor.w()) >= before.w() ==> after.w()
                == width->0.px(monitor.w())
            &&& height is Some && height->0.px(monitor.h()) >= before.h() ==> after.h()
                == height->0.px(monitor.h())
            &&& after.w() < before.w() ==> after.w() >= minimum.0
            &&& after.h() < before.h() ==> after.h() >= minimum.1
        }),
{
}

/// What setting the size of a floating window comes to.
pub open spec fn floating_size_set(
    t: Tree,
    sync: PendingSyncView,
    window: usize,
    width: Option<LengthValue>,
    height: Option<LengthValue>,
    respects_minimums: bool,
    native: NativeMinimum,
) -> Outcome {
    match monitor_of(t, window) {
        None => (t, sync, Err(WmError::NoMonitor)),
        Some(monitor) => {
            let refreshed = if respects_minimums {
                smallest_size(t, window, native)
            } else {
                Ok((1i32, 1i32))
            };
            match refreshed {
                Err(error) => (t, sync, Err(error)),
                Ok(size) => {
                    let u = if respects_minimums {
                        with_minimum(t, window, size)
                    } else {
                        t
                    };
                    let props = u[window as int].data.window;
                    match floating_resized(
                        props,
                        t[monitor as int].data.rect,
                        width,
                        height,
                        respects_minimums,
                    ) {
                        None => (u, sync, Err(WmError::OutOfRange)),
                        Some(placement) => (
                            with_window(
                                u,
                                window,
                                WindowProps { floating_placement: placement, ..props },
                            ),
                            sync.with_redraw(window),
                            Ok(()),
                        ),
                    }
                },
            }
        },
    }
}

fn floating_placement_after(
    props: &WindowProps,
    monitor: &Rect,
    target_width: Option<LengthValue>,
    target_height: Option<LengthValue>,
    respects_minimums: bool,
) -> (res: Option<Rect>)
    ensures
        res == floating_resized(*props, *monitor, target_width, target_height, respects_minimums),
{
    let placement = props.floating_placement;
    let (minimum_width, minimum_height): (i32, i32) = match props.minimum_tiling_size {
        Some(size) => if respects_minimums {
            size
        } else {
            (1, 1)
        },
        None => (1, 1),
    };
    let (monitor_width, monitor_height, width, height): (i32, i32, i32, i32) = match (
        to_i32(monitor.wide_width()),
        to_i32(monitor.wide_height()),
        to_i32(placement.wide_width()),
        to_i32(placement.wide_height()),
    ) {
        (Some(a), Some(b), Some(c), Some(d)) => (a, b, c, d),
        _ => {
            return None;
        },
    };
    let target_width_px: Option<i32> = match target_width {
        Some(length) => Some(length.to_px(monitor_width)),
        None => None,
    };
    let target_height_px: Option<i32> = match target_height {
        Some(length) => Some(length.to_px(monitor_height)),
        None => None,
    };
    let new_width = length_with_clamp(target_width_px, width, minimum_width);
    let new_height = length_with_clamp(target_height_px, height, minimum_height);
    Rect::checked_xy(
        placement.left as i64,
        placement.top as i64,
        new_width as i64,
        new_height as i64,
    )
}

fn set_floating_window_size(
    layout: &mut Layout,
    sync: &mut PendingSync,
    window: usize,
    target_width: Option<LengthValue>,
    target_height: Option<LengthValue>,
    behavior: &WindowBehaviorConfig,
    native: NativeMinimum,
) -> (res: Result<(), WmError>)
    requires
        old(layout).wf(),
        valid(old(layout)@, window),
        kind(old(layout)@, window) == ContainerKind::NonTilingWindow,
    ensures
        (final(layout)@, final(sync)@, res) == floating_size_set(
            old(layout)@,
            old(sync)@,
            window,
            target_width,
            target_height,
            behavior.resize_respects_minimum_size,
            native,
        ),
        final(layout).wf(),
        same_links(old(layout)@, final(layout)@),
{
    let ghost t = layout@;
    let monitor = match layout.monitor(window) {
        Some(monitor) => monitor,
        None => {
            return Err(WmError::NoMonitor);
        },
    };
    let monitor_rect = layout.data(monitor).rect;
    if behavior.resize_respects_minimum_size {
        let refreshed = refresh_window_minimum(layout, window, native);
        if refreshed.is_err() {
            return refreshed;
        }
    }
    let ghost u = layout@;
    let props = layout.window(window);
    match floating_placement_after(
        &props,
        &monitor_rect,
        target_width,
        target_height,
        behavior.resize_respects_minimum_size,
    ) {
        Some(floating_placement) => {
            layout.set_window(window, WindowProps { floating_placement, ..props });
            proof {
                assert(share_ok(u[window as int].data.tiling_size as int));
                lemma_same_links_wf(u, layout@);
            }
            sync.queue_container_to_redraw(window);
            Ok(())
        },
        None => Err(WmError::OutOfRange),
    }
}

/// What is pending before a size is set: nothing is animated while keys that are held down
/// resize windows.
pub open spec fn sync_before_size(sync: PendingSyncView, resize_mode_on: bool) -> PendingSyncView {
    if resize_mode_on {
        sync.without_animations()
    } else {
        sync
    }
}

/// What setting the size of a window comes to.
pub open spec fn size_set(
    t: Tree,
    sync: PendingSyncView,
    window: usize,
    width: Option<LengthValue>,
    height: Option<LengthValue>,
    respects_minimums: bool,
    natives: Seq<NativeMinimum>,
) -> Outcome {
    if kind(t, window) == ContainerKind::TilingWindow {
        tiling_size_set(t, sync, window, width, height, respects_minimums, natives)
    } else if t[window as int].data.window.state is Floating {
        floating_size_set(
            t,
            sync,
            window,
            width,
            height,
            respects_minimums,
            natives[window as int],
        )
    } else {
        (t, sync, Ok(()))
    }
}

/// Sets the width and the height of a window. Windows that are neither tiled nor floating keep
/// their size. `natives` says for each container number what the system answered about the
/// smallest size.
pub fn set_window_size(
    window: usize,
    target_width: Option<LengthValue>,
    target_height: Option<LengthValue>,
    state: &mut WmState,
    behavior: &WindowBehaviorConfig,
    natives: &Vec<NativeMinimum>,
) -> (res: Result<(), WmError>)
    requires
        old(state).layout.wf(),
        valid(old(state).layout@, window),
        kind(old(state).layout@, window).is_window(),
        natives.len() == old(state).layout@.len(),
    ensures
        (final(state).layout@, final(state).pending_sync@, res) == size_set(
            old(state).layout@,
            sync_before_size(
                old(state).pending_sync@,
                has_mode(old(state).binding_modes@, resize_mode()),
            ),
            window,
            target_width,
            target_height,
            behavior.resize_respects_minimum_size,
            natives@,
        ),
        final(state).layout.wf(),
        same_links(old(state).layout@, final(state).layout@),
        final(state).binding_modes == old(state).binding_modes,
        final(state).events == old(state).events,
        final(state).window_target_positions == old(state).window_target_positions,
        final(state).is_paused == old(state).is_paused,
{
    if is_mode_on(&state.binding_modes, "resize") {
        // Keys that are held down already come in small steps, one for each frame.
        // Animations would go on moving after the release.
        state.pending_sync.suppress_animations();
    }
    if state.layout.kind(window) == ContainerKind::TilingWindow {
        set_tiling_window_size(
            &mut state.layout,
            &mut state.pending_sync,
            window,
            target_width,
            target_height,
            behavior,
            natives,
        )
    } else {
        match state.layout.window(window).state {
            WindowState::Floating(_) => set_floating_window_size(
                &mut state.layout,
                &mut state.pending_sync,
                window,
                target_width,
                target_height,
                behavior,
                natives[window],
            ),
            _ => Ok(()),
        }
    }
}

/// The length that a change in percent refers to, or `None` where there is none.
pub open spec fn reference_length(
    t: Tree,
    window: usize,
    horizontal: bool,
) -> Result<Option<int>, WmError> {
    if is_tile(t, window) {
        if t[window as int].parent is None {
            Err(WmError::NoParent)
        } else {
            match to_resize(t, window, horizontal) {
                Some(c) => match available_of(t, c, horizontal) {
                    Ok(available) => Ok(Some(available)),
                    Err(_) => Ok(None),
                },
                None => Ok(None),
            }
        }
    } else {
        match t[window as int].parent {
            Some(p) => match rect_of(t, p) {
                Some(rect) => if fits_i32(length_along(rect, horizontal)) {
                    Ok(Some(length_along(rect, horizontal)))
                } else {
                    Err(WmError::OutOfRange)
                },
                None => Ok(None),
            },
            None => Ok(None),
        }
    }
}

/// The length that a window is to have after a change, or `None` where it stays.
pub open spec fn target_length(
    t: Tree,
    window: usize,
    rect: Rect,
    delta: Option<LengthValue>,
    horizontal: bool,
) -> Result<Option<int>, WmError> {
    match delta {
        None => Ok(None),
        Some(delta) => match reference_length(t, window, horizontal) {
            Err(error) => Err(error),
            Ok(None) => Ok(None),
            Ok(Some(total)) => {
                let length = length_along(rect, horizontal) + delta.px(total);
                if fits_i32(length) {
                    Ok(Some(length))
                } else {
                    Err(WmError::OutOfRange)
                }
            },
        },
    }
}

fn length_after(
    layout: &Layout,
    window: usize,
    rect: &Rect,
    delta: Option<LengthValue>,
    horizontal: bool,
) -> (res: Result<Option<i32>, WmError>)
    requires
        layout.wf(),
        valid(layout@, window),
    ensures
        match target_length(layout@, window, *rect, delta, horizontal) {
            Ok(Some(length)) => res matches Ok(Some(found)) && found == length,
            Ok(None) => res == Ok::<Option<i32>, WmError>(None),
            Err(error) => res == Err::<Option<i32>, WmError>(error),
        },
{
    let delta = match delta {
        Some(delta) => delta,
        None => {
            return Ok(None);
        },
    };
    let total: i32 = if layout.is_tile(window) {
        match container_to_resize(layout, window, horizontal) {
            Ok(Some(container)) => match available_tiling_length(layout, container, horizontal) {
                Ok(available) => available,
                Err(_) => {
                    return Ok(None);
                },
            },
            Ok(None) => {
                return Ok(None);
            },
            Err(error) => {
                return Err(error);
            },
        }
    } else {
        let parent = match layout.parent(window) {
            Some(parent) => parent,
            None => {
                return Ok(None);
            },
        };
        proof {
            lemma_parent_facts(layout@, window);
        }
        let outer = match layout.to_rect(parent) {
            Some(outer) => outer,
            None => {
                return Ok(None);
            },
        };
        let length: i64 = if horizontal {
            outer.wide_width()
        } else {
            outer.wide_height()
        };
        match to_i32(length) {
            Some(length) => length,
            None => {
                return Err(WmError::OutOfRange);
            },
        }
    };
    let own: i64 = if horizontal {
        rect.wide_width()
    } else {
        rect.wide_height()
    };
    match to_i32(own + delta.to_px(total) as i64) {
        Some(length) => Ok(Some(length)),
        None => Err(WmError::OutOfRange),
    }
}

pub open spec fn px_length(length: Option<int>) -> Option<LengthValue> {
    match length {
        Some(length) => Some(LengthValue::of_px(length)),
        None => None,
    }
}

/// What changing the size of a window comes to.
pub open spec fn size_changed(
    t: Tree,
    sync: PendingSyncView,
    resize_mode_on: bool,
    window: usize,
    width_delta: Option<LengthValue>,
    height_delta: Option<LengthValue>,
    respects_minimums: bool,
    natives: Seq<NativeMinimum>,
) -> Outcome {
    match rect_of(t, window) {
        None => (t, sync, Err(WmError::OutOfRange)),
        Some(rect) => match target_length(t, window, rect, width_delta, true) {
            Err(error) => (t, sync, Err(error)),
            Ok(width) => match target_length(t, window, rect, height_delta, false) {
                Err(error) => (t, sync, Err(error)),
                Ok(height) => size_set(
                    t,
                    sync_before_size(sync, resize_mode_on),
                    window,
                    px_length(width),
                    px_length(height),
                    respects_minimums,
                    natives,
                ),
            },
        },
    }
}

/// Changes the width and the height of a window by some pixels or percent.
pub fn resize_window(
    window: usize,
    width_delta: Option<LengthValue>,
    height_delta: Option<LengthValue>,
    state: &mut WmState,
    behavior: &WindowBehaviorConfig,
    natives: &Vec<NativeMinimum>,
) -> (res: Result<(), WmError>)
    requires
        old(state).layout.wf(),
        valid(old(state).layout@, window),
        kind(old(state).layout@, window).is_window(),
        natives.len() == old(state).layout@.len(),
    ensures
        (final(state).layout@, final(state).pending_sync@, res) == size_changed(
            old(state).layout@,
            old(state).pending_sync@,
            has_mode(old(state).binding_modes@, resize_mode()),
            window,
            width_delta,
            height_delta,
            behavior.resize_respects_minimum_size,
            natives@,
        ),
        final(state).layout.wf(),
        same_links(old(state).layout@, final(state).layout@),
        final(state).binding_modes == old(state).binding_modes,
        final(state).events == old(state).events,
        final(state).window_target_positions == old(state).window_target_positions,
        final(state).is_paused == old(state).is_paused,
{
    let rect = match state.layout.to_rect(window) {
        Some(rect) => rect,
        None => {
            return Err(WmError::OutOfRange);
        },
    };
    let width = match length_after(&state.layout, window, &rect, width_delta, true) {
        Ok(width) => width,
        Err(error) => {
            return Err(error);
        },
    };
    let height = match length_after(&state.layout, window, &rect, height_delta, false) {
        Ok(height) => height,
        Err(error) => {
            return Err(error);
        },
    };
    let target_width: Option<LengthValue> = match width {
        Some(px) => Some(LengthValue::from_px(px)),
        None => None,
    };
    let target_height: Option<LengthValue> = match height {
        Some(px) => Some(LengthValue::from_px(px)),
        None => None,
    };
    set_window_size(window, target_width, target_height, state, behavior, natives)
}

} // verus!
