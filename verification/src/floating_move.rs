//! Moving floating windows over the screen.

use vstd::prelude::*;

use crate::errors::WmError;
use crate::geometry::{max_i32, min_i32, trunc_div, Direction, Rect};
use crate::layout::Layout;
use crate::pending_sync::{PendingSync, PendingSyncView};
use crate::shares::share_ok;
use crate::traversal::monitor_of;
use crate::tree::{valid, with_window, Tree, WindowProps};
use crate::tree_laws::{lemma_same_links_wf, same_links};
use crate::window_laws::{keeps_windows, lemma_same_links_keeps_windows};
use crate::window_size::Outcome;

verus! {

/// A window this close to the edge of its monitor snaps to it.
pub const SNAP_DISTANCE: i64 = 15;

/// The next monitor in a direction.
#[derive(Debug, Clone, Copy, PartialEq, Eq)]
pub struct NearbyMonitor {
    pub working_area: Rect,
    /// Whether the monitor there has another resolution.
    pub has_dpi_difference: bool,
}

/// What surrounds a floating window.
#[derive(Debug, Clone, Copy, PartialEq, Eq)]
pub struct FloatingContext {
    /// The area of the window's monitor that is free for windows.
    pub working_area: Rect,
    pub next_monitor: Option<NearbyMonitor>,
}

/// The place of an edge of a rectangle.
pub open spec fn edge(rect: Rect, direction: Direction) -> int {
    match direction {
        Direction::Up => rect.top as int,
        Direction::Down => rect.bottom as int,
        Direction::Left => rect.left as int,
        Direction::Right => rect.right as int,
    }
}

/// The length of a rectangle along the axis of a direction.
pub open spec fn extent(rect: Rect, direction: Direction) -> int {
    if direction.is_vertical() {
        rect.h()
    } else {
        rect.w()
    }
}

/// Whether a length is at least zero and less than some fifths of another.
pub open spec fn below_fifths(length: int, whole: int, fifths: int) -> bool {
    if whole > 0 {
        0 <= length && 5 * length < fifths * whole
    } else {
        whole < 0 && length <= 0 && 5 * length > fifths * whole
    }
}

/// How far a window moves at once: the smaller it is on its monitor, the smaller a part of the
/// free length.
pub open spec fn move_distance(length: int, whole: int) -> int {
    let divisor = if below_fifths(length, whole, 1) {
        5int
    } else if below_fifths(length, whole, 2) {
        4
    } else if below_fifths(length, whole, 3) {
        3
    } else {
        2
    };
    trunc_div(whole - length, divisor)
}

/// A window at the edge of an area.
pub open spec fn snapped(window: Rect, area: Rect, at: Direction) -> Option<Rect> {
    match at {
        Direction::Up => window.at(window.left as int, area.top as int),
        Direction::Down => window.at(window.left as int, area.bottom - window.h()),
        Direction::Left => window.at(area.left as int, window.top as int),
        Direction::Right => window.at(area.right - window.w(), window.top as int),
    }
}

/// A window moved by some pixels.
pub open spec fn translated(window: Rect, direction: Direction, distance: int) -> Option<Rect> {
    match direction {
        Direction::Up => window.at(window.left as int, window.top - distance),
        Direction::Down => window.at(window.left as int, window.top + distance),
        Direction::Left => window.at(window.left - distance, window.top as int),
        Direction::Right => window.at(window.left + distance, window.top as int),
    }
}

/// The part of a rectangle that lies inside another.
pub open spec fn clamped(rect: Rect, outer: Rect) -> Rect {
    Rect {
        left: if rect.left >= outer.left {
            rect.left
        } else {
            outer.left
        },
        top: if rect.top >= outer.top {
            rect.top
        } else {
            outer.top
        },
        right: if rect.right <= outer.right {
            rect.right
        } else {
            outer.right
        },
        bottom: if rect.bottom <= outer.bottom {
            rect.bottom
        } else {
            outer.bottom
        },
    }
}

/// Whether a window that moves by a distance comes close to the edge of its monitor, or past it.
pub open spec fn reaches_edge(
    window: Rect,
    area: Rect,
    direction: Direction,
    distance: int,
) -> bool {
    if direction.is_backward() {
        edge(window, direction) - distance - SNAP_DISTANCE < edge(area, direction)
    } else {
        edge(window, direction) + distance + SNAP_DISTANCE > edge(area, direction)
    }
}

/// Whether a window sticks out of its monitor on the side that it moves away from.
pub open spec fn sticks_out_behind(window: Rect, area: Rect, direction: Direction) -> bool {
    if direction.is_backward() {
        edge(window, direction.inverse()) > edge(area, direction.inverse())
    } else {
        edge(window, direction.inverse()) < edge(area, direction.inverse())
    }
}

/// Where a floating window goes: the new place and whether it is on the next monitor. `None`
/// where the window stays, an error where the place cannot be represented.
pub open spec fn floating_step(
    window: Rect,
    direction: Direction,
    context: FloatingContext,
) -> Result<Option<(Rect, bool)>, WmError> {
    let area = context.working_area;
    if edge(window, direction) == edge(area, direction) {
        match context.next_monitor {
            None => Ok(None),
            Some(next) => match snapped(window, next.working_area, direction.inverse()) {
                Some(rect) => Ok(Some((clamped(rect, next.working_area), true))),
                None => Err(WmError::OutOfRange),
            },
        }
    } else {
        let distance = move_distance(extent(window, direction), extent(area, direction));
        let place = if reaches_edge(window, area, direction, distance) {
            snapped(window, area, direction)
        } else if sticks_out_behind(window, area, direction) {
            snapped(window, area, direction.inverse())
        } else {
            translated(window, direction, distance)
        };
        match place {
            Some(rect) => Ok(Some((rect, false))),
            None => Err(WmError::OutOfRange),
        }
    }
}

/// Whether a rectangle lies inside another.
pub open spec fn lies_inside(rect: Rect, outer: Rect) -> bool {
    outer.left <= rect.left <= rect.right <= outer.right && outer.top <= rect.top <= rect.bottom
        <= outer.bottom
}

/// A floating window that is inside the area of its monitor stays inside when it moves there. It
/// keeps its size, moves along one axis only, and always comes closer to the edge.
pub proof fn floating_windows_stay_inside(
    window: Rect,
    direction: Direction,
    context: FloatingContext,
)
    requires
        lies_inside(window, context.working_area),
    ensures
        floating_step(window, direction, context) matches Ok(Some((rect, is_next))) ==> !is_next
            ==> {
            &&& lies_inside(rect, context.working_area)
            &&& rect.w() == window.w() && rect.h() == window.h()
            &&& direction.is_vertical() ==> rect.left == window.left
            &&& !direction.is_vertical() ==> rect.top == window.top
            &&& direction.is_backward() ==> edge(rect, direction) < edge(window, direction)
            &&& !direction.is_backward() ==> edge(rect, direction) > edge(window, direction)
        },
{
}

/// A floating window that goes to the next monitor does not stick out there.
pub proof fn floating_windows_fit_next_monitor(
    window: Rect,
    direction: Direction,
    context: FloatingContext,
)
    ensures
        floating_step(window, direction, context) matches Ok(Some((rect, is_next))) ==> is_next
            ==> {
            let outer = context.next_monitor->0.working_area;
            &&& context.next_monitor is Some
            &&& outer.left <= rect.left && rect.right <= outer.right
            &&& outer.top <= rect.top && rect.bottom <= outer.bottom
        },
{
}

fn edge_of(rect: &Rect, direction: Direction) -> (res: i64)
    ensures
        res == edge(*rect, direction),
{
    match direction {
        Direction::Up => rect.top as i64,
        Direction::Down => rect.bottom as i64,
        Direction::Left => rect.left as i64,
        Direction::Right => rect.right as i64,
    }
}

fn is_below_fifths(length: i64, whole: i64, fifths: i64) -> (res: bool)
    requires
        -0x1_0000_0000 <= length <= 0x1_0000_0000,
        -0x1_0000_0000 <= whole <= 0x1_0000_0000,
        0 <= fifths <= 5,
    ensures
        res == below_fifths(length as int, whole as int, fifths as int),
{
    assert(-0x8_0000_0000 <= fifths * whole <= 0x8_0000_0000) by (nonlinear_arith)
        requires
            -0x1_0000_0000 <= whole <= 0x1_0000_0000,
            0 <= fifths <= 5,
    ;
    if whole > 0 {
        0 <= length && 5 * length < fifths * whole
    } else {
        whole < 0 && length <= 0 && 5 * length > fifths * whole
    }
}

fn distance_to_move(length: i64, whole: i64) -> (res: i64)
    requires
        -0x1_0000_0000 <= length <= 0x1_0000_0000,
        -0x1_0000_0000 <= whole <= 0x1_0000_0000,
    ensures
        res == move_distance(length as int, whole as int),
        -0x2_0000_0000 <= res <= 0x2_0000_0000,
{
    let free: i64 = whole - length;
    let divisor: i64 = if is_below_fifths(length, whole, 1) {
        5
    } else if is_below_fifths(length, whole, 2) {
        4
    } else if is_below_fifths(length, whole, 3) {
        3
    } else {
        2
    };
    if free >= 0 {
        free / divisor
    } else {
        -((-free) / divisor)
    }
}

/// The window at the edge of an area, if that lies on the desktop.
pub fn snap_to_monitor_edge(window: &Rect, area: &Rect, at: Direction) -> (res: Option<Rect>)
    ensures
        res == snapped(*window, *area, at),
{
    let width: i64 = window.wide_width();
    let height: i64 = window.wide_height();
    let (x, y): (i64, i64) = match at {
        Direction::Up => (window.left as i64, area.top as i64),
        Direction::Down => (window.left as i64, area.bottom as i64 - height),
        Direction::Left => (area.left as i64, window.top as i64),
        Direction::Right => (area.right as i64 - width, window.top as i64),
    };
    Rect::checked_xy(x, y, width, height)
}

fn translate_in_direction(window: &Rect, direction: Direction, distance: i64) -> (res: Option<
    Rect,
>)
    requires
        -0x2_0000_0000 <= distance <= 0x2_0000_0000,
    ensures
        res == translated(*window, direction, distance as int),
{
    let (x, y): (i64, i64) = match direction {
        Direction::Up => (window.left as i64, window.top as i64 - distance),
        Direction::Down => (window.left as i64, window.top as i64 + distance),
        Direction::Left => (window.left as i64 - distance, window.top as i64),
        Direction::Right => (window.left as i64 + distance, window.top as i64),
    };
    Rect::checked_xy(x, y, window.wide_width(), window.wide_height())
}

fn clamp_rect(rect: &Rect, outer: &Rect) -> (res: Rect)
    ensures
        res == clamped(*rect, *outer),
{
    Rect {
        left: max_i32(rect.left, outer.left),
        top: max_i32(rect.top, outer.top),
        right: min_i32(rect.right, outer.right),
        bottom: min_i32(rect.bottom, outer.bottom),
    }
}

/// Where a floating window with this frame goes in a direction, and whether that is on the next
/// monitor.
pub fn new_floating_position(
    window: &Rect,
    direction: Direction,
    context: &FloatingContext,
) -> (res: Result<Option<(Rect, bool)>, WmError>)
    ensures
        res == floating_step(*window, direction, *context),
{
    let area = context.working_area;
    if edge_of(window, direction) == edge_of(&area, direction) {
        return match context.next_monitor {
            None => Ok(None),
            Some(next) => match snap_to_monitor_edge(
                window,
                &next.working_area,
                direction.inverse(),
            ) {
                Some(rect) => Ok(Some((clamp_rect(&rect, &next.working_area), true))),
                None => Err(WmError::OutOfRange),
            },
        };
    }
    let distance: i64 = if direction.is_vertical() {
        distance_to_move(window.wide_height(), area.wide_height())
    } else {
        distance_to_move(window.wide_width(), area.wide_width())
    };
    let reaches: bool = if direction.is_backward() {
        edge_of(window, direction) - distance - SNAP_DISTANCE < edge_of(&area, direction)
    } else {
        edge_of(window, direction) + distance + SNAP_DISTANCE > edge_of(&area, direction)
    };
    let behind = direction.inverse();
    let sticks_out: bool = if direction.is_backward() {
        edge_of(window, behind) > edge_of(&area, behind)
    } else {
        edge_of(window, behind) < edge_of(&area, behind)
    };
    let place = if reaches {
        snap_to_monitor_edge(window, &area, direction)
    } else if sticks_out {
        snap_to_monitor_edge(window, &area, behind)
    } else {
        translate_in_direction(window, direction, distance)
    };
    match place {
        Some(rect) => Ok(Some((rect, false))),
        None => Err(WmError::OutOfRange),
    }
}

/// A floating window at a new place. It is adapted to the resolution there if that is another
/// monitor with another resolution.
pub open spec fn floated(
    window: WindowProps,
    placement: Rect,
    crosses: bool,
    context: FloatingContext,
) -> WindowProps {
    WindowProps {
        floating_placement: placement,
        has_pending_dpi_adjustment: window.has_pending_dpi_adjustment || (crosses && (
        context.next_monitor matches Some(next) && next.has_dpi_difference)),
        ..window
    }
}

/// What moving a floating window comes to.
pub open spec fn moved_floating(
    t: Tree,
    sync: PendingSyncView,
    window: usize,
    direction: Direction,
    context: FloatingContext,
) -> Outcome {
    let props = t[window as int].data.window;
    if monitor_of(t, window) is None {
        (t, sync, Err(WmError::NoMonitor))
    } else {
        match floating_step(props.frame, direction, context) {
            Err(error) => (t, sync, Err(error)),
            Ok(None) => (t, sync, Ok(())),
            Ok(Some(step)) => (
                with_window(t, window, floated(props, step.0, step.1, context)),
                sync.with_redraw(window),
                Ok(()),
            ),
        }
    }
}

/// Moves a floating window in a direction.
pub fn move_floating_window(
    layout: &mut Layout,
    sync: &mut PendingSync,
    window: usize,
    direction: Direction,
    context: &FloatingContext,
) -> (res: Result<(), WmError>)
    requires
        old(layout).wf(),
        valid(old(layout)@, window),
    ensures
        (final(layout)@, final(sync)@, res) == moved_floating(
            old(layout)@,
            old(sync)@,
            window,
            direction,
            *context,
        ),
        final(layout).wf(),
        same_links(old(layout)@, final(layout)@),
        keeps_windows(old(layout)@, final(layout)@),
{
    let ghost t = layout@;
    if layout.monitor(window).is_none() {
        return Err(WmError::NoMonitor);
    }
    let props = layout.window(window);
    match new_floating_position(&props.frame, direction, context) {
        Ok(Some((floating_placement, crosses))) => {
            let differs: bool = match context.next_monitor {
                Some(next) => next.has_dpi_difference,
                None => false,
            };
            let has_pending_dpi_adjustment: bool = props.has_pending_dpi_adjustment || (crosses
                && differs);
            layout.set_window(
                window,
                WindowProps { floating_placement, has_pending_dpi_adjustment, ..props },
            );
            proof {
                assert forall|i: int| 0 <= i < t.len() implies share_ok(
                    #[trigger] layout@[i].data.tiling_size as int,
                ) by {
                    assert(share_ok(t[i].data.tiling_size as int));
                }
                lemma_same_links_wf(t, layout@);
                lemma_same_links_keeps_windows(t, layout@);
            }
            sync.queue_container_to_redraw(window);
            Ok(())
        },
        Ok(None) => Ok(()),
        Err(error) => Err(error),
    }
}

/// Whether a distance is a part of the free length beside a window: a fifth of it for a window that
/// takes less than a fifth of the whole, a quarter for less than two fifths, a third for less than
/// three fifths, and else a half.
pub open spec fn is_paced(distance: int, length: int, whole: int) -> bool {
    let free = whole - length;
    &&& 5 * length < whole ==> 5 * distance <= free < 5 * distance + 5
    &&& whole <= 5 * length < 2 * whole ==> 4 * distance <= free < 4 * distance + 4
    &&& 2 * whole <= 5 * length < 3 * whole ==> 3 * distance <= free < 3 * distance + 3
    &&& 3 * whole <= 5 * length ==> 2 * distance <= free < 2 * distance + 2
}

/// A floating window inside its area goes in the direction it is moved in, by a part of what is
/// free beside it. Where that would bring it past the edge or within the snapping distance of it,
/// it goes to the edge. It keeps its size and its place along the other axis.
pub proof fn floating_windows_go_their_way(window: Rect, context: FloatingContext)
    requires
        lies_inside(window, context.working_area),
        context.working_area.w() > 0,
        context.working_area.h() > 0,
    ensures
        ({
            let area = context.working_area;
            let across = move_distance(window.w(), area.w());
            let down = move_distance(window.h(), area.h());
            &&& is_paced(across, window.w(), area.w())
            &&& is_paced(down, window.h(), area.h())
            &&& window.right != area.right ==> {
                &&& floating_step(window, Direction::Right, context) matches Ok(Some((rect, next)))
                &&& !next && rect.top == window.top && rect.bottom == window.bottom
                &&& rect.w() == window.w()
                &&& window.right + across + 15 > area.right ==> rect.right == area.right
                &&& window.right + across + 15 <= area.right ==> rect.right == window.right + across
            }
            &&& window.left != area.left ==> {
                &&& floating_step(window, Direction::Left, context) matches Ok(Some((rect, next)))
                &&& !next && rect.top == window.top && rect.bottom == window.bottom
                &&& rect.w() == window.w()
                &&& window.left - across - 15 < area.left ==> rect.left == area.left
                &&& window.left - across - 15 >= area.left ==> rect.left == window.left - across
            }
            &&& window.bottom != area.bottom ==> {
                &&& floating_step(window, Direction::Down, context) matches Ok(Some((rect, next)))
                &&& !next && rect.left == window.left && rect.right == window.right
                &&& rect.h() == window.h()
                &&& window.bottom + down + 15 > area.bottom ==> rect.bottom == area.bottom
                &&& window.bottom + down + 15 <= area.bottom ==> rect.bottom == window.bottom + down
            }
            &&& window.top != area.top ==> {
                &&& floating_step(window, Direction::Up, context) matches Ok(Some((rect, next)))
                &&& !next && rect.left == window.left && rect.right == window.right
                &&& rect.h() == window.h()
                &&& window.top - down - 15 < area.top ==> rect.top == area.top
                &&& window.top - down - 15 >= area.top ==> rect.top == window.top - down
            }
        }),
{
}

/// A floating window at the edge of its area goes to the next monitor, if there is one, and stands
/// at the near edge there. It keeps its size where there is room for it.
pub proof fn floating_windows_enter_at_the_near_edge(
    window: Rect,
    context: FloatingContext,
    direction: Direction,
)
    requires
        direction == Direction::Right ==> window.right == context.working_area.right,
        direction == Direction::Left ==> window.left == context.working_area.left,
        direction == Direction::Down ==> window.bottom == context.working_area.bottom,
        direction == Direction::Up ==> window.top == context.working_area.top,
    ensures
        context.next_monitor is None ==> floating_step(window, direction, context) == Ok::<
            Option<(Rect, bool)>,
            WmError,
        >(None),
        context.next_monitor matches Some(monitor) ==> (floating_step(
            window,
            direction,
            context,
        ) matches Ok(found) ==> {
            let there = monitor.working_area;
            &&& found matches Some((rect, next))
            &&& next
            &&& 0 <= window.w() <= there.w() && 0 <= window.h() <= there.h() ==> {
                &&& direction == Direction::Right ==> rect.left == there.left && rect.w()
                    == window.w()
                &&& direction == Direction::Left ==> rect.right == there.right && rect.w()
                    == window.w()
                &&& direction == Direction::Down ==> rect.top == there.top && rect.h() == window.h()
                &&& direction == Direction::Up ==> rect.bottom == there.bottom && rect.h()
                    == window.h()
            }
            &&& direction == Direction::Right || direction == Direction::Left ==> {
                &&& there.top <= window.top && window.bottom <= there.bottom ==> rect.top
                    == window.top && rect.bottom == window.bottom
            }
            &&& direction == Direction::Down || direction == Direction::Up ==> {
                &&& there.left <= window.left && window.right <= there.right ==> rect.left
                    == window.left && rect.right == window.right
            }
        }),
{
}

/// A floating window is drawn where its step leads, and adapted to the resolution there if it goes
/// to a monitor with another one. It stays, and is not drawn again, where there is no step.
pub proof fn floating_windows_are_drawn_where_they_go(
    t: Tree,
    sync: PendingSyncView,
    window: usize,
    direction: Direction,
    context: FloatingContext,
)
    requires
        valid(t, window),
        monitor_of(t, window) is Some,
    ensures
        ({
            let before = t[window as int].data.window;
            let (u, after, res) = moved_floating(t, sync, window, direction, context);
            let now = u[window as int].data.window;
            match floating_step(before.frame, direction, context) {
                Err(error) => u == t && after == sync && res == Err::<(), WmError>(error),
                Ok(None) => u == t && after == sync && res is Ok,
                Ok(Some((rect, is_next))) => {
                    &&& res is Ok
                    &&& now.floating_placement == rect
                    &&& now.has_pending_dpi_adjustment <==> before.has_pending_dpi_adjustment || (
                    is_next && context.next_monitor->0.has_dpi_difference)
                    &&& now.state == before.state
                    &&& after.redraw == sync.redraw.insert(window)
                    &&& after.animations_suppressed == sync.animations_suppressed
                    &&& forall|i: int| 0 <= i < t.len() && i != window ==> #[trigger] u[i] == t[i]
                },
            }
        }),
{
}

} // verus!
