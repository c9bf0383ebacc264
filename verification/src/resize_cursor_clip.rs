//! Keeping the cursor inside the legal range of a resize.

use vstd::prelude::*;

use crate::active_drag::ResizeEdges;
use crate::edge_resize::{edge_limits, limits_of};
use crate::errors::WmError;
use crate::geometry::{fits_i32, int_max, int_min, max_i32, min_i32, Rect};
use crate::layout::Layout;
use crate::placement::rect_of;
use crate::shares::{floor_div, WHOLE};
use crate::tree::{is_tile, kind, valid, ContainerKind, Tree};

verus! {

/// The area that the cursor is confined to while a tile is resized.
#[derive(Debug, Clone, Copy, PartialEq, Eq)]
pub struct ResizeCursorClip {
    /// The area before the resize.
    pub previous: Rect,
    pub bounds: Rect,
    /// Whether the bounds from left to right are fixed.
    pub horizontal: bool,
    /// Whether the bounds from top to bottom are fixed.
    pub vertical: bool,
}

/// The lower bound: `min`, but inside the area before.
pub open spec fn bound_low(min: int, low: int, high: int) -> int {
    int_min(int_max(min, low), high - 1)
}

/// The upper bound, which is not part of the area: just after `max`, but inside the area
/// before, and after the lower bound.
pub open spec fn bound_high(max: int, low: int, high: int) -> int {
    int_max(int_min(int_min(max + 1, i32::MAX as int), high), low + 1)
}

impl ResizeCursorClip {
    pub open spec fn is_frozen(self, horizontal: bool) -> bool {
        if horizontal {
            self.horizontal
        } else {
            self.vertical
        }
    }

    /// The bounds once an axis is constrained.
    pub open spec fn constrained(self, horizontal: bool, min: int, max: int) -> Rect {
        if horizontal {
            let left = bound_low(min, self.previous.left as int, self.previous.right as int);
            Rect {
                left: left as i32,
                right: bound_high(max, left, self.previous.right as int) as i32,
                ..self.bounds
            }
        } else {
            let top = bound_low(min, self.previous.top as int, self.previous.bottom as int);
            Rect {
                top: top as i32,
                bottom: bound_high(max, top, self.previous.bottom as int) as i32,
                ..self.bounds
            }
        }
    }

    /// No axis is constrained yet.
    pub fn new(previous: Rect) -> (res: ResizeCursorClip)
        ensures
            res == (ResizeCursorClip {
                previous,
                bounds: previous,
                horizontal: false,
                vertical: false,
            }),
    {
        ResizeCursorClip { previous, bounds: previous, horizontal: false, vertical: false }
    }

    /// Constrains an axis and returns the new bounds. Each axis is frozen once it has been
    /// constrained, so that rounding in later layouts cannot move the limit back and forth
    /// beneath a cursor that stands still.
    pub fn constrain_axis(&mut self, horizontal: bool, min: i32, max: i32) -> (res: Option<Rect>)
        requires
            horizontal ==> old(self).previous.right > i32::MIN,
            !horizontal ==> old(self).previous.bottom > i32::MIN,
        ensures
            old(self).is_frozen(horizontal) ==> res is None && *final(self) == *old(self),
            !old(self).is_frozen(horizontal) ==> {
                let bounds = old(self).constrained(horizontal, min as int, max as int);
                &&& res == Some(bounds)
                &&& *final(self) == (ResizeCursorClip {
                    previous: old(self).previous,
                    bounds,
                    horizontal: horizontal || old(self).horizontal,
                    vertical: !horizontal || old(self).vertical,
                })
            },
    {
        if (horizontal && self.horizontal) || (!horizontal && self.vertical) {
            return None;
        }
        let mut bounds = self.bounds;
        let after: i32 = if max < i32::MAX {
            max + 1
        } else {
            max
        };
        if horizontal {
            bounds.left = min_i32(max_i32(min, self.previous.left), self.previous.right - 1);
            bounds.right = max_i32(min_i32(after, self.previous.right), bounds.left + 1);
            self.horizontal = true;
        } else {
            bounds.top = min_i32(max_i32(min, self.previous.top), self.previous.bottom - 1);
            bounds.bottom = max_i32(min_i32(after, self.previous.bottom), bounds.top + 1);
            self.vertical = true;
        }
        self.bounds = bounds;
        Some(bounds)
    }
}

/// A constrained cursor stays inside the area it had before, and always has room. Legal
/// positions that were inside stay inside.
pub proof fn constrained_cursor_stays_inside(clip: ResizeCursorClip, min: int, max: int, x: int)
    requires
        clip.previous.left < clip.previous.right,
    ensures
        ({
            let bounds = clip.constrained(true, min, max);
            &&& clip.previous.left <= bounds.left < bounds.right <= clip.previous.right
            &&& bounds.top == clip.bounds.top
            &&& bounds.bottom == clip.bounds.bottom
            &&& min <= x <= max && clip.previous.left <= x < clip.previous.right ==> bounds.left
                <= x < bounds.right
        }),
{
}

/// The same from top to bottom.
pub proof fn constrained_cursor_stays_inside_vertically(
    clip: ResizeCursorClip,
    min: int,
    max: int,
    y: int,
)
    requires
        clip.previous.top < clip.previous.bottom,
    ensures
        ({
            let bounds = clip.constrained(false, min, max);
            &&& clip.previous.top <= bounds.top < bounds.bottom <= clip.previous.bottom
            &&& bounds.left == clip.bounds.left
            &&& bounds.right == clip.bounds.right
            &&& min <= y <= max && clip.previous.top <= y < clip.previous.bottom ==> bounds.top
                <= y < bounds.bottom
        }),
{
}

/// What becomes of the confinement when a window that is resized reports its frame.
#[derive(Debug, Clone, Copy, PartialEq, Eq, Structural)]
pub enum ClipAction {
    /// Nothing is confined and nothing changes.
    Keep,
    /// The confinement ends.
    Release,
    /// The present confinement is that of this window.
    Reuse,
    /// A new confinement begins.
    Replace,
}

/// What becomes of the confinement.
pub open spec fn clip_action(
    t: Tree,
    window: usize,
    is_mouse_down: bool,
    owner: Option<usize>,
) -> ClipAction {
    match t[window as int].data.window.active_drag {
        Some(drag) if drag.initial_cursor_position is Some => if !is_mouse_down {
            ClipAction::Release
        } else if owner == Some(window) {
            ClipAction::Reuse
        } else {
            ClipAction::Replace
        },
        _ => ClipAction::Keep,
    }
}

/// Decides what becomes of the confinement; `owner` is the window that it is for. A late
/// report after the button was released ends it and does not confine the cursor again.
pub fn cursor_clip_action(
    layout: &Layout,
    window: usize,
    is_mouse_down: bool,
    owner: Option<usize>,
) -> (res: ClipAction)
    requires
        valid(layout@, window),
    ensures
        res == clip_action(layout@, window, is_mouse_down, owner),
{
    match layout.window(window).active_drag {
        Some(drag) => {
            if drag.initial_cursor_position.is_none() {
                return ClipAction::Keep;
            }
            if !is_mouse_down {
                return ClipAction::Release;
            }
            match owner {
                Some(id) => if id == window {
                    ClipAction::Reuse
                } else {
                    ClipAction::Replace
                },
                None => ClipAction::Replace,
            }
        },
        None => ClipAction::Keep,
    }
}

/// The limits of the cursor along one axis.
#[derive(Debug, Clone, Copy, PartialEq, Eq, Structural)]
pub struct CursorLimits {
    pub horizontal: bool,
    pub min: i32,
    pub max: i32,
}

/// The limits of the cursor while an edge is dragged: where it was pressed, moved along with
/// the edge, and from there as far as the edge can go, rounded inwards.
pub open spec fn axis_limits(
    t: Tree,
    window: usize,
    horizontal: bool,
    leading: bool,
    origin: int,
) -> Result<CursorLimits, WmError> {
    match limits_of(t, window, horizontal, leading) {
        Err(error) => Err(error),
        Ok(limits) => {
            let min = origin - (-limits.0) / (WHOLE as int);
            let max = origin + limits.1 / (WHOLE as int);
            if fits_i32(min) && fits_i32(max) {
                Ok(CursorLimits { horizontal, min: min as i32, max: max as i32 })
            } else {
                Err(WmError::OutOfRange)
            }
        },
    }
}

/// The limits along the axes that are dragged, from left to right first, up to the first
/// error.
pub open spec fn cursor_limits(
    t: Tree,
    window: usize,
    edges: ResizeEdges,
) -> (Seq<CursorLimits>, Result<(), WmError>) {
    let props = t[window as int].data.window;
    match props.active_drag {
        Some(drag) => match (drag.initial_cursor_position, rect_of(t, window)) {
            (None, _) => (Seq::empty(), Ok(())),
            (_, None) => (Seq::empty(), Err(WmError::OutOfRange)),
            (Some(cursor), Some(tile)) => if !tile.delta_fits(props.border_delta) {
                (Seq::empty(), Err(WmError::OutOfRange))
            } else {
                let current = tile.with_delta(props.border_delta);
                let initial = drag.initial_position;
                let x = cursor.0 + (if edges.left {
                    current.left - initial.left
                } else {
                    current.right - initial.right
                });
                let y = cursor.1 + (if edges.top {
                    current.top - initial.top
                } else {
                    current.bottom - initial.bottom
                });
                let across = if edges.left || edges.right {
                    match axis_limits(t, window, true, edges.left, x) {
                        Ok(limits) => (seq![limits], Ok(())),
                        Err(error) => (Seq::<CursorLimits>::empty(), Err(error)),
                    }
                } else {
                    (Seq::empty(), Ok(()))
                };
                if across.1 is Ok && (edges.top || edges.bottom) {
                    match axis_limits(t, window, false, edges.top, y) {
                        Ok(limits) => (across.0.push(limits), Ok(())),
                        Err(error) => (across.0, Err(error)),
                    }
                } else {
                    across
                }
            },
        },
        None => (Seq::empty(), Ok(())),
    }
}

fn limits_along(
    layout: &Layout,
    window: usize,
    horizontal: bool,
    leading: bool,
    origin: i64,
) -> (res: Result<CursorLimits, WmError>)
    requires
        layout.wf(),
        valid(layout@, window),
        is_tile(layout@, window),
        -0x4_0000_0000 <= origin <= 0x4_0000_0000,
    ensures
        res == axis_limits(layout@, window, horizontal, leading, origin as int),
{
    let (low, high) = match edge_limits(layout, window, horizontal, leading) {
        Ok(limits) => limits,
        Err(error) => {
            return Err(error);
        },
    };
    let down: i128 = floor_div(-low, WHOLE as i128);
    let up: i128 = floor_div(high, WHOLE as i128);
    let min: i128 = origin as i128 - down;
    let max: i128 = origin as i128 + up;
    if -2147483648 <= min && min <= 2147483647 && -2147483648 <= max && max <= 2147483647 {
        Ok(CursorLimits { horizontal, min: min as i32, max: max as i32 })
    } else {
        Err(WmError::OutOfRange)
    }
}

/// The limits of the cursor while a tiled window is resized, one for each axis that is
/// dragged, up to the first error.
pub fn constrain_resize_cursor(
    layout: &Layout,
    window: usize,
    edges: &ResizeEdges,
) -> (res: (Vec<CursorLimits>, Result<(), WmError>))
    requires
        layout.wf(),
        valid(layout@, window),
        kind(layout@, window) == ContainerKind::TilingWindow,
    ensures
        (res.0@, res.1) == cursor_limits(layout@, window, *edges),
{
    let mut found: Vec<CursorLimits> = Vec::new();
    let props = layout.window(window);
    let drag = match props.active_drag {
        Some(drag) => drag,
        None => {
            return (found, Ok(()));
        },
    };
    let (cursor_x, cursor_y) = match drag.initial_cursor_position {
        Some(cursor) => cursor,
        None => {
            return (found, Ok(()));
        },
    };
    let tile = match layout.to_rect(window) {
        Some(tile) => tile,
        None => {
            return (found, Err(WmError::OutOfRange));
        },
    };
    let current = match tile.apply_delta(&props.border_delta) {
        Some(current) => current,
        None => {
            return (found, Err(WmError::OutOfRange));
        },
    };
    let initial = drag.initial_position;
    if edges.left || edges.right {
        let moved: i64 = if edges.left {
            current.left as i64 - initial.left as i64
        } else {
            current.right as i64 - initial.right as i64
        };
        match limits_along(layout, window, true, edges.left, cursor_x as i64 + moved) {
            Ok(limits) => {
                found.push(limits);
                assert(found@ =~= seq![limits]);
            },
            Err(error) => {
                return (found, Err(error));
            },
        }
    }
    if edges.top || edges.bottom {
        let moved: i64 = if edges.top {
            current.top as i64 - initial.top as i64
        } else {
            current.bottom as i64 - initial.bottom as i64
        };
        match limits_along(layout, window, false, edges.top, cursor_y as i64 + moved) {
            Ok(limits) => {
                found.push(limits);
            },
            Err(error) => {
                return (found, Err(error));
            },
        }
    }
    (found, Ok(()))
}

/// What is not legal stays outside: a cursor that is confined cannot go below the lower limit or
/// above the upper one, as long as the limits leave it room where it was.
pub proof fn illegal_places_stay_outside(clip: ResizeCursorClip, min: int, max: int, x: int)
    requires
        min <= max < i32::MAX,
    ensures
        ({
            let across = clip.constrained(true, min, max);
            &&& min < clip.previous.right && clip.previous.left <= max && (x < min || x > max)
                ==> !(across.left <= x < across.right)
        }),
        ({
            let down = clip.constrained(false, min, max);
            &&& min < clip.previous.bottom && clip.previous.top <= max && (x < min || x > max)
                ==> !(down.top <= x < down.bottom)
        }),
{
}

/// The limits of the cursor are those of the edge: from where the cursor holds the edge, it can go
/// exactly as far as the edge can.
pub proof fn cursors_go_as_far_as_edges(
    t: Tree,
    window: usize,
    horizontal: bool,
    leading: bool,
    origin: int,
    x: int,
)
    requires
        limits_of(t, window, horizontal, leading) matches Ok(limits) && limits.0 <= 0 <= limits.1,
    ensures
        axis_limits(t, window, horizontal, leading, origin) matches Ok(found) ==> {
            let limits = limits_of(t, window, horizontal, leading)->Ok_0;
            &&& found.horizontal == horizontal
            &&& found.min <= origin <= found.max
            &&& found.min <= x <= found.max <==> limits.0 <= (x - origin) * WHOLE <= limits.1
        },
{
    if let Ok(found) = axis_limits(t, window, horizontal, leading, origin) {
        let limits = limits_of(t, window, horizontal, leading)->Ok_0;
        let whole = WHOLE as int;
        let low = (-limits.0) / whole;
        let high = limits.1 / whole;
        let d = x - origin;
        assert(-low <= d <= high <==> limits.0 <= d * whole <= limits.1) by (nonlinear_arith)
            requires
                low == (-limits.0) / whole,
                high == limits.1 / whole,
                limits.0 <= 0 <= limits.1,
                whole == 1073741824,
        ;
        assert(0 <= low && 0 <= high) by (nonlinear_arith)
            requires
                low == (-limits.0) / whole,
                high == limits.1 / whole,
                limits.0 <= 0 <= limits.1,
                whole == 1073741824,
        ;
    }
}

/// While one edge is dragged, the cursor is confined along its axis only. It may be where it was
/// pressed, moved along with the edge since then, and from there go as far as the edge can.
pub proof fn cursors_are_confined_along_the_dragged_axis(
    t: Tree,
    window: usize,
    edges: ResizeEdges,
    before: Rect,
    cursor: (i32, i32),
    tile: Rect,
    x: int,
)
    requires
        t[window as int].data.window.active_drag matches Some(drag) && drag.initial_position
            == before && drag.initial_cursor_position == Some(cursor),
        rect_of(t, window) == Some(tile),
        tile.delta_fits(t[window as int].data.window.border_delta),
        forall|horizontal: bool, leading: bool|
            #[trigger] limits_of(t, window, horizontal, leading) matches Ok(limits) ==> limits.0
                <= 0 <= limits.1,
    ensures
        ({
            let border = t[window as int].data.window.border_delta;
            let (found, res) = cursor_limits(t, window, edges);
            &&& !edges.left && !edges.right && !edges.top && !edges.bottom ==> found.len() == 0
                && res is Ok
            &&& edges.left && !edges.top && !edges.bottom && res is Ok ==> {
                let moved = tile.left - border.left - before.left;
                let limits = limits_of(t, window, true, true)->Ok_0;
                &&& found.len() == 1 && found[0].horizontal
                &&& found[0].min <= x <= found[0].max <==> limits.0 <= (x - cursor.0 - moved)
                    * WHOLE <= limits.1
            }
            &&& edges.right && !edges.left && !edges.top && !edges.bottom && res is Ok ==> {
                let moved = tile.right + border.right - before.right;
                let limits = limits_of(t, window, true, false)->Ok_0;
                &&& found.len() == 1 && found[0].horizontal
                &&& found[0].min <= x <= found[0].max <==> limits.0 <= (x - cursor.0 - moved)
                    * WHOLE <= limits.1
            }
            &&& edges.top && !edges.left && !edges.right && res is Ok ==> {
                let moved = tile.top - border.top - before.top;
                let limits = limits_of(t, window, false, true)->Ok_0;
                &&& found.len() == 1 && !found[0].horizontal
                &&& found[0].min <= x <= found[0].max <==> limits.0 <= (x - cursor.1 - moved)
                    * WHOLE <= limits.1
            }
            &&& edges.bottom && !edges.top && !edges.left && !edges.right && res is Ok ==> {
                let moved = tile.bottom + border.bottom - before.bottom;
                let limits = limits_of(t, window, false, false)->Ok_0;
                &&& found.len() == 1 && !found[0].horizontal
                &&& found[0].min <= x <= found[0].max <==> limits.0 <= (x - cursor.1 - moved)
                    * WHOLE <= limits.1
            }
        }),
{
    let border = t[window as int].data.window.border_delta;
    if limits_of(t, window, true, true) is Ok {
        cursors_go_as_far_as_edges(
            t,
            window,
            true,
            true,
            cursor.0 + (tile.left - border.left - before.left),
            x,
        );
    }
    if limits_of(t, window, true, false) is Ok {
        cursors_go_as_far_as_edges(
            t,
            window,
            true,
            false,
            cursor.0 + (tile.right + border.right - before.right),
            x,
        );
    }
    if limits_of(t, window, false, true) is Ok {
        cursors_go_as_far_as_edges(
            t,
            window,
            false,
            true,
            cursor.1 + (tile.top - border.top - before.top),
            x,
        );
    }
    if limits_of(t, window, false, false) is Ok {
        cursors_go_as_far_as_edges(
            t,
            window,
            false,
            false,
            cursor.1 + (tile.bottom + border.bottom - before.bottom),
            x,
        );
    }
}

/// The cursor is confined only while the button is down and the drag knows where it was pressed. A
/// confinement is used again for the window that it is for, and replaced for another.
pub proof fn cursors_are_free_after_the_release(
    t: Tree,
    window: usize,
    is_mouse_down: bool,
    owner: Option<usize>,
)
    ensures
        ({
            let pressed = t[window as int].data.window.active_drag matches Some(drag)
                && drag.initial_cursor_position is Some;
            let action = clip_action(t, window, is_mouse_down, owner);
            &&& action is Keep <==> !pressed
            &&& action is Release <==> pressed && !is_mouse_down
            &&& action is Reuse <==> pressed && is_mouse_down && owner == Some(window)
            &&& action is Replace <==> pressed && is_mouse_down && owner != Some(window)
        }),
{
}

} // verus!
