//! The part of a monitor that bars leave free for windows.

use vstd::prelude::*;

use crate::geometry::{
    abs_i64, fits_i32, half_i64, int_abs, int_max, int_min, max_i32, min_i32, min_i64, to_i32,
    trunc_div, Rect,
};

verus! {

/// An edge of a monitor.
#[derive(Debug, Clone, Copy, PartialEq, Eq, Structural)]
pub enum Edge {
    Top,
    Bottom,
    Left,
    Right,
}

/// A bar at an edge of a monitor.
#[derive(Debug, Clone, Copy, PartialEq, Eq, Structural)]
pub struct Panel {
    pub edge: Edge,
    /// How far the bar reaches into the monitor.
    pub depth: i32,
    pub visible: bool,
}

impl Edge {
    /// How far a panel reaches into a monitor from this edge.
    pub open spec fn reach(self, bounds: Rect, panel: Rect) -> int {
        match self {
            Edge::Top => panel.bottom - bounds.top,
            Edge::Bottom => bounds.bottom - panel.top,
            Edge::Left => panel.right - bounds.left,
            Edge::Right => bounds.right - panel.left,
        }
    }

    /// How much an area leaves free at this edge of a monitor.
    pub open spec fn reserved(self, bounds: Rect, work: Rect) -> int {
        match self {
            Edge::Top => work.top - bounds.top,
            Edge::Bottom => bounds.bottom - work.bottom,
            Edge::Left => work.left - bounds.left,
            Edge::Right => bounds.right - work.right,
        }
    }

    pub fn depth(self, bounds: &Rect, panel: &Rect) -> (res: i64)
        ensures
            res == self.reach(*bounds, *panel),
    {
        match self {
            Edge::Top => panel.bottom as i64 - bounds.top as i64,
            Edge::Bottom => bounds.bottom as i64 - panel.top as i64,
            Edge::Left => panel.right as i64 - bounds.left as i64,
            Edge::Right => bounds.right as i64 - panel.left as i64,
        }
    }

    pub fn inset(self, bounds: &Rect, work: &Rect) -> (res: i64)
        ensures
            res == self.reserved(*bounds, *work),
    {
        match self {
            Edge::Top => work.top as i64 - bounds.top as i64,
            Edge::Bottom => bounds.bottom as i64 - work.bottom as i64,
            Edge::Left => work.left as i64 - bounds.left as i64,
            Edge::Right => bounds.right as i64 - work.right as i64,
        }
    }
}

/// Whether a hidden panel is known to have been the reason for what is reserved at an edge.
pub open spec fn is_released(panels: Seq<Panel>, edge: Edge, reserved: int) -> bool {
    reserved > 0 && exists|k: int|
        0 <= k < panels.len() && !(#[trigger] panels[k]).visible && panels[k].edge == edge
            && reserved <= panels[k].depth
}

/// The most that the visible panels at an edge take, or `least` if that is more.
pub open spec fn deepest_visible(panels: Seq<Panel>, edge: Edge, least: int) -> int
    decreases panels.len(),
{
    if panels.len() == 0 {
        least
    } else {
        let before = deepest_visible(panels.drop_last(), edge, least);
        let panel = panels.last();
        if panel.visible && panel.edge == edge {
            int_max(before, panel.depth as int)
        } else {
            before
        }
    }
}

/// What is kept free at an edge: what the system reserves, unless that was for a panel that is
/// hidden, and at least what each visible panel takes.
pub open spec fn kept_free(bounds: Rect, system_work: Rect, panels: Seq<Panel>, edge: Edge) -> int {
    let reserved = edge.reserved(bounds, system_work);
    deepest_visible(
        panels,
        edge,
        if is_released(panels, edge, reserved) {
            0
        } else {
            reserved
        },
    )
}

/// The free area of a monitor: its bounds less what is kept free at each edge. Where nothing is
/// left, what the system says.
pub open spec fn resolved(bounds: Rect, system_work: Rect, panels: Seq<Panel>) -> Rect {
    let left = bounds.left + kept_free(bounds, system_work, panels, Edge::Left);
    let top = bounds.top + kept_free(bounds, system_work, panels, Edge::Top);
    let right = bounds.right - kept_free(bounds, system_work, panels, Edge::Right);
    let bottom = bounds.bottom - kept_free(bounds, system_work, panels, Edge::Bottom);
    if left < right && top < bottom {
        Rect { left: left as i32, top: top as i32, right: right as i32, bottom: bottom as i32 }
    } else {
        system_work
    }
}

proof fn lemma_deepest_visible(panels: Seq<Panel>, edge: Edge, least: int)
    ensures
        deepest_visible(panels, edge, least) >= least,
        least >= i32::MIN ==> deepest_visible(panels, edge, least) <= int_max(
            least,
            i32::MAX as int,
        ),
        forall|k: int|
            0 <= k < panels.len() && (#[trigger] panels[k]).visible && panels[k].edge == edge
                ==> panels[k].depth <= deepest_visible(panels, edge, least),
    decreases panels.len(),
{
    if panels.len() > 0 {
        let front = panels.drop_last();
        lemma_deepest_visible(front, edge, least);
        assert forall|k: int|
            0 <= k < panels.len() && (#[trigger] panels[k]).visible && panels[k].edge
                == edge implies panels[k].depth <= deepest_visible(panels, edge, least) by {
            if k < front.len() {
                assert(front[k] == panels[k]);
            }
        }
    }
}

proof fn lemma_nothing_deeper(panels: Seq<Panel>, edge: Edge, least: int)
    requires
        forall|k: int|
            0 <= k < panels.len() && (#[trigger] panels[k]).visible && panels[k].edge == edge
                ==> panels[k].depth <= least,
    ensures
        deepest_visible(panels, edge, least) == least,
    decreases panels.len(),
{
    if panels.len() > 0 {
        let front = panels.drop_last();
        assert forall|k: int|
            0 <= k < front.len() && (#[trigger] front[k]).visible && front[k].edge
                == edge implies front[k].depth <= least by {
            assert(front[k] == panels[k]);
        }
        lemma_nothing_deeper(front, edge, least);
        assert(panels.last() == panels[panels.len() - 1]);
    }
}

/// What is kept free at an edge does not reach beyond the monitor and the free area of the
/// system.
proof fn lemma_kept_free(bounds: Rect, system_work: Rect, panels: Seq<Panel>)
    ensures
        forall|edge: Edge|
            {
                ||| (#[trigger] kept_free(bounds, system_work, panels, edge)) >= edge.reserved(
                    bounds,
                    system_work,
                )
                ||| kept_free(bounds, system_work, panels, edge) >= 0
            },
{
    assert forall|edge: Edge|
        {
            ||| (#[trigger] kept_free(bounds, system_work, panels, edge)) >= edge.reserved(
                bounds,
                system_work,
            )
            ||| kept_free(bounds, system_work, panels, edge) >= 0
        } by {
        let reserved = edge.reserved(bounds, system_work);
        lemma_deepest_visible(
            panels,
            edge,
            if is_released(panels, edge, reserved) {
                0
            } else {
                reserved
            },
        );
    }
}

fn free_at(bounds: &Rect, system_work: &Rect, panels: &Vec<Panel>, edge: Edge) -> (res: i64)
    ensures
        res == kept_free(*bounds, *system_work, panels@, edge),
        -0x1_0000_0000 <= res <= 0x1_0000_0000,
        edge.reserved(*bounds, *system_work) <= res || 0 <= res,
{
    let reserved = edge.inset(bounds, system_work);
    let mut released: bool = false;
    for i in 0..panels.len()
        invariant
            reserved == edge.reserved(*bounds, *system_work),
            released ==> is_released(panels@, edge, reserved as int),
            !released ==> reserved <= 0 || forall|k: int|
                0 <= k < i ==> (#[trigger] panels@[k]).visible || panels@[k].edge != edge
                    || reserved > panels@[k].depth,
    {
        let panel = panels[i];
        if !panel.visible && panel.edge == edge && reserved > 0 && reserved <= panel.depth as i64 {
            assert(panels@[i as int].edge == edge);
            released = true;
        }
    }
    assert(released == is_released(panels@, edge, reserved as int));
    let least: i64 = if released {
        0
    } else {
        reserved
    };
    let mut free: i64 = least;
    assert(panels@.take(0) =~= Seq::<Panel>::empty());
    for i in 0..panels.len()
        invariant
            -0x1_0000_0000 <= least <= 0x1_0000_0000,
            -0x1_0000_0000 <= free <= 0x1_0000_0000,
            least <= free,
            free == deepest_visible(panels@.take(i as int), edge, least as int),
    {
        assert(panels@.take(i + 1).drop_last() =~= panels@.take(i as int));
        let panel = panels[i];
        if panel.visible && panel.edge == edge && panel.depth as i64 > free {
            free = panel.depth as i64;
        }
    }
    assert(panels@.take(panels.len() as int) =~= panels@);
    free
}

/// The free area of a monitor, from what the system says and from the bars at its edges. Only
/// reservations that a known hidden bar explains are released; visible bars count in any case, so
/// a hidden bar never takes the room of a visible one at the same edge.
pub fn resolve_working_area(bounds: &Rect, system_work: &Rect, panels: &Vec<Panel>) -> (res: Rect)
    ensures
        res == resolved(*bounds, *system_work, panels@),
{
    let left: i64 = bounds.left as i64 + free_at(bounds, system_work, panels, Edge::Left);
    let top: i64 = bounds.top as i64 + free_at(bounds, system_work, panels, Edge::Top);
    let right: i64 = bounds.right as i64 - free_at(bounds, system_work, panels, Edge::Right);
    let bottom: i64 = bounds.bottom as i64 - free_at(bounds, system_work, panels, Edge::Bottom);
    if left < right && top < bottom {
        Rect { left: left as i32, top: top as i32, right: right as i32, bottom: bottom as i32 }
    } else {
        *system_work
    }
}

/// A visible bar has its room: unless nothing at all would be left, the free area starts where the
/// bar ends or further in.
pub proof fn visible_panels_have_room(
    bounds: Rect,
    system_work: Rect,
    panels: Seq<Panel>,
    k: int,
)
    requires
        0 <= k < panels.len(),
        panels[k].visible,
        resolved(bounds, system_work, panels) != system_work,
    ensures
        panels[k].edge.reserved(bounds, resolved(bounds, system_work, panels)) >= panels[k].depth,
{
    lemma_kept_free(bounds, system_work, panels);
    let edge = panels[k].edge;
    let reserved = edge.reserved(bounds, system_work);
    lemma_deepest_visible(
        panels,
        edge,
        if is_released(panels, edge, reserved) {
            0
        } else {
            reserved
        },
    );
}

/// A bar for which the system already reserves its room is not counted twice: where every bar is
/// such a bar and visible, the system has its way.
pub proof fn accounted_panels_change_nothing(bounds: Rect, system_work: Rect, panels: Seq<Panel>)
    requires
        forall|k: int|
            0 <= k < panels.len() ==> (#[trigger] panels[k]).visible && panels[k].depth
                <= panels[k].edge.reserved(bounds, system_work),
    ensures
        resolved(bounds, system_work, panels) == system_work,
{
    let edges = seq![Edge::Left, Edge::Top, Edge::Right, Edge::Bottom];
    assert forall|i: int| 0 <= i < 4 implies kept_free(
        bounds,
        system_work,
        panels,
        #[trigger] edges[i],
    ) == edges[i].reserved(bounds, system_work) by {
        lemma_nothing_deeper(panels, edges[i], edges[i].reserved(bounds, system_work));
    }
    assert(edges[0] == Edge::Left && edges[1] == Edge::Top && edges[2] == Edge::Right && edges[3]
        == Edge::Bottom);
}

/// A bar that hides gives its room back: where it explains what the system reserves at its edge,
/// and no visible bar stands there, the free area reaches the edge of the monitor.
pub proof fn hidden_panel_gives_room_back(
    bounds: Rect,
    system_work: Rect,
    panels: Seq<Panel>,
    k: int,
)
    requires
        0 <= k < panels.len(),
        !panels[k].visible,
        0 < panels[k].edge.reserved(bounds, system_work) <= panels[k].depth,
        forall|i: int|
            0 <= i < panels.len() && (#[trigger] panels[i]).visible && panels[i].edge
                == panels[k].edge ==> panels[i].depth <= 0,
        resolved(bounds, system_work, panels) != system_work,
    ensures
        panels[k].edge.reserved(bounds, resolved(bounds, system_work, panels)) == 0,
{
    let edge = panels[k].edge;
    lemma_nothing_deeper(panels, edge, 0);
    assert(kept_free(bounds, system_work, panels, edge) == 0);
    lemma_kept_free(bounds, system_work, panels);
}

/// What no hidden bar explains stays reserved, however many bars hide at other edges or are too
/// small to be the reason.
pub proof fn unexplained_reservations_stay(
    bounds: Rect,
    system_work: Rect,
    panels: Seq<Panel>,
    edge: Edge,
)
    requires
        !is_released(panels, edge, edge.reserved(bounds, system_work)),
    ensures
        edge.reserved(bounds, resolved(bounds, system_work, panels)) >= edge.reserved(
            bounds,
            system_work,
        ),
{
    lemma_kept_free(bounds, system_work, panels);
    lemma_deepest_visible(panels, edge, edge.reserved(bounds, system_work));
}

/// Without bars the system has its way.
pub proof fn no_panels_change_nothing(bounds: Rect, system_work: Rect)
    ensures
        resolved(bounds, system_work, Seq::empty()) == system_work,
{
    assert(kept_free(bounds, system_work, Seq::empty(), Edge::Left) == system_work.left
        - bounds.left);
    assert(kept_free(bounds, system_work, Seq::empty(), Edge::Top) == system_work.top - bounds.top);
    assert(kept_free(bounds, system_work, Seq::empty(), Edge::Right) == bounds.right
        - system_work.right);
    assert(kept_free(bounds, system_work, Seq::empty(), Edge::Bottom) == bounds.bottom
        - system_work.bottom);
}

/// Whether a window is a bar along the top or the bottom of a monitor, or on its way there: it
/// spans at least half of the monitor, and it is flat.
pub open spec fn is_flat_panel(bounds: Rect, frame: Rect) -> bool {
    let overlap = int_min(bounds.right as int, frame.right as int) - int_max(
        bounds.left as int,
        frame.left as int,
    );
    overlap >= trunc_div(bounds.w(), 2) && frame.h() <= trunc_div(bounds.h(), 4) && frame.w()
        >= frame.h() * 4
}

/// Whether a window is a bar along the left or the right of a monitor.
pub open spec fn is_tall_panel(bounds: Rect, frame: Rect) -> bool {
    let overlap = int_min(bounds.bottom as int, frame.bottom as int) - int_max(
        bounds.top as int,
        frame.top as int,
    );
    overlap >= trunc_div(bounds.h(), 2) && frame.w() <= trunc_div(bounds.w(), 4) && frame.h()
        >= frame.w() * 4
}

/// The edge of a monitor that a window is a bar at.
pub open spec fn edge_of_panel(bounds: Rect, frame: Rect, margin: int) -> Option<Edge> {
    let top = int_abs(frame.top - bounds.top);
    let bottom = int_abs(frame.bottom - bounds.bottom);
    let left = int_abs(frame.left - bounds.left);
    let right = int_abs(frame.right - bounds.right);
    if frame.w() <= 0 || frame.h() <= 0 {
        None
    } else if is_flat_panel(bounds, frame) && int_min(top, bottom) <= margin {
        if top <= bottom {
            Some(Edge::Top)
        } else {
            Some(Edge::Bottom)
        }
    } else if is_tall_panel(bounds, frame) && int_min(left, right) <= margin {
        if left <= right {
            Some(Edge::Left)
        } else {
            Some(Edge::Right)
        }
    } else {
        None
    }
}

fn quarter(length: i64) -> (res: i64)
    requires
        length > i64::MIN,
    ensures
        res == trunc_div(length as int, 4),
{
    if length >= 0 {
        length / 4
    } else {
        -((-length) / 4)
    }
}

/// The edge of a monitor that a window is a bar at. The window must be elongated, span at least
/// half of the monitor and be close to the edge, so settings windows and widgets do not count.
pub fn panel_edge(bounds: &Rect, frame: &Rect, margin: i64) -> (res: Option<Edge>)
    ensures
        res == edge_of_panel(*bounds, *frame, margin as int),
{
    let width: i64 = frame.wide_width();
    let height: i64 = frame.wide_height();
    if width <= 0 || height <= 0 {
        return None;
    }
    let horizontal_overlap: i64 = min_i32(bounds.right, frame.right) as i64 - max_i32(
        bounds.left,
        frame.left,
    ) as i64;
    let vertical_overlap: i64 = min_i32(bounds.bottom, frame.bottom) as i64 - max_i32(
        bounds.top,
        frame.top,
    ) as i64;
    if horizontal_overlap >= half_i64(bounds.wide_width()) && height <= quarter(
        bounds.wide_height(),
    ) && width >= height * 4 {
        let top_distance: i64 = abs_i64(frame.top as i64 - bounds.top as i64);
        let bottom_distance: i64 = abs_i64(frame.bottom as i64 - bounds.bottom as i64);
        if min_i64(top_distance, bottom_distance) <= margin {
            return if top_distance <= bottom_distance {
                Some(Edge::Top)
            } else {
                Some(Edge::Bottom)
            };
        }
    }
    if vertical_overlap >= half_i64(bounds.wide_height()) && width <= quarter(
        bounds.wide_width(),
    ) && height >= width * 4 {
        let left_distance: i64 = abs_i64(frame.left as i64 - bounds.left as i64);
        let right_distance: i64 = abs_i64(frame.right as i64 - bounds.right as i64);
        if min_i64(left_distance, right_distance) <= margin {
            return if left_distance <= right_distance {
                Some(Edge::Left)
            } else {
                Some(Edge::Right)
            };
        }
    }
    None
}

/// What the system says of a window that may be a bar.
#[derive(Debug)]
pub struct BarCandidate {
    /// The frame with its shadows, if the window answered.
    pub frame: Option<Rect>,
    /// Whether the monitor is the nearest to the window.
    pub is_on_monitor: bool,
    pub class_name: Option<String>,
    pub process_name: Option<String>,
    pub is_visible: Option<bool>,
    pub is_minimized: Option<bool>,
}

/// The classes of the taskbars.
pub open spec fn is_taskbar_class(name: Seq<char>) -> bool {
    name == "Shell_TrayWnd"@ || name == "Shell_SecondaryTrayWnd"@
}

/// A letter without its case.
pub open spec fn lower(byte: u8) -> u8 {
    if 65 <= byte <= 90 {
        (byte + 32) as u8
    } else {
        byte
    }
}

/// Whether a name is that of the bar program, in upper or lower case.
pub open spec fn is_zebar(name: Seq<char>) -> bool {
    let bytes = vstd::utf8::encode_utf8(name);
    bytes.len() == 5 && lower(bytes[0]) == 122 && lower(bytes[1]) == 101 && lower(bytes[2]) == 98
        && lower(bytes[3]) == 97 && lower(bytes[4]) == 114
}

fn lower_byte(byte: u8) -> (res: u8)
    ensures
        res == lower(byte),
{
    if 65 <= byte && byte <= 90 {
        byte + 32
    } else {
        byte
    }
}

fn has_taskbar_class(class_name: &Option<String>) -> (res: bool)
    ensures
        res == (*class_name matches Some(name) && is_taskbar_class(name@)),
{
    match class_name {
        Some(name) => *name == "Shell_TrayWnd".to_owned() || *name
            == "Shell_SecondaryTrayWnd".to_owned(),
        None => false,
    }
}

fn is_zebar_process(process_name: &Option<String>) -> (res: bool)
    ensures
        res == (*process_name matches Some(name) && is_zebar(name@)),
{
    match process_name {
        Some(name) => {
            // z, e, b, a, r.
            let bytes = name.as_str().as_bytes();
            bytes.len() == 5 && lower_byte(bytes[0]) == 122 && lower_byte(bytes[1]) == 101
                && lower_byte(bytes[2]) == 98 && lower_byte(bytes[3]) == 97 && lower_byte(bytes[4])
                == 114
        },
        None => false,
    }
}

/// The bar that a window is: a taskbar, or a bar of the bar program. A bar that reaches in by no
/// more than two pixels is hidden, that much is the strip that brings it back. A hidden taskbar
/// counts with its whole depth.
pub open spec fn panel_of(bounds: Rect, window: BarCandidate, margin: int) -> Option<Panel> {
    match window.frame {
        None => None,
        Some(frame) => {
            let is_taskbar = window.class_name matches Some(name) && is_taskbar_class(name@);
            let is_bar = window.process_name matches Some(name) && is_zebar(name@);
            match edge_of_panel(bounds, frame, margin) {
                Some(edge) if window.is_on_monitor && (is_taskbar || is_bar) => {
                    let reach = edge.reach(bounds, frame);
                    let visible = reach > 2 && bounds.shared_area(frame) > 0 && window.is_visible
                        == Some(true) && window.is_minimized == Some(false);
                    let depth = if !visible && is_taskbar {
                        if edge == Edge::Top || edge == Edge::Bottom {
                            frame.h()
                        } else {
                            frame.w()
                        }
                    } else {
                        reach
                    };
                    if fits_i32(depth) {
                        Some(Panel { edge, depth: depth as i32, visible })
                    } else {
                        None
                    }
                },
                _ => None,
            }
        },
    }
}

/// Finds out which bar a window is, if any.
pub fn find_panel(bounds: &Rect, window: &BarCandidate, margin: i64) -> (res: Option<Panel>)
    ensures
        res == panel_of(*bounds, *window, margin as int),
{
    let frame = match window.frame {
        Some(frame) => frame,
        None => {
            return None;
        },
    };
    let edge = match panel_edge(bounds, &frame, margin) {
        Some(edge) => edge,
        None => {
            return None;
        },
    };
    if !window.is_on_monitor {
        return None;
    }
    let is_taskbar = has_taskbar_class(&window.class_name);
    if !is_taskbar && !is_zebar_process(&window.process_name) {
        return None;
    }
    let reach = edge.depth(bounds, &frame);
    let is_visible: bool = match window.is_visible {
        Some(is_visible) => is_visible,
        None => false,
    };
    let is_minimized: bool = match window.is_minimized {
        Some(is_minimized) => is_minimized,
        None => true,
    };
    let visible: bool = reach > 2 && bounds.intersection_area(&frame) > 0 && is_visible
        && !is_minimized;
    let depth: i64 = if !visible && is_taskbar {
        match edge {
            Edge::Top | Edge::Bottom => frame.wide_height(),
            Edge::Left | Edge::Right => frame.wide_width(),
        }
    } else {
        reach
    };
    match to_i32(depth) {
        Some(depth) => Some(Panel { edge, depth, visible }),
        None => None,
    }
}

/// The bars among some windows, in the same order.
pub open spec fn panels_of(bounds: Rect, windows: Seq<BarCandidate>, margin: int) -> Seq<Panel>
    decreases windows.len(),
{
    if windows.len() == 0 {
        Seq::empty()
    } else {
        let before = panels_of(bounds, windows.drop_last(), margin);
        match panel_of(bounds, windows.last(), margin) {
            Some(panel) => before.push(panel),
            None => before,
        }
    }
}

/// How far a bar may be from the edge of its monitor, 64 pixels at the usual resolution.
pub open spec fn edge_margin(dpi: int) -> int {
    (if dpi <= i32::MAX {
        dpi
    } else {
        96
    }) * 64 / 96
}

/// The free area of a monitor, with bars counted that do not register with the system.
pub fn working_area(
    bounds: &Rect,
    system_work: &Rect,
    dpi: u32,
    windows: &Vec<BarCandidate>,
) -> (res: Rect)
    ensures
        res == resolved(
            *bounds,
            *system_work,
            panels_of(*bounds, windows@, edge_margin(dpi as int)),
        ),
{
    let known: i64 = if dpi <= 2147483647 {
        dpi as i64
    } else {
        96
    };
    let margin: i64 = known * 64 / 96;
    let mut panels: Vec<Panel> = Vec::new();
    assert(windows@.take(0) =~= Seq::<BarCandidate>::empty());
    for i in 0..windows.len()
        invariant
            panels@ == panels_of(*bounds, windows@.take(i as int), margin as int),
    {
        assert(windows@.take(i + 1).drop_last() =~= windows@.take(i as int));
        if let Some(panel) = find_panel(bounds, &windows[i], margin) {
            panels.push(panel);
        }
    }
    assert(windows@.take(windows.len() as int) =~= windows@);
    resolve_working_area(bounds, system_work, &panels)
}

/// The area that is left free lies beside every visible bar: below a bar at the top, above one at
/// the bottom, and right or left of one at the left or right, unless nothing at all would be left.
pub proof fn free_area_is_beside_visible_bars(
    bounds: Rect,
    system_work: Rect,
    panels: Seq<Panel>,
    k: int,
)
    requires
        0 <= k < panels.len(),
        panels[k].visible,
        resolved(bounds, system_work, panels) != system_work,
    ensures
        ({
            let free = resolved(bounds, system_work, panels);
            let depth = panels[k].depth;
            &&& panels[k].edge == Edge::Top ==> free.top >= bounds.top + depth
            &&& panels[k].edge == Edge::Bottom ==> free.bottom <= bounds.bottom - depth
            &&& panels[k].edge == Edge::Left ==> free.left >= bounds.left + depth
            &&& panels[k].edge == Edge::Right ==> free.right <= bounds.right - depth
        }),
{
    visible_panels_have_room(bounds, system_work, panels, k);
}

proof fn lemma_deepest_is_one(panels: Seq<Panel>, edge: Edge, least: int)
    ensures
        deepest_visible(panels, edge, least) == least || exists|k: int|
            0 <= k < panels.len() && (#[trigger] panels[k]).visible && panels[k].edge == edge
                && panels[k].depth == deepest_visible(panels, edge, least),
    decreases panels.len(),
{
    if panels.len() > 0 {
        let front = panels.drop_last();
        lemma_deepest_is_one(front, edge, least);
        let before = deepest_visible(front, edge, least);
        if before != least && deepest_visible(panels, edge, least) == before {
            let k = choose|k: int|
                0 <= k < front.len() && (#[trigger] front[k]).visible && front[k].edge == edge
                    && front[k].depth == before;
            assert(panels[k] == front[k]);
        }
        assert(panels[panels.len() - 1] == panels.last());
    }
}

/// No more is kept free at an edge than what is needed: what the system reserves there, or what one
/// of the visible bars at that edge takes, or nothing.
pub proof fn no_more_is_kept_free_than_needed(bounds: Rect, system_work: Rect, panels: Seq<Panel>)
    requires
        resolved(bounds, system_work, panels) != system_work,
    ensures
        ({
            let free = resolved(bounds, system_work, panels);
            &&& free.top == bounds.top || free.top == system_work.top || exists|k: int|
                0 <= k < panels.len() && (#[trigger] panels[k]).visible && panels[k].edge
                    == Edge::Top && free.top == bounds.top + panels[k].depth
            &&& free.bottom == bounds.bottom || free.bottom == system_work.bottom || exists|k: int|
                0 <= k < panels.len() && (#[trigger] panels[k]).visible && panels[k].edge
                    == Edge::Bottom && free.bottom == bounds.bottom - panels[k].depth
            &&& free.left == bounds.left || free.left == system_work.left || exists|k: int|
                0 <= k < panels.len() && (#[trigger] panels[k]).visible && panels[k].edge
                    == Edge::Left && free.left == bounds.left + panels[k].depth
            &&& free.right == bounds.right || free.right == system_work.right || exists|k: int|
                0 <= k < panels.len() && (#[trigger] panels[k]).visible && panels[k].edge
                    == Edge::Right && free.right == bounds.right - panels[k].depth
        }),
{
    lemma_kept_free(bounds, system_work, panels);
    let edges = seq![Edge::Left, Edge::Top, Edge::Right, Edge::Bottom];
    assert forall|i: int| 0 <= i < 4 implies {
        let edge = #[trigger] edges[i];
        let kept = kept_free(bounds, system_work, panels, edge);
        kept == 0 || kept == edge.reserved(bounds, system_work) || exists|k: int|
            0 <= k < panels.len() && (#[trigger] panels[k]).visible && panels[k].edge == edge
                && panels[k].depth == kept
    } by {
        let edge = edges[i];
        let reserved = edge.reserved(bounds, system_work);
        lemma_deepest_is_one(
            panels,
            edge,
            if is_released(panels, edge, reserved) {
                0
            } else {
                reserved
            },
        );
    }
    assert(edges[0] == Edge::Left && edges[1] == Edge::Top && edges[2] == Edge::Right && edges[3]
        == Edge::Bottom);
}

/// A window is a bar at the edge that it is closest to, within the margin: a wide, flat window at
/// the top or bottom, a tall, narrow one at the left or right.
pub proof fn bars_stand_at_the_closest_edge(bounds: Rect, frame: Rect, margin: int)
    ensures
        edge_of_panel(bounds, frame, margin) matches Some(edge) ==> {
            let top = int_abs(frame.top - bounds.top);
            let bottom = int_abs(frame.bottom - bounds.bottom);
            let left = int_abs(frame.left - bounds.left);
            let right = int_abs(frame.right - bounds.right);
            &&& frame.w() > 0 && frame.h() > 0
            &&& edge == Edge::Top ==> top <= bottom && top <= margin && frame.w() >= 4 * frame.h()
            &&& edge == Edge::Bottom ==> bottom < top && bottom <= margin && frame.w() >= 4
                * frame.h()
            &&& edge == Edge::Left ==> left <= right && left <= margin && frame.h() >= 4 * frame.w()
            &&& edge == Edge::Right ==> right < left && right <= margin && frame.h() >= 4
                * frame.w()
        },
        frame.left <= bounds.left && bounds.right <= frame.right && frame.w() > 0 && frame.h() > 0
            && bounds.w() >= 0 && 4 * frame.h() <= bounds.h() && 4 * frame.h() <= frame.w() ==> {
            &&& int_abs(frame.top - bounds.top) <= margin && int_abs(frame.top - bounds.top)
                <= int_abs(frame.bottom - bounds.bottom) ==> edge_of_panel(bounds, frame, margin)
                == Some(Edge::Top)
            &&& int_abs(frame.bottom - bounds.bottom) <= margin && int_abs(
                frame.bottom - bounds.bottom,
            ) < int_abs(frame.top - bounds.top) ==> edge_of_panel(bounds, frame, margin) == Some(
                Edge::Bottom,
            )
        },
        frame.top <= bounds.top && bounds.bottom <= frame.bottom && frame.w() > 0 && frame.h() > 0
            && bounds.h() >= 0 && 4 * frame.w() <= bounds.w() && 4 * frame.w() <= frame.h() ==> {
            &&& int_abs(frame.left - bounds.left) <= margin && int_abs(frame.left - bounds.left)
                <= int_abs(frame.right - bounds.right) ==> edge_of_panel(bounds, frame, margin)
                == Some(Edge::Left)
            &&& int_abs(frame.right - bounds.right) <= margin && int_abs(
                frame.right - bounds.right,
            ) < int_abs(frame.left - bounds.left) ==> edge_of_panel(bounds, frame, margin) == Some(
                Edge::Right,
            )
        },
{
}

/// A visible bar is not covered: the free area ends where its frame begins, or before.
pub proof fn visible_bars_are_not_covered(
    bounds: Rect,
    system_work: Rect,
    panels: Seq<Panel>,
    k: int,
    window: BarCandidate,
    frame: Rect,
    margin: int,
)
    requires
        window.frame == Some(frame),
        panel_of(bounds, window, margin) matches Some(panel) && panel.visible && 0 <= k
            < panels.len() && panels[k] == panel,
        resolved(bounds, system_work, panels) != system_work,
    ensures
        ({
            let free = resolved(bounds, system_work, panels);
            let edge = panels[k].edge;
            &&& edge_of_panel(bounds, frame, margin) == Some(edge)
            &&& edge == Edge::Top ==> free.top >= frame.bottom
            &&& edge == Edge::Bottom ==> free.bottom <= frame.top
            &&& edge == Edge::Left ==> free.left >= frame.right
            &&& edge == Edge::Right ==> free.right <= frame.left
            &&& window.is_visible == Some(true) && window.is_minimized == Some(false)
            &&& window.is_on_monitor
        }),
{
    free_area_is_beside_visible_bars(bounds, system_work, panels, k);
}

/// A taskbar that is hidden still tells how deep it is, so that what the system reserves for it can
/// be told from other reservations.
pub proof fn hidden_taskbars_keep_their_depth(
    bounds: Rect,
    window: BarCandidate,
    frame: Rect,
    margin: int,
)
    requires
        window.frame == Some(frame),
        window.class_name matches Some(name) && (name@ == "Shell_TrayWnd"@ || name@
            == "Shell_SecondaryTrayWnd"@),
    ensures
        panel_of(bounds, window, margin) matches Some(panel) ==> {
            &&& window.is_visible != Some(true) || window.is_minimized != Some(false)
                ==> !panel.visible
            &&& !panel.visible && (panel.edge == Edge::Top || panel.edge == Edge::Bottom)
                ==> panel.depth == frame.h()
            &&& !panel.visible && (panel.edge == Edge::Left || panel.edge == Edge::Right)
                ==> panel.depth == frame.w()
        },
{
}

} // verus!
