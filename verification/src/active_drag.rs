//! What is known of a drag while it lasts.

use vstd::prelude::*;

use crate::geometry::Rect;

verus! {

#[derive(Debug, Clone, Copy, PartialEq, Eq)]
pub struct ActiveDrag {
    /// Whether the drag is a move or a resize.
    pub operation: Option<ActiveDragOperation>,
    /// Whether the drag is from a floating window, which is not to be dropped as
    /// a tiling window when the drag ends.
    pub is_from_floating: bool,
    /// The position when the drag started, for the distance moved since.
    pub initial_position: Rect,
    /// The edges selected at the beginning of a resize, before layout
    /// corrections.
    pub resize_edges: Option<ResizeEdges>,
    /// The cursor when the drag started.
    pub initial_cursor_position: Option<(i32, i32)>,
}

/// Four independent edges; corners combine one edge on each axis.
#[derive(Debug, Clone, Copy, PartialEq, Eq, Structural)]
pub struct ResizeEdges {
    pub left: bool,
    pub top: bool,
    pub right: bool,
    pub bottom: bool,
}

#[derive(Debug, Clone, Copy, PartialEq, Eq, Structural)]
pub enum ActiveDragOperation {
    Move,
    Resize,
}

} // verus!
