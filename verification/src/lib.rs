//! The layout engine of a tiling window manager.

pub mod active_drag;
pub mod allocation;
pub mod animation_state;
pub mod color;
pub mod drag_end;
pub mod drag_placement;
pub mod drop_laws;
pub mod edge_laws;
pub mod edge_resize;
pub mod errors;
pub mod floating_move;
pub mod frame_laws;
pub mod geometry;
pub mod keybinding;
pub mod layout;
pub mod layout_ops;
pub mod length_value;
pub mod limit_laws;
pub mod lists;
pub mod minimum_laws;
pub mod move_command;
pub mod outline;
pub mod outline_bitmap;
pub mod pending_sync;
pub mod placement;
pub mod resize_cursor_clip;
pub mod resize_laws;
pub mod route_laws;
pub mod safe_area;
pub mod shares;
pub mod size_laws;
pub mod split_ops;
pub mod stack_laws;
pub mod step_laws;
pub mod tiling_minimums;
pub mod traversal;
pub mod tree;
pub mod tree_laws;
pub mod trip_laws;
pub mod walk_laws;
pub mod whole_laws;
pub mod window_laws;
pub mod window_move;
pub mod window_size;
pub mod wm_state;
pub mod workspace_motion;
