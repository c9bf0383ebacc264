# glazewm

The layout engine of a tiling window manager, verified with Verus.

`src/` is the library. Monitors, workspaces, splits and windows are containers of one tree,
`Layout`, which goes by numbers; `tree.rs` holds the tree as a mathematical object, and the contract
of each operation says which tree comes out. Shares of a length, easing progress and positions are
fixed-point numbers, with 2^30 for a whole.

- `geometry`, `lists`, `shares`, `allocation`, `length_value`: plain values and their arithmetic.
- `tree`, `layout`, `layout_ops`, `split_ops`, `traversal`, `placement`: the tree, its operations,
  walks through it, and where its containers are on the screen.
- `tiling_minimums`, `edge_resize`, `resize_cursor_clip`, `window_size`: resizing.
- `window_move`, `move_command`, `floating_move`: moving with the keyboard.
- `active_drag`, `drag_placement`, `drag_end`: moving with the mouse.
- `pending_sync`, `wm_state`, `errors`: the state that commands work on.
- `keybinding`, `color`, `safe_area`, `outline`, `outline_bitmap`: keys, colors, bars and the
  outline around the focused window.
- `animation_state`, `workspace_motion`: animations.
- `tree_laws`, `window_laws`, `frame_laws`, `walk_laws`, `whole_laws`, `minimum_laws`, `resize_laws`,
  `limit_laws`, `stack_laws`, `trip_laws`, `route_laws`: what holds of all of this.

`app/` is the ordinary Rust around it: the windowing system, the clock, the keyboard hook, and
easing curves in floating point. `tests/` runs the library.
