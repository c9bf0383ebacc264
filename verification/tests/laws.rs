use glazewm::active_drag::{ActiveDrag, ActiveDragOperation, ResizeEdges};
use glazewm::drag_end::{
    end_drop, handle_window_moved_or_resized_end, DragEndAction, DragEndInputs, NearestMonitor,
};
use glazewm::drag_placement::place_tiling_window;
use glazewm::edge_resize::{edge_limits, extend_resize_edges, resize_edge, resize_tiling_window};
use glazewm::errors::WmError;
use glazewm::floating_move::{move_floating_window, FloatingContext};
use glazewm::geometry::{Direction, Point, Rect, TilingDirection};
use glazewm::layout::{new_node_data, new_window_props, Layout};
use glazewm::length_value::{LengthUnit, LengthValue};
use glazewm::move_command::{move_tiling_window, MonitorTarget, MoveContext};
use glazewm::shares::WHOLE;
use glazewm::tiling_minimums::{resize_tiling_container, resize_with_minimums, NativeMinimum};
use glazewm::tree::{ContainerKind, FloatingStateConfig, FullscreenStateConfig, Gaps, WindowState};
use glazewm::window_size::{set_window_size, WindowBehaviorConfig};
use glazewm::wm_state::WmState;

fn add(layout: &mut Layout, kind: ContainerKind, parent: usize, rect: Rect) -> usize {
    let mut data = new_node_data(kind);
    data.rect = rect;
    let id = layout.add_container(data);
    let index = layout.child_count(parent);
    layout.attach_container(id, parent, index);
    id
}

fn split(layout: &mut Layout, direction: TilingDirection) -> usize {
    let mut data = new_node_data(ContainerKind::Split);
    data.tiling_direction = direction;
    layout.add_container(data)
}

fn setup(count: usize) -> (WmState, usize, usize, Vec<usize>) {
    let mut state = WmState::new();
    let area = Rect::from_xy(0, 0, 1680, 1000);
    let screen = add(&mut state.layout, ContainerKind::Monitor, 0, area);
    let parent = add(&mut state.layout, ContainerKind::Workspace, screen, area);
    let windows = (0..count)
        .map(|_| add(&mut state.layout, ContainerKind::TilingWindow, parent, area))
        .collect();
    (state, screen, parent, windows)
}

fn floating(state: &mut WmState, parent: usize, place: Rect) -> usize {
    let config = FloatingStateConfig { centered: false, shown_on_top: false };
    let mut data = new_node_data(ContainerKind::NonTilingWindow);
    data.window = new_window_props(WindowState::Floating(config));
    data.window.floating_placement = place;
    data.window.frame = place;
    let id = state.layout.add_container(data);
    let index = state.layout.child_count(parent);
    state.layout.attach_container(id, parent, index);
    id
}

fn total(layout: &Layout, parent: usize) -> i64 {
    layout.tiling_children(parent).iter().map(|&id| layout.tiling_size(id)).sum()
}

fn silent(layout: &Layout) -> Vec<NativeMinimum> {
    (0..layout.len()).map(|_| NativeMinimum::Unsupported).collect()
}

fn context() -> MoveContext {
    MoveContext {
        gaps: Gaps { x: 0, y: 0 },
        target: None,
        focus_target: None,
        floating: FloatingContext {
            working_area: Rect::from_xy(0, 0, 1680, 1000),
            next_monitor: None,
        },
    }
}

#[test]
fn shares_make_up_a_whole_after_every_change() {
    let (mut state, _, parent, windows) = setup(5);
    let layout = &mut state.layout;
    assert_eq!(total(layout, parent), WHOLE);
    resize_tiling_container(layout, windows[1], Some(WHOLE / 3));
    assert_eq!(layout.tiling_size(windows[1]), WHOLE / 3);
    assert_eq!(total(layout, parent), WHOLE);
    layout.detach_container(windows[0]);
    assert_eq!(layout.child_count(parent), 4);
    assert_eq!(total(layout, parent), WHOLE);
    layout.attach_container(windows[0], parent, 2);
    assert_eq!(layout.children(parent)[2], windows[0]);
    assert_eq!(total(layout, parent), WHOLE);
    let column = split(layout, TilingDirection::Vertical);
    layout.wrap_in_split_container(column, parent, &vec![windows[1], windows[2]]);
    assert_eq!(layout.children(column), vec![windows[1], windows[2]]);
    assert_eq!((total(layout, parent), total(layout, column)), (WHOLE, WHOLE));
    layout.move_container_within_tree(windows[4], column, 0);
    assert_eq!(layout.parent(windows[4]), Some(column));
    assert_eq!((total(layout, parent), total(layout, column)), (WHOLE, WHOLE));
    let before = total(layout, parent);
    layout.flatten_split_container(column);
    assert_eq!(layout.child_count(parent), 5);
    assert!((total(layout, parent) - before).abs() <= 3);
}

#[test]
fn rounding_takes_no_pixels_away() {
    for count in [1, 2, 3, 5, 6, 7, 12] {
        let (state, _, _, windows) = setup(count);
        for &id in &windows {
            assert_eq!(state.layout.to_rect(id).unwrap().width(), 1680 / count as i32);
        }
    }
    let (mut state, _, _, windows) = setup(3);
    let behavior = WindowBehaviorConfig { resize_respects_minimum_size: false };
    for px in [100, 333, 555, 901] {
        let natives = silent(&state.layout);
        let width = Some(LengthValue::from_px(px));
        set_window_size(windows[1], width, None, &mut state, &behavior, &natives).unwrap();
        assert_eq!(state.layout.to_rect(windows[1]).unwrap().width(), px);
    }
    let twentieth = LengthValue { amount: (WHOLE + 10) / 20, unit: LengthUnit::Percentage };
    assert_eq!(twentieth.to_px(1680), 84);
    assert_eq!(twentieth.to_px(-1680), -84);
    assert_eq!(twentieth.to_px(1679), 83);
}

#[test]
fn walks_find_everything_once() {
    let (mut state, screen, parent, windows) = setup(3);
    let layout = &mut state.layout;
    let column = split(layout, TilingDirection::Vertical);
    layout.wrap_in_split_container(column, parent, &vec![windows[0], windows[1]]);
    assert_eq!(layout.ancestors(windows[0]), vec![column, parent, screen, 0]);
    assert_eq!(layout.workspace(windows[0]), Some(parent));
    assert_eq!(layout.monitor(windows[0]), Some(screen));
    let mut below = layout.descendants(parent);
    below.sort_unstable();
    let mut expected = vec![column, windows[0], windows[1], windows[2]];
    expected.sort_unstable();
    assert_eq!(below, expected);
    assert_eq!(layout.descendants(windows[0]), vec![]);
}

#[test]
fn dropping_a_window_changes_no_frame() {
    let (mut state, _, parent, windows) = setup(3);
    for (i, &id) in windows.iter().enumerate() {
        let mut props = state.layout.window(id);
        props.frame = Rect::from_xy(i as i32, 7, 100, 50);
        state.layout.set_window(id, props);
    }
    let gaps = Gaps { x: 0, y: 0 };
    let point = Point { x: 1400, y: 20 };
    let sync = &mut state.pending_sync;
    place_tiling_window(&mut state.layout, sync, windows[0], &point, parent, gaps).unwrap();
    assert_ne!(state.layout.parent(windows[0]), Some(parent));
    assert_eq!(state.layout.parent(windows[0]), state.layout.parent(windows[2]));
    for (i, &id) in windows.iter().enumerate() {
        assert_eq!(state.layout.window(id).frame, Rect::from_xy(i as i32, 7, 100, 50));
    }
    assert!(state.pending_sync.is_queued_for_redraw(parent));
    let lone = state.layout.add_container(new_node_data(ContainerKind::TilingWindow));
    let sync = &mut state.pending_sync;
    assert_eq!(
        place_tiling_window(&mut state.layout, sync, lone, &point, parent, gaps),
        Err(WmError::NoParent)
    );
}

#[test]
fn a_redraw_is_no_resize() {
    let (mut state, _, _, windows) = setup(2);
    let edges = ResizeEdges { left: false, top: false, right: true, bottom: false };
    let frame = state.layout.to_rect(windows[0]).unwrap();
    resize_tiling_window(windows[0], &frame, &edges, &mut state).unwrap();
    assert_eq!(state.pending_sync.containers_to_redraw(), vec![]);
    assert!(!state.pending_sync.animations_suppressed());
    assert_eq!(state.layout.tiling_size(windows[0]), WHOLE / 2);
    let wider = Rect::from_ltrb(frame.left, frame.top, frame.right + 84, frame.bottom);
    resize_tiling_window(windows[0], &wider, &edges, &mut state).unwrap();
    assert_eq!(state.layout.to_rect(windows[0]), Some(wider));
    assert!(state.pending_sync.animations_suppressed());
}

#[test]
fn a_selected_edge_stays_selected() {
    let current = Rect::from_xy(10, 10, 400, 300);
    let right = ResizeEdges { left: false, top: false, right: true, bottom: false };
    let moved_left = Rect::from_xy(0, 10, 410, 300);
    assert_eq!(extend_resize_edges(right, &moved_left, &current), right);
    let none = ResizeEdges { left: false, top: false, right: false, bottom: false };
    let left = ResizeEdges { left: true, top: false, right: false, bottom: false };
    assert_eq!(extend_resize_edges(none, &moved_left, &current), left);
    assert_eq!(extend_resize_edges(none, &Rect::from_xy(30, 10, 400, 300), &current), none);
}

#[test]
fn crossing_to_another_monitor_brings_the_cursor_along() {
    let (mut state, _, _, windows) = setup(1);
    let area = Rect::from_xy(1680, 0, 1680, 1000);
    let second = add(&mut state.layout, ContainerKind::Monitor, 0, area);
    let target = add(&mut state.layout, ContainerKind::Workspace, second, area);
    let inputs = MoveContext {
        target: Some(MonitorTarget { workspace: target, has_dpi_difference: false }),
        ..context()
    };
    move_tiling_window(windows[0], &Direction::Right, &mut state, &inputs).unwrap();
    assert_eq!(state.layout.workspace(windows[0]), Some(target));
    assert!(state.pending_sync.needs_cursor_jump());
    assert_eq!(state.pending_sync.workspaces_to_reorder(), vec![target]);
    assert!(!state.layout.window(windows[0]).has_pending_dpi_adjustment);
}

#[test]
fn a_workspace_may_be_on_no_monitor() {
    let mut state = WmState::new();
    let lone = state.layout.add_container(new_node_data(ContainerKind::Workspace));
    let id = floating(&mut state, lone, Rect::from_xy(0, 0, 100, 100));
    let sync = &mut state.pending_sync;
    let moved = move_floating_window(
        &mut state.layout,
        sync,
        id,
        Direction::Left,
        &context().floating,
    );
    assert_eq!(moved, Err(WmError::NoMonitor));
    let natives = silent(&state.layout);
    let behavior = WindowBehaviorConfig { resize_respects_minimum_size: false };
    let width = Some(LengthValue::from_px(200));
    assert_eq!(
        set_window_size(id, width, None, &mut state, &behavior, &natives),
        Err(WmError::NoMonitor)
    );
}

fn inputs(is_maximized: bool, should_fullscreen: bool) -> DragEndInputs {
    DragEndInputs {
        is_maximized: Some(is_maximized),
        nearest_monitor: Some(NearestMonitor { displayed_workspace: Some(2), should_fullscreen }),
        fullscreen_defaults: FullscreenStateConfig { maximized: false, shown_on_top: true },
    }
}

fn drag(state: &mut WmState, window: usize, is_from_floating: bool) {
    let mut props = state.layout.window(window);
    props.active_drag = Some(ActiveDrag {
        operation: Some(ActiveDragOperation::Resize),
        is_from_floating,
        initial_position: props.frame,
        resize_edges: None,
        initial_cursor_position: None,
    });
    state.layout.set_window(window, props);
}

fn finish(
    state: &mut WmState,
    window: usize,
    inputs: &DragEndInputs,
) -> Result<DragEndAction, WmError> {
    let natives = silent(&state.layout);
    let behavior = WindowBehaviorConfig { resize_respects_minimum_size: true };
    handle_window_moved_or_resized_end(window, state, inputs, &behavior, &natives)
}

#[test]
fn a_dragged_window_fills_the_screen_floats_or_becomes_a_tile() {
    let (mut state, _, parent, _) = setup(1);
    let id = floating(&mut state, parent, Rect::from_xy(100, 100, 300, 200));
    let full = FullscreenStateConfig { maximized: true, shown_on_top: true };
    drag(&mut state, id, false);
    assert_eq!(
        finish(&mut state, id, &inputs(true, false)),
        Ok(DragEndAction::EnterFullscreen(full))
    );
    assert!(state.layout.window(id).is_maximized);
    let filling = FullscreenStateConfig { maximized: false, ..full };
    assert_eq!(
        finish(&mut state, id, &inputs(false, true)),
        Ok(DragEndAction::EnterFullscreen(filling))
    );
    assert_eq!(finish(&mut state, id, &inputs(false, false)), Ok(DragEndAction::DropAsTile));
    drag(&mut state, id, true);
    assert_eq!(finish(&mut state, id, &inputs(false, false)), Ok(DragEndAction::FollowFloating));
    let nowhere = DragEndInputs { nearest_monitor: None, ..inputs(false, false) };
    assert_eq!(finish(&mut state, id, &nowhere), Err(WmError::NoMonitor));
    let mut bare = inputs(false, false);
    bare.nearest_monitor =
        Some(NearestMonitor { displayed_workspace: None, should_fullscreen: false });
    assert_eq!(finish(&mut state, id, &bare), Err(WmError::NoWorkspace));
}

#[test]
fn a_resized_tile_gets_the_size_of_its_frame() {
    let (mut state, _, _, windows) = setup(2);
    let mut props = state.layout.window(windows[0]);
    props.frame = Rect::from_xy(0, 0, 1260, 1000);
    state.layout.set_window(windows[0], props);
    drag(&mut state, windows[0], false);
    assert_eq!(finish(&mut state, windows[0], &inputs(false, false)), Ok(DragEndAction::Done));
    assert_eq!(state.layout.to_rect(windows[0]), Some(Rect::from_xy(0, 0, 1260, 1000)));
    assert_eq!(state.layout.to_rect(windows[1]), Some(Rect::from_xy(1260, 0, 420, 1000)));
    assert!(state.layout.window(windows[0]).active_drag.is_none());
    assert!(state.pending_sync.is_queued_for_redraw(windows[0]));
}

#[test]
fn a_drag_is_over_whether_or_not_the_window_could_be_dropped() {
    for outcome in [Ok(()), Err(WmError::NoWorkspace)] {
        let (mut state, _, parent, windows) = setup(1);
        let id = floating(&mut state, parent, Rect::from_xy(100, 100, 300, 200));
        drag(&mut state, id, true);
        drag(&mut state, windows[0], false);
        assert_eq!(end_drop(id, Some(windows[0]), outcome, &mut state), outcome);
        assert_eq!(state.layout.window(id).active_drag, None);
        assert_eq!(state.layout.window(windows[0]).active_drag, None);
        drag(&mut state, id, true);
        assert_eq!(end_drop(id, None, outcome, &mut state), outcome);
        assert_eq!(state.layout.window(id).active_drag, None);
    }
}

#[test]
fn an_edge_moves_with_the_pointer_up_to_its_limit() {
    let (mut state, _, _, windows) = setup(2);
    let before = state.layout.to_rect(windows[0]).unwrap();
    let limits = edge_limits(&state.layout, windows[0], true, false).unwrap();
    assert!(limits.0 <= -100 * i128::from(WHOLE) && 100 * i128::from(WHOLE) <= limits.1);
    assert!(resize_edge(&mut state.layout, windows[0], true, false, 100).unwrap().is_some());
    let after = state.layout.to_rect(windows[0]).unwrap();
    assert_eq!(after.left, before.left);
    assert!((99..=100).contains(&(after.right - before.right)));
    assert!(resize_edge(&mut state.layout, windows[0], true, false, 5000).unwrap().is_some());
    let widest = state.layout.to_rect(windows[0]).unwrap();
    // What lies beyond the limit has been taken already.
    assert_eq!(resize_edge(&mut state.layout, windows[0], true, false, 5000), Ok(None));
    assert_eq!(state.layout.to_rect(windows[0]), Some(widest));
}

#[test]
fn a_resize_leaves_all_tiles_their_minimums_and_keeps_the_whole() {
    for target in [0, WHOLE / 7, WHOLE] {
        let (mut state, _, parent, windows) = setup(3);
        for &id in &windows {
            let mut props = state.layout.window(id);
            props.minimum_tiling_size = Some((400, 100));
            state.layout.set_window(id, props);
        }
        assert_eq!(resize_with_minimums(&mut state.layout, windows[1], Some(target)), Ok(true));
        assert_eq!(total(&state.layout, parent), WHOLE);
        for &id in &windows {
            assert!(state.layout.to_rect(id).unwrap().width() >= 400);
        }
        assert_eq!(resize_with_minimums(&mut state.layout, windows[1], Some(target)), Ok(false));
    }
}
