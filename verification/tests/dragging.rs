use glazewm::active_drag::{ActiveDrag, ActiveDragOperation};
use glazewm::drag_end::{
    end_drag, end_drag_fullscreen, handle_window_moved_or_resized_end, DragEndAction,
    DragEndInputs, NearestMonitor,
};
use glazewm::drag_placement::{
    contains_with_margin, drop_position, drop_workspace, insertion_index, monitor_at_point,
    preview_tiling_drag_at, workspace_at_point, DropPosition,
};
use glazewm::errors::WmError;
use glazewm::geometry::{Point, Rect, TilingDirection};
use glazewm::layout::{new_node_data, Layout};
use glazewm::tiling_minimums::NativeMinimum;
use glazewm::tree::{ContainerKind, FullscreenStateConfig, Gaps};
use glazewm::window_size::WindowBehaviorConfig;
use glazewm::wm_state::WmState;

fn monitor(layout: &mut Layout, x: i32) -> usize {
    let mut data = new_node_data(ContainerKind::Monitor);
    data.rect = Rect::from_xy(x, 0, 1680, 1050);
    let id = layout.add_container(data);
    let index = layout.child_count(0);
    layout.attach_container(id, 0, index);
    id
}

fn workspace(layout: &mut Layout, monitor: usize, direction: TilingDirection) -> usize {
    let mut data = new_node_data(ContainerKind::Workspace);
    let bounds = layout.data(monitor).rect;
    data.rect = Rect::from_xy(bounds.left, 0, 1680, 1000);
    data.tiling_direction = direction;
    let id = layout.add_container(data);
    layout.attach_container(id, monitor, 0);
    id
}

fn join(layout: &mut Layout, id: usize, parent: usize) {
    let index = layout.child_count(parent);
    layout.attach_container(id, parent, index);
}

fn rect(layout: &Layout, id: usize) -> Rect {
    layout.to_rect(id).unwrap()
}

fn setup() -> (WmState, usize, Vec<usize>) {
    let mut state = WmState::new();
    let screen = monitor(&mut state.layout, 0);
    let parent = workspace(&mut state.layout, screen, TilingDirection::Horizontal);
    let windows = (0..3)
        .map(|_| {
            let id = state.layout.add_container(new_node_data(ContainerKind::TilingWindow));
            join(&mut state.layout, id, parent);
            id
        })
        .collect();
    (state, parent, windows)
}

fn preview(state: &mut WmState, window: usize, cursor: Point) {
    let gaps = Gaps { x: 0, y: 0 };
    preview_tiling_drag_at(&mut state.layout, &mut state.pending_sync, window, &cursor, gaps)
        .unwrap();
}

fn center(rect: &Rect) -> Point {
    rect.center_point()
}

fn drag(state: &mut WmState, window: usize, operation: ActiveDragOperation) {
    let mut props = state.layout.window(window);
    props.active_drag = Some(ActiveDrag {
        operation: Some(operation),
        is_from_floating: false,
        initial_position: props.frame,
        resize_edges: None,
        initial_cursor_position: None,
    });
    state.layout.set_window(window, props);
}

#[test]
fn live_drag_reorders_before_release_and_preserves_window_size() {
    let (mut state, parent, windows) = setup();
    let moved = windows[0];
    let original_frame = state.layout.window(moved).frame;
    drag(&mut state, moved, ActiveDragOperation::Move);
    let target = rect(&state.layout, windows[2]);
    let cursor = Point { x: target.right - 30, y: center(&target).y };
    preview(&mut state, moved, cursor);
    assert_eq!(state.layout.index(moved), 2);
    assert!(state.layout.window(moved).active_drag.is_some());
    assert_eq!(state.layout.window(moved).frame, original_frame);
    for _ in 0..20 {
        preview(&mut state, moved, cursor);
    }
    assert_eq!(state.layout.index(moved), 2);
    assert_eq!(state.layout.child_count(parent), 3);
    let target = rect(&state.layout, windows[1]);
    let cursor = Point { x: target.left + 30, y: center(&target).y };
    preview(&mut state, moved, cursor);
    assert_eq!(state.layout.index(moved), 0);
}

#[test]
fn live_drag_can_create_a_vertical_split_without_repeated_nesting() {
    let (mut state, _, windows) = setup();
    let moved = windows[0];
    let target = rect(&state.layout, windows[1]);
    let cursor = Point { x: center(&target).x, y: target.top + 30 };
    preview(&mut state, moved, cursor);
    let parent = state.layout.parent(moved).unwrap();
    assert_eq!(state.layout.kind(parent), ContainerKind::Split);
    assert_eq!(state.layout.child_count(parent), 2);
    for _ in 0..20 {
        preview(&mut state, moved, cursor);
    }
    assert_eq!(state.layout.parent(moved), Some(parent));
}

#[test]
fn boundary_jitter_does_not_change_the_slot() {
    let (mut state, _, windows) = setup();
    let moved = windows[0];
    let slot = rect(&state.layout, moved);
    for offset in -15..=15 {
        preview(&mut state, moved, Point { x: slot.right + offset, y: center(&slot).y });
        assert_eq!(state.layout.index(moved), 0);
    }
}

#[test]
fn live_drag_moves_to_an_empty_monitor_and_back() {
    let (mut state, original, windows) = setup();
    let second = monitor(&mut state.layout, 1680);
    let destination = workspace(&mut state.layout, second, TilingDirection::Horizontal);
    let moved = windows[0];
    preview(&mut state, moved, Point { x: 1900, y: 400 });
    assert_eq!(state.layout.workspace(moved), Some(destination));
    assert_eq!(state.layout.child_count(destination), 1);
    assert_eq!(state.layout.child_count(original), 2);
    let target = rect(&state.layout, windows[1]);
    preview(&mut state, moved, Point { x: target.left + 30, y: center(&target).y });
    assert_eq!(state.layout.workspace(moved), Some(original));
    assert_eq!(state.layout.child_count(original), 3);
    assert_eq!(state.layout.child_count(destination), 0);
}

#[test]
fn the_cursor_must_be_well_inside_another_slot() {
    let (mut state, _, windows) = setup();
    let moved = windows[0];
    let other = rect(&state.layout, windows[2]);
    // Between the second and the third tile no slot is entered by 16 pixels.
    for offset in -15..=15 {
        preview(&mut state, moved, Point { x: other.left + offset, y: center(&other).y });
        assert_eq!(state.layout.index(moved), 0);
    }
    preview(&mut state, moved, Point { x: other.left + 16, y: center(&other).y });
    assert_ne!(state.layout.index(moved), 0);
}

#[test]
fn nothing_happens_off_all_monitors() {
    let (mut state, _, windows) = setup();
    preview(&mut state, windows[0], Point { x: -500, y: -500 });
    assert_eq!(state.layout.index(windows[0]), 0);
    assert_eq!(monitor_at_point(&state.layout, &Point { x: -500, y: 0 }), None);
    assert_eq!(workspace_at_point(&state.layout, &Point { x: -500, y: 0 }), None);
    let lone = state.layout.add_container(new_node_data(ContainerKind::TilingWindow));
    assert_eq!(
        drop_workspace(&state.layout, lone, &Point { x: -500, y: 0 }),
        Err(WmError::NoWorkspace)
    );
    assert_eq!(
        drop_workspace(&state.layout, windows[0], &Point { x: -500, y: 0 }),
        Ok(state.layout.workspace(windows[0]).unwrap())
    );
}

#[test]
fn the_diagonals_divide_a_rectangle() {
    let area = Rect::from_xy(0, 0, 100, 100);
    assert_eq!(drop_position(&Point { x: 90, y: 50 }, &area), DropPosition::Right);
    assert_eq!(drop_position(&Point { x: 10, y: 50 }, &area), DropPosition::Left);
    assert_eq!(drop_position(&Point { x: 50, y: 10 }, &area), DropPosition::Top);
    assert_eq!(drop_position(&Point { x: 50, y: 90 }, &area), DropPosition::Bottom);
    assert!(contains_with_margin(&area, &Point { x: 116, y: 50 }, 16));
    assert!(!contains_with_margin(&area, &Point { x: 117, y: 50 }, 16));
    assert!(!contains_with_margin(&area, &Point { x: 15, y: 50 }, -16));
    assert_eq!(insertion_index(true, 1, 3), 2);
    assert_eq!(insertion_index(true, 3, 1), 1);
    assert_eq!(insertion_index(false, 1, 3), 3);
}

fn inputs() -> DragEndInputs {
    DragEndInputs {
        is_maximized: Some(false),
        nearest_monitor: Some(NearestMonitor {
            displayed_workspace: None,
            should_fullscreen: false,
        }),
        fullscreen_defaults: FullscreenStateConfig { maximized: false, shown_on_top: true },
    }
}

fn finish(state: &mut WmState, window: usize, inputs: &DragEndInputs) -> Result<DragEndAction, WmError> {
    let natives = (0..state.layout.len()).map(|_| NativeMinimum::Unsupported).collect();
    let behavior = WindowBehaviorConfig { resize_respects_minimum_size: true };
    handle_window_moved_or_resized_end(window, state, inputs, &behavior, &natives)
}

#[test]
fn a_drag_that_ends_is_forgotten() {
    let (mut state, _, windows) = setup();
    assert_eq!(finish(&mut state, windows[0], &inputs()), Ok(DragEndAction::Done));
    drag(&mut state, windows[0], ActiveDragOperation::Move);
    end_drag(windows[0], &mut state);
    assert!(state.layout.window(windows[0]).active_drag.is_none());
    drag(&mut state, windows[1], ActiveDragOperation::Move);
    end_drag_fullscreen(windows[1], true, &mut state);
    assert!(state.layout.window(windows[1]).active_drag.is_none());
}

#[test]
fn a_window_that_does_not_answer_ends_no_drag() {
    let (mut state, _, windows) = setup();
    drag(&mut state, windows[0], ActiveDragOperation::Move);
    let silent = DragEndInputs { is_maximized: None, ..inputs() };
    assert_eq!(finish(&mut state, windows[0], &silent), Err(WmError::NoAnswer));
}
