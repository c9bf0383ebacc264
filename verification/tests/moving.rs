use glazewm::errors::WmError;
use glazewm::floating_move::{
    move_floating_window, new_floating_position, snap_to_monitor_edge, FloatingContext,
    NearbyMonitor,
};
use glazewm::geometry::{Direction, Rect, TilingDirection};
use glazewm::layout::{new_node_data, new_window_props, Layout};
use glazewm::move_command::{
    move_tiling_window, move_window_in_direction, normalize_workspace_splits, MonitorTarget,
    MoveContext,
};
use glazewm::shares::WHOLE;
use glazewm::tree::{ContainerKind, FloatingStateConfig, Gaps, WindowState};
use glazewm::wm_state::WmState;

fn monitor(layout: &mut Layout, x: i32) -> usize {
    let mut data = new_node_data(ContainerKind::Monitor);
    data.rect = Rect::from_xy(x, 0, 1680, 1050);
    let id = layout.add_container(data);
    let index = layout.child_count(0);
    layout.attach_container(id, 0, index);
    id
}

fn workspace(layout: &mut Layout, monitor: usize, direction: TilingDirection) -> usize {
    let mut data = new_node_data(ContainerKind::Workspace);
    let bounds = layout.data(monitor).rect;
    data.rect = Rect::from_xy(bounds.left, 0, 1680, 1000);
    data.tiling_direction = direction;
    let id = layout.add_container(data);
    layout.attach_container(id, monitor, 0);
    id
}

fn join(layout: &mut Layout, id: usize, parent: usize) {
    let index = layout.child_count(parent);
    layout.attach_container(id, parent, index);
}

fn window(layout: &mut Layout, parent: usize) -> usize {
    let id = layout.add_container(new_node_data(ContainerKind::TilingWindow));
    join(layout, id, parent);
    id
}

fn split(layout: &mut Layout, parent: usize, direction: TilingDirection) -> usize {
    let mut data = new_node_data(ContainerKind::Split);
    data.tiling_direction = direction;
    let id = layout.add_container(data);
    join(layout, id, parent);
    id
}

fn rect(layout: &Layout, id: usize) -> Rect {
    layout.to_rect(id).unwrap()
}

fn context() -> MoveContext {
    MoveContext {
        gaps: Gaps { x: 0, y: 0 },
        target: None,
        focus_target: None,
        floating: FloatingContext {
            working_area: Rect::from_xy(0, 0, 1680, 1000),
            next_monitor: None,
        },
    }
}

fn setup(direction: TilingDirection) -> (WmState, usize) {
    let mut state = WmState::new();
    let screen = monitor(&mut state.layout, 0);
    let parent = workspace(&mut state.layout, screen, direction);
    (state, parent)
}

fn step(state: &mut WmState, window: usize, direction: Direction) {
    move_tiling_window(window, &direction, state, &context()).unwrap();
}

fn move_from_nested_split(first: Direction, last: Direction) -> Rect {
    let (mut state, parent) = setup(TilingDirection::from_direction(last));
    let after = matches!(last, Direction::Right | Direction::Down);
    if after {
        window(&mut state.layout, parent);
    }
    let inner = split(&mut state.layout, parent, TilingDirection::from_direction(first));
    let moving = window(&mut state.layout, inner);
    window(&mut state.layout, inner);
    if !after {
        window(&mut state.layout, parent);
    }
    step(&mut state, moving, first);
    step(&mut state, moving, last);
    rect(&state.layout, moving)
}

#[test]
fn placement_size_is_independent_of_previous_move_direction() {
    for (first, opposite, last) in [
        (Direction::Up, Direction::Down, Direction::Left),
        (Direction::Up, Direction::Down, Direction::Right),
        (Direction::Left, Direction::Right, Direction::Up),
        (Direction::Left, Direction::Right, Direction::Down),
    ] {
        let from_first = move_from_nested_split(first, last);
        let from_opposite = move_from_nested_split(opposite, last);
        assert_eq!(from_first, from_opposite);
    }
}

fn close(layout: &Layout, id: usize, share: f64) -> bool {
    (layout.tiling_size(id) as f64 / WHOLE as f64 - share).abs() < 0.00001
}

#[test]
fn two_vertical_presses_reach_full_workspace_width() {
    for direction in [Direction::Up, Direction::Down] {
        for count in [3, 4, 8, 16] {
            for index in 0..count {
                let (mut state, parent) = setup(TilingDirection::Horizontal);
                let windows =
                    (0..count).map(|_| window(&mut state.layout, parent)).collect::<Vec<_>>();
                let moving = windows[index];
                state.layout.set_focused_descendant(moving);
                step(&mut state, moving, direction);
                let own = state.layout.parent(moving).unwrap();
                assert_eq!(state.layout.kind(own), ContainerKind::Split);
                assert!(close(&state.layout, moving, 0.5));
                step(&mut state, moving, direction);
                assert_eq!(state.layout.parent(moving), Some(parent));
                assert_eq!(
                    rect(&state.layout, moving).width(),
                    rect(&state.layout, parent).width()
                );
                assert!(state.layout.has_focus(moving));
                assert!(!state.pending_sync.animations_suppressed());
            }
        }
    }
}

#[test]
fn repeated_split_return_preserves_equal_and_unequal_sizes() {
    for vertical in [Direction::Up, Direction::Down] {
        for horizontal in [Direction::Left, Direction::Right] {
            for (count, unequal) in
                [3, 4, 8, 16].into_iter().flat_map(|n| [(n, false), (n, true)])
            {
                let (mut state, parent) = setup(TilingDirection::Horizontal);
                let windows =
                    (0..count).map(|_| window(&mut state.layout, parent)).collect::<Vec<_>>();
                let moving =
                    windows[if horizontal == Direction::Left { 0 } else { count - 1 }];
                if unequal {
                    for (i, &id) in windows.iter().enumerate() {
                        let share = 0.5 / count as f32
                            + i as f32 / (count * (count - 1)) as f32;
                        state.layout.set_tiling_size(
                            id,
                            (f64::from(share) * WHOLE as f64).round() as i64,
                        );
                    }
                }
                let before =
                    windows.iter().map(|&id| rect(&state.layout, id)).collect::<Vec<_>>();
                for _ in 0..20 {
                    step(&mut state, moving, vertical);
                    step(&mut state, moving, horizontal);
                    normalize_workspace_splits(&mut state.layout, moving).unwrap();
                    assert_eq!(state.layout.child_count(parent), count);
                    for (&id, rect_before) in windows.iter().zip(&before) {
                        let after = rect(&state.layout, id);
                        assert!((after.width() - rect_before.width()).abs() <= 1);
                        assert_eq!(after.height(), rect_before.height());
                    }
                }
            }
        }
    }
}

#[test]
fn return_preserves_an_existing_neighbor_column() {
    for direction in [Direction::Up, Direction::Down] {
        let (mut state, parent) = setup(TilingDirection::Horizontal);
        let other = window(&mut state.layout, parent);
        let column = split(&mut state.layout, parent, TilingDirection::Vertical);
        let a = window(&mut state.layout, column);
        let b = window(&mut state.layout, column);
        let moving = window(&mut state.layout, parent);
        for _ in 0..20 {
            step(&mut state, moving, direction);
            step(&mut state, moving, Direction::Right);
            normalize_workspace_splits(&mut state.layout, moving).unwrap();
            assert_eq!(state.layout.child_count(parent), 3);
            assert_eq!(state.layout.parent(a), state.layout.parent(b));
            let own = state.layout.parent(a).unwrap();
            assert_eq!(state.layout.tiling_direction(own), TilingDirection::Vertical);
            assert!(close(&state.layout, moving, 1.0 / 3.0));
            assert!(close(&state.layout, other, 1.0 / 3.0));
        }
    }
}

#[test]
fn horizontal_arrows_do_not_insert_into_vertical_column() {
    let (mut state, parent) = setup(TilingDirection::Horizontal);
    let moving = window(&mut state.layout, parent);
    let column = split(&mut state.layout, parent, TilingDirection::Vertical);
    window(&mut state.layout, column);
    window(&mut state.layout, column);
    let before = rect(&state.layout, moving);
    for _ in 0..20 {
        step(&mut state, moving, Direction::Right);
        assert_eq!(state.layout.parent(moving), Some(parent));
        assert_eq!(state.layout.child_count(column), 2);
        assert_eq!(rect(&state.layout, moving).height(), before.height());
        step(&mut state, moving, Direction::Left);
        assert_eq!(rect(&state.layout, moving), before);
    }
}

#[test]
fn nested_row_reaches_workspace_edge_in_two_moves() {
    for direction in [Direction::Up, Direction::Down] {
        let (mut state, parent) = setup(TilingDirection::Horizontal);
        let column = split(&mut state.layout, parent, TilingDirection::Vertical);
        let row = split(&mut state.layout, column, TilingDirection::Horizontal);
        let moving = window(&mut state.layout, row);
        window(&mut state.layout, row);
        window(&mut state.layout, column);
        window(&mut state.layout, parent);
        for _ in 0..2 {
            step(&mut state, moving, direction);
        }
        assert_eq!(state.layout.parent(moving), Some(parent));
        assert_eq!(rect(&state.layout, moving).width(), rect(&state.layout, parent).width());
    }
}

#[test]
fn neighbors_swap_places() {
    let (mut state, parent) = setup(TilingDirection::Horizontal);
    let a = window(&mut state.layout, parent);
    let b = window(&mut state.layout, parent);
    step(&mut state, a, Direction::Right);
    assert_eq!(state.layout.children(parent), vec![b, a]);
    assert!(state.pending_sync.is_queued_for_redraw(a));
    assert!(state.pending_sync.is_queued_for_redraw(b));
    step(&mut state, a, Direction::Left);
    assert_eq!(state.layout.children(parent), vec![a, b]);
    assert_eq!(state.layout.tiling_size(a), WHOLE / 2);
}

#[test]
fn a_window_at_the_edge_goes_to_the_next_monitor() {
    let (mut state, parent) = setup(TilingDirection::Horizontal);
    let a = window(&mut state.layout, parent);
    let b = window(&mut state.layout, parent);
    let second = monitor(&mut state.layout, 1680);
    let target = workspace(&mut state.layout, second, TilingDirection::Horizontal);
    let inputs = MoveContext {
        target: Some(MonitorTarget { workspace: target, has_dpi_difference: true }),
        focus_target: Some(a),
        ..context()
    };
    move_tiling_window(b, &Direction::Right, &mut state, &inputs).unwrap();
    assert_eq!(state.layout.workspace(b), Some(target));
    assert_eq!(state.layout.children(parent), vec![a]);
    assert!(state.layout.window(b).has_pending_dpi_adjustment);
    assert_eq!(state.layout.tiling_size(a), WHOLE);
    assert_eq!(state.layout.tiling_size(b), WHOLE);
    assert_eq!(rect(&state.layout, b), rect(&state.layout, target));
    // Without a monitor there, nothing happens.
    move_tiling_window(a, &Direction::Left, &mut state, &context()).unwrap();
    assert_eq!(state.layout.workspace(a), Some(parent));
}

#[test]
fn what_is_not_in_the_tree_does_not_move() {
    let (mut state, _) = setup(TilingDirection::Horizontal);
    let lone = state.layout.add_container(new_node_data(ContainerKind::TilingWindow));
    assert_eq!(
        move_tiling_window(lone, &Direction::Right, &mut state, &context()),
        Err(WmError::NoWorkspace)
    );
    assert_eq!(normalize_workspace_splits(&mut state.layout, lone), Err(WmError::NoWorkspace));
}

fn floating_window(state: &mut WmState, parent: usize, place: Rect) -> usize {
    let floating = FloatingStateConfig { centered: true, shown_on_top: false };
    let mut data = new_node_data(ContainerKind::NonTilingWindow);
    data.window = new_window_props(WindowState::Floating(floating));
    data.window.floating_placement = place;
    data.window.frame = place;
    let id = state.layout.add_container(data);
    join(&mut state.layout, id, parent);
    id
}

#[test]
fn a_floating_window_moves_in_steps_and_snaps() {
    let area = Rect::from_xy(0, 0, 1000, 1000);
    let inputs = FloatingContext { working_area: area, next_monitor: None };
    let (mut state, parent) = setup(TilingDirection::Horizontal);
    let id = floating_window(&mut state, parent, Rect::from_xy(500, 500, 200, 100));
    let sync = &mut state.pending_sync;
    move_floating_window(&mut state.layout, sync, id, Direction::Left, &inputs).unwrap();
    let moved = rect(&state.layout, id);
    // A fifth of the area wide, so a quarter of the free width.
    assert_eq!(moved, Rect::from_xy(300, 500, 200, 100));
    assert!(state.pending_sync.is_queued_for_redraw(id));
    for edge in [Direction::Left, Direction::Right, Direction::Up, Direction::Down] {
        let snapped = snap_to_monitor_edge(&moved, &area, edge).unwrap();
        let touches = match edge {
            Direction::Left => snapped.left == area.left,
            Direction::Right => snapped.right == area.right,
            Direction::Up => snapped.top == area.top,
            Direction::Down => snapped.bottom == area.bottom,
        };
        assert!(touches);
        assert_eq!((snapped.width(), snapped.height()), (200, 100));
    }
}

#[test]
fn a_floating_window_at_the_edge_goes_to_the_next_monitor() {
    let area = Rect::from_xy(0, 0, 1000, 1000);
    let next = Rect::from_xy(1000, 0, 800, 800);
    let at_edge = Rect::from_xy(800, 500, 200, 100);
    let alone = FloatingContext { working_area: area, next_monitor: None };
    let joined = FloatingContext {
        working_area: area,
        next_monitor: Some(NearbyMonitor { working_area: next, has_dpi_difference: true }),
    };
    assert_eq!(new_floating_position(&at_edge, Direction::Right, &alone), Ok(None));
    let (place, has_dpi_difference) =
        new_floating_position(&at_edge, Direction::Right, &joined).unwrap().unwrap();
    assert_eq!(place, Rect::from_xy(1000, 500, 200, 100));
    assert!(has_dpi_difference);
    // Close to the edge it snaps, and what sticks out on the other side is brought in.
    let close = Rect::from_xy(590, 500, 200, 100);
    let snapped = Some((Rect::from_xy(800, 500, 200, 100), false));
    assert_eq!(new_floating_position(&close, Direction::Right, &alone), Ok(snapped));
    let outside = Rect::from_xy(-50, 500, 200, 100);
    let inside = Some((Rect::from_xy(0, 500, 200, 100), false));
    assert_eq!(new_floating_position(&outside, Direction::Right, &alone), Ok(inside));
}

#[test]
fn only_tiles_and_floating_windows_move() {
    let (mut state, parent) = setup(TilingDirection::Horizontal);
    let a = window(&mut state.layout, parent);
    let b = window(&mut state.layout, parent);
    let place = Rect::from_xy(500, 500, 200, 100);
    let floating = floating_window(&mut state, parent, place);
    move_window_in_direction(a, &Direction::Right, &mut state, &context()).unwrap();
    assert_eq!(state.layout.tiling_children(parent), vec![b, a]);
    move_window_in_direction(floating, &Direction::Up, &mut state, &context()).unwrap();
    assert_eq!(rect(&state.layout, floating).top, 500 - 900 / 5);
    let mut props = state.layout.window(floating);
    props.state = WindowState::Minimized;
    props.floating_placement = place;
    state.layout.set_window(floating, props);
    move_window_in_direction(floating, &Direction::Up, &mut state, &context()).unwrap();
    assert_eq!(rect(&state.layout, floating), place);
}

#[test]
fn a_window_inside_the_row_goes_back_too() {
    for vertical in [Direction::Up, Direction::Down] {
        let (mut state, parent) = setup(TilingDirection::Horizontal);
        let windows = (0..5).map(|_| window(&mut state.layout, parent)).collect::<Vec<_>>();
        let shares = |state: &WmState| {
            windows.iter().map(|&id| state.layout.tiling_size(id)).collect::<Vec<_>>()
        };
        let before = shares(&state);
        for trips in 1..=10 {
            step(&mut state, windows[2], vertical);
            step(&mut state, windows[2], Direction::Left);
            normalize_workspace_splits(&mut state.layout, windows[2]).unwrap();
            assert_eq!(state.layout.children(parent), windows);
            let after = shares(&state);
            assert!(before[2] - trips <= after[2] && after[2] <= before[2]);
            assert_eq!(after[2] + after[3], before[2] + before[3]);
            for other in [0, 1, 4] {
                assert_eq!(after[other], before[other]);
            }
        }
    }
}
