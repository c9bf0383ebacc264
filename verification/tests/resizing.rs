use glazewm::active_drag::{ActiveDrag, ActiveDragOperation, ResizeEdges};
use glazewm::allocation::allocate_shares;
use glazewm::edge_resize::{
    cache_resize_minimums, edge_limits, extend_resize_edges, find_divider, resize_edge,
    resize_tiling_window,
};
use glazewm::errors::WmError;
use glazewm::geometry::{Rect, RectDelta, TilingDirection};
use glazewm::layout::{new_node_data, new_window_props, Layout};
use glazewm::length_value::{LengthUnit, LengthValue};
use glazewm::placement::available_tiling_length;
use glazewm::resize_cursor_clip::{
    constrain_resize_cursor, cursor_clip_action, ClipAction, ResizeCursorClip,
};
use glazewm::shares::{MIN_TILING_SIZE, WHOLE};
use glazewm::tiling_minimums::{
    minimum_length, plan_tiling_insertion, refresh_tiling_minimums, refresh_window_minimum,
    resize_tiling_container, resize_with_minimums, NativeMinimum, SUBPIXELS,
};
use glazewm::tree::{ContainerKind, FloatingStateConfig, WindowState};
use glazewm::window_size::{
    resize_window, set_tiling_window_length, set_window_size, WindowBehaviorConfig,
};
use glazewm::wm_state::{BindingModeConfig, WmState};

fn monitor(layout: &mut Layout, x: i32) -> usize {
    let mut data = new_node_data(ContainerKind::Monitor);
    data.rect = Rect::from_xy(x, 0, 1680, 1050);
    let id = layout.add_container(data);
    let index = layout.child_count(0);
    layout.attach_container(id, 0, index);
    id
}

fn workspace(layout: &mut Layout, monitor: usize, direction: TilingDirection) -> usize {
    let mut data = new_node_data(ContainerKind::Workspace);
    let bounds = layout.data(monitor).rect;
    data.rect = Rect::from_xy(bounds.left, 0, 1680, 1000);
    data.tiling_direction = direction;
    let id = layout.add_container(data);
    layout.attach_container(id, monitor, 0);
    id
}

fn join(layout: &mut Layout, id: usize, parent: usize) {
    let index = layout.child_count(parent);
    layout.attach_container(id, parent, index);
}

fn lone_window(layout: &mut Layout, width: i32, height: i32) -> usize {
    let mut data = new_node_data(ContainerKind::TilingWindow);
    data.window.minimum_tiling_size = Some((width, height));
    layout.add_container(data)
}

fn window(layout: &mut Layout, parent: usize, width: i32, height: i32) -> usize {
    let id = lone_window(layout, width, height);
    join(layout, id, parent);
    id
}

fn split(layout: &mut Layout, parent: usize, direction: TilingDirection) -> usize {
    let mut data = new_node_data(ContainerKind::Split);
    data.tiling_direction = direction;
    let id = layout.add_container(data);
    join(layout, id, parent);
    id
}

fn axis(horizontal: bool) -> TilingDirection {
    if horizontal {
        TilingDirection::Horizontal
    } else {
        TilingDirection::Vertical
    }
}

fn rect(layout: &Layout, id: usize) -> Rect {
    layout.to_rect(id).unwrap()
}

fn near(actual: i32, expected: i32) {
    assert!((actual - expected).abs() <= 1, "{actual} != {expected}");
}

fn length(rect: &Rect, horizontal: bool) -> i32 {
    if horizontal {
        rect.width()
    } else {
        rect.height()
    }
}

fn tiles(direction: TilingDirection, minimums: &[(i32, i32)]) -> (Layout, usize, Vec<usize>) {
    let mut layout = Layout::new();
    let screen = monitor(&mut layout, 0);
    let parent = workspace(&mut layout, screen, direction);
    let windows =
        minimums.iter().map(|&(w, h)| window(&mut layout, parent, w, h)).collect::<Vec<_>>();
    (layout, parent, windows)
}

#[test]
fn corner_drag_can_start_moving_its_second_axis_later() {
    let initial = Rect::from_xy(10, 10, 400, 300);
    let edges = ResizeEdges { left: false, top: false, right: true, bottom: false };
    let updated = extend_resize_edges(edges, &Rect::from_xy(10, 10, 450, 350), &initial);
    assert!(updated.right && updated.bottom);
    assert!(!updated.left && !updated.top);
}

#[test]
fn cursor_limits_match_layout_constraints_in_both_directions() {
    for horizontal in [true, false] {
        for leading in [true, false] {
            let (mut layout, _, ids) = tiles(axis(horizontal), &[(350, 200), (350, 200)]);
            let dragged = if leading { ids[1] } else { ids[0] };
            let (min, max) = edge_limits(&layout, dragged, horizontal, leading).unwrap();
            let before = rect(&layout, dragged);
            let pixel = WHOLE as f64;
            let requested = if leading {
                (min as f64 / pixel).ceil()
            } else {
                (max as f64 / pixel).floor()
            } as i32;
            resize_edge(&mut layout, dragged, horizontal, leading, requested.into()).unwrap();
            let after = rect(&layout, dragged);
            near(
                length(&after, horizontal) - length(&before, horizontal),
                if leading { -requested } else { requested },
            );
            let (_, remaining) = edge_limits(&layout, dragged, horizontal, leading).unwrap();
            if !leading {
                assert!(remaining as f64 / pixel <= 1.1);
            }
        }
    }
}

#[test]
fn right_edge_moves_all_following_tiles_without_moving_left_edge() {
    let (mut layout, _, ids) =
        tiles(TilingDirection::Horizontal, &[(100, 100), (100, 100), (100, 100)]);
    let before = ids.iter().map(|&id| rect(&layout, id)).collect::<Vec<_>>();
    resize_edge(&mut layout, ids[0], true, false, 120).unwrap();
    let after = ids.iter().map(|&id| rect(&layout, id)).collect::<Vec<_>>();
    assert_eq!(before[0].left, after[0].left);
    near(after[0].right, before[0].right + 120);
    assert!(after[1].width() < before[1].width());
    assert!(after[2].width() < before[2].width());
    near(after[2].right, before[2].right);
    assert!(after[0].right <= after[1].left && after[1].right <= after[2].left);
}

#[test]
fn left_and_top_edges_keep_the_opposite_edge_fixed() {
    for horizontal in [true, false] {
        let (mut layout, _, ids) = tiles(axis(horizontal), &[(100, 100), (100, 100)]);
        let before = rect(&layout, ids[1]);
        resize_edge(&mut layout, ids[1], horizontal, true, -100).unwrap();
        let after = rect(&layout, ids[1]);
        if horizontal {
            near(after.left, before.left - 100);
            near(after.right, before.right);
        } else {
            near(after.top, before.top - 100);
            near(after.bottom, before.bottom);
        }
    }
}

#[test]
fn clamps_at_neighbor_minimum_and_can_reverse_from_the_limit() {
    for horizontal in [true, false] {
        let (mut layout, _, ids) = tiles(axis(horizontal), &[(100, 100), (350, 250)]);
        let (a, b) = (ids[0], ids[1]);
        resize_edge(&mut layout, a, horizontal, false, 10000).unwrap();
        let at_limit = rect(&layout, b);
        assert!(length(&at_limit, horizontal) >= if horizontal { 350 } else { 250 });
        let size = layout.tiling_size(a);
        resize_edge(&mut layout, a, horizontal, false, 10000).unwrap();
        assert!(((layout.tiling_size(a) - size) as f64 / WHOLE as f64).abs() < 0.00001);
        resize_edge(&mut layout, a, horizontal, false, -100).unwrap();
        assert!(length(&rect(&layout, b), horizontal) > length(&at_limit, horizontal));
        assert_eq!(layout.tiling_size(a) + layout.tiling_size(b), WHOLE);
    }
}

#[test]
fn saturated_tiles_do_not_shrink_and_do_not_produce_nan_when_growing() {
    let (mut layout, _, ids) =
        tiles(TilingDirection::Horizontal, &[(100, 100), (10000, 10000), (10000, 10000)]);
    let a = ids[0];
    let original = layout.tiling_size(a);
    resize_edge(&mut layout, a, true, false, 200).unwrap();
    assert_eq!(layout.tiling_size(a), original);
    resize_edge(&mut layout, a, true, false, -100).unwrap();
    for &id in &ids {
        assert!((0..=WHOLE).contains(&layout.tiling_size(id)));
    }
    assert!(layout.tiling_size(a) < original);
    let total = ids.iter().map(|&id| layout.tiling_size(id)).sum::<i64>();
    assert!(((total - WHOLE) as f64 / WHOLE as f64).abs() < 0.00001);
}

#[test]
fn can_take_space_from_other_tiles_when_one_neighbor_is_at_minimum() {
    let (mut layout, _, ids) =
        tiles(TilingDirection::Horizontal, &[(100, 100), (10000, 10000), (100, 100)]);
    let b_size = layout.tiling_size(ids[1]);
    let before = rect(&layout, ids[0]);
    resize_edge(&mut layout, ids[0], true, false, 100).unwrap();
    near(rect(&layout, ids[0]).width(), before.width() + 100);
    assert_eq!(layout.tiling_size(ids[1]), b_size);
}

#[test]
fn outer_edges_and_single_window_cannot_resize_the_workspace() {
    let (mut layout, _, ids) = tiles(TilingDirection::Horizontal, &[(100, 100)]);
    let original = rect(&layout, ids[0]);
    for horizontal in [true, false] {
        for leading in [true, false] {
            assert!(resize_edge(&mut layout, ids[0], horizontal, leading, 100)
                .unwrap()
                .is_none());
            assert_eq!(rect(&layout, ids[0]), original);
        }
    }
}

#[test]
fn nested_ancestor_resize_updates_both_rows_and_preserves_descendant_minimums() {
    let (mut layout, parent, _) = tiles(TilingDirection::Horizontal, &[(100, 100)]);
    let column = split(&mut layout, parent, TilingDirection::Vertical);
    let b = window(&mut layout, column, 350, 100);
    let c = window(&mut layout, column, 100, 100);
    let right = rect(&layout, b).right;
    resize_edge(&mut layout, c, true, true, 10000).unwrap();
    assert!(rect(&layout, b).width() >= 350);
    assert_eq!(rect(&layout, b).width(), rect(&layout, c).width());
    near(rect(&layout, c).right, right);
}

#[test]
fn uneven_nested_split_keeps_each_child_above_its_minimum() {
    let (mut layout, parent, ids) = tiles(TilingDirection::Horizontal, &[(100, 100)]);
    let row = split(&mut layout, parent, TilingDirection::Horizontal);
    let b = window(&mut layout, row, 180, 100);
    let c = window(&mut layout, row, 100, 100);
    layout.set_tiling_size(b, WHOLE / 4);
    layout.set_tiling_size(c, WHOLE / 4 * 3);
    resize_edge(&mut layout, ids[0], true, false, 10000).unwrap();
    assert!(rect(&layout, b).width() >= 180);
    assert!(rect(&layout, c).width() >= 100);
    assert_eq!(layout.tiling_size(b), WHOLE / 4);
    assert_eq!(layout.tiling_size(c), WHOLE / 4 * 3);
}

#[test]
fn shrinking_with_minimum_siblings_keeps_finite_normalized_shares() {
    let (mut layout, _, ids) = tiles(TilingDirection::Horizontal, &[(1, 1), (1, 1)]);
    let (a, b) = (ids[0], ids[1]);
    layout.set_tiling_size(a, WHOLE - MIN_TILING_SIZE);
    layout.set_tiling_size(b, MIN_TILING_SIZE);
    resize_tiling_container(&mut layout, a, Some(WHOLE / 2));
    assert_eq!(layout.tiling_size(a), WHOLE / 2);
    assert_eq!(layout.tiling_size(b), WHOLE / 2);
    resize_tiling_container(&mut layout, a, None);
    assert!((0..=WHOLE).contains(&layout.tiling_size(a)));
}

#[test]
fn keyboard_growth_and_shrink_respect_native_minimums_on_both_axes() {
    for horizontal in [true, false] {
        let (mut layout, _, ids) = tiles(axis(horizontal), &[(300, 200), (500, 250)]);
        let (a, b) = (ids[0], ids[1]);
        resize_with_minimums(&mut layout, a, Some(100 * WHOLE)).unwrap();
        let b_length = length(&rect(&layout, b), horizontal);
        assert!(b_length >= if horizontal { 500 } else { 250 });
        assert!(!resize_with_minimums(&mut layout, a, Some(100 * WHOLE)).unwrap());
        resize_with_minimums(&mut layout, a, Some(-100 * WHOLE)).unwrap();
        let a_length = length(&rect(&layout, a), horizontal);
        assert!(a_length >= if horizontal { 300 } else { 200 });
        assert!(!resize_with_minimums(&mut layout, a, Some(-100 * WHOLE)).unwrap());
        assert_eq!(layout.tiling_size(a) + layout.tiling_size(b), WHOLE);
    }
}

#[test]
fn keyboard_resize_uses_ancestor_parent_axis_for_nested_splits() {
    let (mut layout, parent, _) = tiles(TilingDirection::Horizontal, &[(200, 100)]);
    let column = split(&mut layout, parent, TilingDirection::Vertical);
    let b = window(&mut layout, column, 400, 100);
    let c = window(&mut layout, column, 200, 100);
    resize_with_minimums(&mut layout, column, Some(-100 * WHOLE)).unwrap();
    assert!(rect(&layout, b).width() >= 400);
    assert!(rect(&layout, c).width() >= 400);
}

#[test]
fn insertion_reserves_a_large_new_windows_minimum() {
    let (mut layout, parent, ids) =
        tiles(TilingDirection::Horizontal, &[(300, 100), (300, 100)]);
    let new = lone_window(&mut layout, 900, 100);
    let plan = plan_tiling_insertion(&layout, new, parent).unwrap().unwrap();
    assert_eq!(plan.iter().map(|&(_, size)| size).sum::<i64>(), WHOLE);
    join(&mut layout, new, parent);
    for (child, size) in plan {
        layout.set_tiling_size(child, size);
    }
    assert!(rect(&layout, new).width() >= 900);
    assert!(rect(&layout, ids[0]).width() >= 300);
    assert!(rect(&layout, ids[1]).width() >= 300);
}

#[test]
fn impossible_insertion_does_not_modify_existing_layout() {
    let (mut layout, parent, ids) =
        tiles(TilingDirection::Horizontal, &[(800, 100), (800, 100)]);
    let new = lone_window(&mut layout, 400, 100);
    let before = (rect(&layout, ids[0]), rect(&layout, ids[1]));
    assert!(plan_tiling_insertion(&layout, new, parent).unwrap().is_none());
    assert_eq!(before, (rect(&layout, ids[0]), rect(&layout, ids[1])));
    assert!(layout.parent(new).is_none());
}

#[test]
fn insertion_checks_cross_axis_and_nested_descendants() {
    let (mut layout, parent, _) = tiles(TilingDirection::Horizontal, &[(100, 100)]);
    let too_tall = lone_window(&mut layout, 100, 2000);
    assert!(plan_tiling_insertion(&layout, too_tall, parent).unwrap().is_none());
}

#[test]
fn allocator_redistributes_without_nan_when_every_share_hits_its_minimum() {
    let tenth = |n: i64| n * WHOLE / 10;
    let minimums = vec![tenth(2), tenth(3), tenth(5)];
    let result = allocate_shares(&vec![0, 0, 0], &minimums).unwrap();
    assert!(result.iter().all(|size| (0..=WHOLE).contains(size)));
    assert_eq!(result.iter().sum::<i64>(), WHOLE);
    for (actual, min) in result.iter().zip(&minimums) {
        assert!(actual >= min);
    }
    assert!(allocate_shares(&vec![tenth(5), tenth(5)], &vec![tenth(7), tenth(4)]).is_none());
}

fn behavior(resize_respects_minimum_size: bool) -> WindowBehaviorConfig {
    WindowBehaviorConfig { resize_respects_minimum_size }
}

fn silent(layout: &Layout) -> Vec<NativeMinimum> {
    (0..layout.len()).map(|_| NativeMinimum::Unsupported).collect()
}

#[test]
fn command_resize_policy_can_bypass_native_minimums() {
    let (layout, _, ids) = tiles(TilingDirection::Horizontal, &[(500, 200), (500, 200)]);
    let mut state = WmState::new();
    state.layout = layout;
    let a = ids[0];
    set_tiling_window_length(
        &mut state.layout,
        &mut state.pending_sync,
        a,
        &LengthValue::from_px(100),
        true,
        &behavior(true),
    )
    .unwrap();
    assert!(rect(&state.layout, a).width() >= 500);
    set_tiling_window_length(
        &mut state.layout,
        &mut state.pending_sync,
        a,
        &LengthValue::from_px(100),
        true,
        &behavior(false),
    )
    .unwrap();
    assert!((rect(&state.layout, a).width() - 100).abs() <= 1);
}

#[test]
fn allocation_fills_by_weight_above_the_minimums() {
    let half = WHOLE / 2;
    assert_eq!(allocate_shares(&vec![3, 1], &vec![0, 0]), Some(vec![half + half / 2, half / 2]));
    assert_eq!(allocate_shares(&vec![3, 1], &vec![0, half]), Some(vec![half, half]));
    assert_eq!(allocate_shares(&vec![], &vec![]), Some(vec![]));
}

#[test]
fn the_nearest_split_with_neighbors_is_the_divider() {
    let (mut layout, parent, ids) = tiles(TilingDirection::Horizontal, &[(100, 100)]);
    let column = split(&mut layout, parent, TilingDirection::Vertical);
    let b = window(&mut layout, column, 100, 100);
    let c = window(&mut layout, column, 100, 100);
    let found = find_divider(&layout, c, true, true).unwrap();
    assert_eq!((found.container, found.parent), (column, parent));
    assert_eq!(found.neighbors, vec![ids[0]]);
    let found = find_divider(&layout, c, false, true).unwrap();
    assert_eq!((found.container, found.neighbors), (c, vec![b]));
    assert!(find_divider(&layout, c, false, false).is_none());
    assert!(find_divider(&layout, c, true, false).is_none());
}

#[test]
fn a_dragged_edge_resizes_the_tile_and_is_noted_in_the_drag() {
    let (layout, parent, ids) = tiles(TilingDirection::Horizontal, &[(100, 100), (100, 100)]);
    let mut state = WmState::new();
    state.layout = layout;
    let mut props = state.layout.window(ids[0]);
    props.active_drag = Some(ActiveDrag {
        operation: Some(ActiveDragOperation::Resize),
        is_from_floating: false,
        initial_position: rect(&state.layout, ids[0]),
        resize_edges: None,
        initial_cursor_position: None,
    });
    state.layout.set_window(ids[0], props);
    let none = ResizeEdges { left: false, top: false, right: false, bottom: false };
    let frame = Rect::from_ltrb(0, 0, 900, 1000);
    resize_tiling_window(ids[0], &frame, &none, &mut state).unwrap();
    near(rect(&state.layout, ids[0]).width(), 900);
    let drag = state.layout.window(ids[0]).active_drag.unwrap();
    let edges = drag.resize_edges.unwrap();
    assert!(edges.right && !edges.left && !edges.top && !edges.bottom);
    assert!(state.pending_sync.is_queued_for_redraw(parent));
    assert!(state.pending_sync.is_queued_for_redraw(ids[0]));
    assert!(state.pending_sync.animations_suppressed());
    let mut again = WmState::new();
    again.layout = tiles(TilingDirection::Horizontal, &[(100, 100), (100, 100)]).0;
    let frame = rect(&again.layout, ids[0]);
    resize_tiling_window(ids[0], &frame, &none, &mut again).unwrap();
    assert!(again.pending_sync.containers_to_redraw().is_empty());
}

#[test]
fn a_split_needs_room_for_its_most_demanding_tile() {
    let (mut layout, parent, _) = tiles(TilingDirection::Horizontal, &[]);
    let row = split(&mut layout, parent, TilingDirection::Horizontal);
    let b = window(&mut layout, row, 199, 100);
    let c = window(&mut layout, row, 99, 300);
    layout.set_tiling_size(b, WHOLE / 4);
    layout.set_tiling_size(c, WHOLE / 4 * 3);
    assert_eq!(minimum_length(&layout, b, true), 199 * SUBPIXELS);
    // A quarter of the row has to come to one pixel more than the minimum.
    assert_eq!(minimum_length(&layout, row, true), 800 * SUBPIXELS);
    assert_eq!(minimum_length(&layout, row, false), 300 * SUBPIXELS);
    assert_eq!(available_tiling_length(&layout, b, true), Ok(1680));
}

#[test]
fn minimums_are_asked_for_once_per_window() {
    let (mut layout, parent, ids) = tiles(TilingDirection::Horizontal, &[(1, 1), (1, 1)]);
    let mut natives = silent(&layout);
    natives[ids[0]] = NativeMinimum::Answered(320, 240);
    refresh_tiling_minimums(&mut layout, parent, &natives).unwrap();
    assert_eq!(layout.window(ids[0]).minimum_tiling_size, Some((320, 240)));
    assert_eq!(layout.window(ids[1]).minimum_tiling_size, Some((1, 1)));
    // A window that does not answer is not to shrink at all, and neither is a fixed one.
    refresh_window_minimum(&mut layout, ids[1], NativeMinimum::Unanswered).unwrap();
    assert_eq!(layout.window(ids[1]).minimum_tiling_size, Some((840, 1000)));
    let mut props = layout.window(ids[0]);
    props.is_resizable = false;
    layout.set_window(ids[0], props);
    cache_resize_minimums(&mut layout, ids[1], &natives).unwrap();
    assert_eq!(layout.window(ids[0]).minimum_tiling_size, Some((840, 1000)));
    let mut props = layout.window(ids[1]);
    props.total_border_delta = RectDelta { left: 7, top: 0, right: 7, bottom: 7 };
    layout.set_window(ids[1], props);
    refresh_window_minimum(&mut layout, ids[1], NativeMinimum::Answered(214, 107)).unwrap();
    assert_eq!(layout.window(ids[1]).minimum_tiling_size, Some((200, 100)));
}

#[test]
fn what_is_not_in_the_tree_cannot_be_resized() {
    let mut layout = Layout::new();
    let lone = lone_window(&mut layout, 10, 10);
    assert_eq!(resize_with_minimums(&mut layout, lone, Some(WHOLE)), Err(WmError::NoParent));
    assert_eq!(available_tiling_length(&layout, lone, true), Err(WmError::NoParent));
    assert_eq!(
        plan_tiling_insertion(&layout, lone, 0),
        Err(WmError::NoDirectionContainer)
    );
    let mut state = WmState::new();
    state.layout = layout;
    let natives = silent(&state.layout);
    assert_eq!(
        set_window_size(
            lone,
            Some(LengthValue::from_px(10)),
            None,
            &mut state,
            &behavior(true),
            &natives
        ),
        Err(WmError::NoWorkspace)
    );
}

#[test]
fn a_tile_without_a_representable_place_is_out_of_range() {
    let mut layout = Layout::new();
    let screen = monitor(&mut layout, 0);
    let parent = workspace(&mut layout, screen, TilingDirection::Horizontal);
    let mut data = layout.data(parent);
    data.rect = Rect::from_ltrb(i32::MIN, 0, i32::MAX, 100);
    layout.set_data(parent, data);
    let a = window(&mut layout, parent, 10, 10);
    let b = window(&mut layout, parent, 10, 10);
    assert_eq!(available_tiling_length(&layout, a, true), Err(WmError::OutOfRange));
    assert_eq!(
        resize_edge(&mut layout, b, true, true, 5),
        Err(WmError::OutOfRange)
    );
}

#[test]
fn resizing_in_the_resize_mode_is_not_animated() {
    let (layout, _, ids) = tiles(TilingDirection::Horizontal, &[(1, 1), (1, 1)]);
    let mut state = WmState::new();
    state.layout = layout;
    let natives = silent(&state.layout);
    let target = LengthValue { amount: 25 * WHOLE / 100, unit: LengthUnit::Percentage };
    set_window_size(ids[0], Some(target), None, &mut state, &behavior(true), &natives).unwrap();
    near(rect(&state.layout, ids[0]).width(), 420);
    assert!(!state.pending_sync.animations_suppressed());
    state.binding_modes.push(BindingModeConfig { name: "resize".to_string() });
    resize_window(
        ids[0],
        Some(LengthValue::from_px(100)),
        None,
        &mut state,
        &behavior(true),
        &natives,
    )
    .unwrap();
    near(rect(&state.layout, ids[0]).width(), 520);
    assert!(state.pending_sync.animations_suppressed());
    for id in ids {
        assert!(state.pending_sync.is_queued_for_redraw(id));
    }
}

#[test]
fn a_floating_window_keeps_its_minimum_but_may_always_grow() {
    let mut state = WmState::new();
    let screen = monitor(&mut state.layout, 0);
    let parent = workspace(&mut state.layout, screen, TilingDirection::Horizontal);
    let floating = FloatingStateConfig { centered: false, shown_on_top: false };
    let mut data = new_node_data(ContainerKind::NonTilingWindow);
    data.window = new_window_props(WindowState::Floating(floating));
    data.window.floating_placement = Rect::from_xy(10, 20, 300, 200);
    let id = state.layout.add_container(data);
    join(&mut state.layout, id, parent);
    let mut natives = silent(&state.layout);
    natives[id] = NativeMinimum::Answered(250, 500);
    set_window_size(
        id,
        Some(LengthValue::from_px(100)),
        Some(LengthValue::from_px(300)),
        &mut state,
        &behavior(true),
        &natives,
    )
    .unwrap();
    assert_eq!(rect(&state.layout, id), Rect::from_xy(10, 20, 250, 300));
    set_window_size(
        id,
        Some(LengthValue::from_px(100)),
        None,
        &mut state,
        &behavior(false),
        &natives,
    )
    .unwrap();
    assert_eq!(rect(&state.layout, id), Rect::from_xy(10, 20, 100, 300));
    resize_window(
        id,
        None,
        Some(LengthValue { amount: WHOLE / 4, unit: LengthUnit::Percentage }),
        &mut state,
        &behavior(false),
        &natives,
    )
    .unwrap();
    assert_eq!(rect(&state.layout, id), Rect::from_xy(10, 20, 100, 550));
}

#[test]
fn lengths_are_converted_both_ways() {
    assert_eq!(LengthValue::from_px(420).to_px(1680), 420);
    assert_eq!(LengthValue::from_px(420).to_percentage(1680), WHOLE / 4);
    let quarter = LengthValue { amount: WHOLE / 4, unit: LengthUnit::Percentage };
    assert_eq!(quarter.to_px(1680), 420);
    assert_eq!(quarter.to_percentage(1680), WHOLE / 4);
}

fn dragged(layout: &mut Layout, id: usize, edges: ResizeEdges, cursor: (i32, i32)) {
    let mut props = layout.window(id);
    props.active_drag = Some(ActiveDrag {
        operation: Some(ActiveDragOperation::Resize),
        is_from_floating: false,
        initial_position: layout.to_rect(id).unwrap(),
        resize_edges: Some(edges),
        initial_cursor_position: Some(cursor),
    });
    layout.set_window(id, props);
}

#[test]
fn the_cursor_is_confined_to_where_the_edge_can_go() {
    let (mut layout, _, ids) = tiles(TilingDirection::Horizontal, &[(99, 100), (99, 100)]);
    let edges = ResizeEdges { left: false, top: false, right: true, bottom: false };
    dragged(&mut layout, ids[0], edges, (845, 500));
    let (limits, res) = constrain_resize_cursor(&layout, ids[0], &edges);
    assert_eq!(res, Ok(()));
    assert_eq!(limits.len(), 1);
    assert!(limits[0].horizontal);
    near(limits[0].min, 845 - 740);
    near(limits[0].max, 845 + 740);
    let mut clip = ResizeCursorClip::new(Rect::from_ltrb(0, 0, 1680, 1050));
    let confined = clip.constrain_axis(true, limits[0].min, limits[0].max).unwrap();
    assert_eq!((confined.top, confined.bottom), (0, 1050));
    assert_eq!((confined.left, confined.right), (limits[0].min, limits[0].max + 1));
}

#[test]
fn only_a_dragged_window_confines_the_cursor() {
    let (mut layout, _, ids) = tiles(TilingDirection::Horizontal, &[(99, 100), (99, 100)]);
    let edges = ResizeEdges { left: false, top: false, right: true, bottom: false };
    assert_eq!(cursor_clip_action(&layout, ids[0], true, None), ClipAction::Keep);
    dragged(&mut layout, ids[0], edges, (845, 500));
    assert_eq!(cursor_clip_action(&layout, ids[0], true, None), ClipAction::Replace);
    assert_eq!(cursor_clip_action(&layout, ids[0], true, Some(ids[0])), ClipAction::Reuse);
    assert_eq!(cursor_clip_action(&layout, ids[0], true, Some(ids[1])), ClipAction::Replace);
    assert_eq!(cursor_clip_action(&layout, ids[0], false, Some(ids[0])), ClipAction::Release);
}
