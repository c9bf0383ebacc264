use glazewm::geometry::Rect;
use glazewm::safe_area::{
    find_panel, panel_edge, resolve_working_area, working_area, BarCandidate, Edge, Panel,
};

#[test]
fn zebar_appears_resizes_and_disappears() {
    let bounds = Rect::from_ltrb(0, 0, 1920, 1080);
    let system = Rect::from_ltrb(0, 0, 1920, 1032);
    for height in [32, 48] {
        let panel = Panel { edge: Edge::Top, depth: height, visible: true };
        assert_eq!(
            resolve_working_area(&bounds, &system, &vec![panel]),
            Rect::from_ltrb(0, height, 1920, 1032),
        );
    }
    assert_eq!(resolve_working_area(&bounds, &system, &vec![]), system);
}

#[test]
fn registered_bar_is_not_counted_twice() {
    let bounds = Rect::from_ltrb(0, 0, 1920, 1080);
    let system = Rect::from_ltrb(0, 40, 1920, 1032);
    let panels = vec![
        Panel { edge: Edge::Top, depth: 40, visible: true },
        Panel { edge: Edge::Bottom, depth: 48, visible: true },
    ];
    assert_eq!(resolve_working_area(&bounds, &system, &panels), system);
}

#[test]
fn hidden_bars_release_their_reservations() {
    let bounds = Rect::from_ltrb(0, 0, 1920, 1080);
    let panels = vec![
        Panel { edge: Edge::Top, depth: 40, visible: false },
        Panel { edge: Edge::Bottom, depth: 48, visible: false },
    ];
    for bottom in [1032, 1078] {
        let system = Rect::from_ltrb(0, 40, 1920, bottom);
        assert_eq!(resolve_working_area(&bounds, &system, &panels), bounds);
    }
}

#[test]
fn hidden_bar_does_not_remove_visible_bar_or_larger_reservation() {
    let bounds = Rect::from_ltrb(0, 0, 1920, 1080);
    let system = Rect::from_ltrb(0, 40, 1920, 1000);
    let panels = vec![
        Panel { edge: Edge::Top, depth: 40, visible: false },
        Panel { edge: Edge::Top, depth: 32, visible: true },
        Panel { edge: Edge::Bottom, depth: 48, visible: false },
    ];
    assert_eq!(
        resolve_working_area(&bounds, &system, &panels),
        Rect::from_ltrb(0, 32, 1920, 1000),
    );
}

#[test]
fn panel_detection_handles_negative_monitor_coordinates_and_margins() {
    let bounds = Rect::from_ltrb(-2560, -200, 0, 1240);
    assert_eq!(
        panel_edge(&bounds, &Rect::from_ltrb(-2550, -190, -10, -150), 64),
        Some(Edge::Top)
    );
    assert_eq!(
        panel_edge(&bounds, &Rect::from_ltrb(-2560, 1192, 0, 1240), 64),
        Some(Edge::Bottom)
    );
    assert_eq!(
        panel_edge(&bounds, &Rect::from_ltrb(-2560, -200, -2520, 1240), 64),
        Some(Edge::Left)
    );
    assert_eq!(
        panel_edge(&bounds, &Rect::from_ltrb(-40, -200, 0, 1240), 64),
        Some(Edge::Right)
    );
    // Other monitor, central overlay, settings window, small widget.
    for frame in [
        Rect::from_ltrb(0, 0, 1920, 40),
        Rect::from_ltrb(-2560, 400, 0, 440),
        Rect::from_ltrb(-2400, -200, -500, 800),
        Rect::from_ltrb(-2560, -200, -2460, -160),
    ] {
        assert_eq!(panel_edge(&bounds, &frame, 64), None);
    }
}

fn candidate(frame: Rect) -> BarCandidate {
    BarCandidate {
        frame: Some(frame),
        is_on_monitor: true,
        class_name: None,
        process_name: Some("Zebar".to_string()),
        is_visible: Some(true),
        is_minimized: Some(false),
    }
}

#[test]
fn only_the_bar_program_and_taskbars_are_bars() {
    let bounds = Rect::from_ltrb(0, 0, 1920, 1080);
    let frame = Rect::from_ltrb(0, 0, 1920, 40);
    let top = Some(Panel { edge: Edge::Top, depth: 40, visible: true });
    assert_eq!(find_panel(&bounds, &candidate(frame), 64), top);
    for name in ["ZEBAR", "zebar"] {
        let window = BarCandidate { process_name: Some(name.to_string()), ..candidate(frame) };
        assert_eq!(find_panel(&bounds, &window, 64), top);
    }
    for name in ["zebar2", "explorer", ""] {
        let window = BarCandidate { process_name: Some(name.to_string()), ..candidate(frame) };
        assert_eq!(find_panel(&bounds, &window, 64), None);
    }
    for class in ["Shell_TrayWnd", "Shell_SecondaryTrayWnd"] {
        let window = BarCandidate {
            process_name: None,
            class_name: Some(class.to_string()),
            ..candidate(frame)
        };
        assert_eq!(find_panel(&bounds, &window, 64), top);
    }
    let elsewhere = BarCandidate { is_on_monitor: false, ..candidate(frame) };
    assert_eq!(find_panel(&bounds, &elsewhere, 64), None);
    let silent = BarCandidate { frame: None, ..candidate(frame) };
    assert_eq!(find_panel(&bounds, &silent, 64), None);
}

#[test]
fn a_hidden_taskbar_counts_with_its_whole_depth() {
    let bounds = Rect::from_ltrb(0, 0, 1920, 1080);
    let frame = Rect::from_ltrb(0, 1078, 1920, 1126);
    let taskbar = BarCandidate {
        class_name: Some("Shell_TrayWnd".to_string()),
        process_name: None,
        ..candidate(frame)
    };
    assert_eq!(
        find_panel(&bounds, &taskbar, 64),
        Some(Panel { edge: Edge::Bottom, depth: 48, visible: false })
    );
    assert_eq!(
        find_panel(&bounds, &candidate(frame), 64),
        Some(Panel { edge: Edge::Bottom, depth: 2, visible: false })
    );
    let system = Rect::from_ltrb(0, 0, 1920, 1032);
    assert_eq!(working_area(&bounds, &system, 96, &vec![taskbar]), bounds);
}

#[test]
fn windows_that_do_not_answer_are_hidden() {
    let bounds = Rect::from_ltrb(0, 0, 1920, 1080);
    let frame = Rect::from_ltrb(0, 0, 1920, 40);
    for window in [
        BarCandidate { is_visible: None, ..candidate(frame) },
        BarCandidate { is_visible: Some(false), ..candidate(frame) },
        BarCandidate { is_minimized: None, ..candidate(frame) },
        BarCandidate { is_minimized: Some(true), ..candidate(frame) },
    ] {
        assert_eq!(
            find_panel(&bounds, &window, 64),
            Some(Panel { edge: Edge::Top, depth: 40, visible: false })
        );
    }
}

#[test]
fn the_margin_grows_with_the_resolution() {
    let bounds = Rect::from_ltrb(0, 0, 1920, 1080);
    let system = bounds;
    let floating = || vec![candidate(Rect::from_ltrb(0, 100, 1920, 140))];
    assert_eq!(working_area(&bounds, &system, 96, &floating()), bounds);
    assert_eq!(
        working_area(&bounds, &system, 150, &floating()),
        Rect::from_ltrb(0, 140, 1920, 1080)
    );
    assert_eq!(working_area(&bounds, &system, 149, &floating()), bounds);
}

#[test]
fn bars_that_leave_nothing_free_are_ignored() {
    let bounds = Rect::from_ltrb(0, 0, 100, 100);
    let panels = vec![
        Panel { edge: Edge::Top, depth: 60, visible: true },
        Panel { edge: Edge::Bottom, depth: 60, visible: true },
    ];
    assert_eq!(resolve_working_area(&bounds, &bounds, &panels), bounds);
}
