use glazewm::animation_state::{Easing, WindowAnimationState};
use glazewm::geometry::Rect;
use glazewm::shares::WHOLE;
use glazewm::workspace_motion::{sample_points, CurvePoints, WorkspaceMotion};

const MS: u64 = 1_000_000;

/// A clock that has been running for a while.
const START: u64 = 77 * MS;

fn linear() -> Easing {
    Easing { curve: 0, can_overshoot: false }
}

fn cubic() -> Easing {
    Easing { curve: 1, can_overshoot: false }
}

fn units(value: f64) -> i64 {
    (value * WHOLE as f64).round() as i64
}

fn part(value: i64) -> f64 {
    value as f64 / WHOLE as f64
}

/// The value of the curve that an animation depends on.
fn eased(animation: &WindowAnimationState, now: u64) -> i64 {
    match animation.easing_query_at(now) {
        Some(query) if query.easing.curve == 1 => {
            let rest = 1.0 - part(query.input);
            units(1.0 - rest * rest * rest)
        }
        Some(query) => query.input,
        None => 0,
    }
}

fn progress_at(animation: &mut WindowAnimationState, now: u64) -> i64 {
    let value = eased(animation, now);
    animation.eased_progress_at(now, value)
}

fn rect_at(animation: &mut WindowAnimationState, now: u64) -> Rect {
    let value = eased(animation, now);
    animation.current_state_at(now, value).unwrap().0
}

fn reveal_at(animation: &mut WindowAnimationState, now: u64) -> Option<i64> {
    let value = eased(animation, now);
    animation.workspace_reveal_progress_at(now, value)
}

#[test]
fn workspace_reveal_starts_only_after_exit_and_finishes_at_target() {
    let start = Rect::from_xy(100, 100, 640, 480);
    let target = Rect::from_xy(900, 200, 800, 600);
    let mut animation = WindowAnimationState::new_movement(start, target, 450, linear());
    animation.set_workspace_flight(Rect::from_xy(0, 0, 1920, 1080), -1);
    animation.set_workspace_reveal(250, linear());
    let now = START;
    assert_eq!(rect_at(&mut animation, now), start);
    assert!(reveal_at(&mut animation, now + 225 * MS).is_none());
    assert!(rect_at(&mut animation, now + 225 * MS).x() < start.x());
    let boundary = now + 450 * MS;
    assert!(part(reveal_at(&mut animation, boundary).unwrap()) < 0.0001);
    assert_eq!(rect_at(&mut animation, boundary).width(), 0);
    let halfway = rect_at(&mut animation, now + 575 * MS);
    assert!((halfway.width() - 400).abs() <= 1);
    assert!((halfway.height() - 300).abs() <= 1);
    assert!(
        (halfway.x() + halfway.width() / 2 - (target.x() + target.width() / 2)).abs() <= 1
    );
    assert_eq!(rect_at(&mut animation, now + 700 * MS), target);
}

#[test]
fn zero_exit_duration_can_reveal_without_division_by_zero() {
    let rect = Rect::from_xy(100, 100, 640, 480);
    let mut animation = WindowAnimationState::new_movement(rect, rect, 0, linear());
    animation.set_workspace_flight(Rect::from_xy(0, 0, 1920, 1080), 1);
    animation.set_workspace_reveal(250, linear());
    let now = START;
    assert_eq!(reveal_at(&mut animation, now), Some(0));
    assert_eq!(rect_at(&mut animation, now + 250 * MS), rect);
}

#[test]
fn workspace_flights_only_exit_without_reentering() {
    for monitor_x in [-1920, 0, 1920] {
        let monitor = Rect::from_xy(monitor_x, 0, 1920, 1080);
        let start = Rect::from_xy(monitor_x + 100, 100, 640, 480);
        let target = Rect::from_xy(monitor_x + 900, 200, 800, 600);
        for direction in [-1, 1] {
            let mut animation =
                WindowAnimationState::new_movement(start, target, 450, cubic());
            animation.set_workspace_flight(monitor, direction);
            assert_eq!(animation.rect_at_progress(0).unwrap(), start);
            let mut previous_x = start.x();
            for frame in 1..=100 {
                let rect = animation.rect_at_progress(units(f64::from(frame) / 100.0)).unwrap();
                assert!((rect.x() - previous_x) * direction >= 0);
                assert_eq!(rect.y(), start.y());
                assert_eq!(rect.width(), start.width());
                assert_eq!(rect.height(), start.height());
                previous_x = rect.x();
            }
            let exit = animation.rect_at_progress(WHOLE).unwrap();
            assert!(exit.right <= monitor.left || exit.left >= monitor.right);
            // Native-window handoff still uses the destination layout.
            assert_eq!(animation.target_rect, target);
        }
    }
}

#[test]
fn same_layout_still_flies_instead_of_completing_immediately() {
    let rect = Rect::from_xy(100, 100, 640, 480);
    let mut animation = WindowAnimationState::new_movement(rect, rect, 450, cubic());
    animation.set_workspace_flight(Rect::from_xy(0, 0, 1920, 1080), -1);
    let now = START;
    assert_eq!(progress_at(&mut animation, now), 0);
    assert_eq!(animation.max_travel_px(), 740);
    assert_ne!(animation.rect_at_progress(units(0.25)).unwrap(), rect);
    assert_eq!(
        rect_at(&mut animation, now + 450 * MS),
        Rect::from_xy(-640, 100, 640, 480)
    );
}

#[test]
fn long_slide_does_not_snap_at_ninety_nine_percent() {
    let mut anim = WindowAnimationState::new_movement(
        Rect::from_xy(0, 0, 100, 100),
        Rect::from_xy(10_000, 0, 100, 100),
        10_000,
        linear(),
    );
    let t0 = START;
    // First call anchors `start_time` at `t0`.
    assert_eq!(progress_at(&mut anim, t0), 0);
    let progress = part(progress_at(&mut anim, t0 + 9_900 * MS));
    assert!(progress < 1.0, "expected no early snap, got {progress}");
    assert!((progress - 0.99).abs() < 1e-3, "got {progress}");
}

#[test]
fn long_slide_completes_within_one_pixel() {
    let mut anim = WindowAnimationState::new_movement(
        Rect::from_xy(0, 0, 100, 100),
        Rect::from_xy(100, 0, 100, 100),
        10_000,
        linear(),
    );
    let t0 = START;
    assert_eq!(progress_at(&mut anim, t0), 0);
    assert_eq!(progress_at(&mut anim, t0 + 9_990 * MS), WHOLE);
}

#[test]
fn opacity_only_completes_on_eased_fraction() {
    let mut anim = WindowAnimationState::new_movement(
        Rect::from_xy(0, 0, 100, 100),
        Rect::from_xy(0, 0, 100, 100),
        100,
        linear(),
    );
    let t0 = START;
    assert_eq!(progress_at(&mut anim, t0), 0);
    let before = part(progress_at(&mut anim, t0 + 98 * MS));
    assert!((before - 0.98).abs() < 1e-3, "got {before}");
    assert_eq!(progress_at(&mut anim, t0 + 99 * MS), WHOLE);
}

#[test]
fn start_delay_holds_at_zero() {
    let mut anim = WindowAnimationState::new_movement(
        Rect::from_xy(0, 0, 100, 100),
        Rect::from_xy(1_000, 0, 100, 100),
        100,
        linear(),
    )
    .with_delay(30 * MS);
    let t0 = START;
    // Anchors `start_time`; still within the delay window.
    assert_eq!(progress_at(&mut anim, t0), 0);
    assert_eq!(progress_at(&mut anim, t0 + 20 * MS), 0);
    // 30ms in, the duration window has just begun (progress ~0, not snapped).
    let after_delay = part(progress_at(&mut anim, t0 + 30 * MS));
    assert!(after_delay < 0.01, "got {after_delay}");
    // 30ms delay + 50ms into the 100ms duration gives ~50% progress.
    let mid = part(progress_at(&mut anim, t0 + 80 * MS));
    assert!((mid - 0.5).abs() < 1e-2, "got {mid}");
}

#[test]
fn a_window_is_halfway_at_half_the_time() {
    let start = Rect::from_xy(0, 0, 100, 100);
    let target = Rect::from_xy(1000, 500, 300, 200);
    let mut anim = WindowAnimationState::new_movement(start, target, 200, linear());
    assert_eq!(anim.remaining_at(START), 200 * MS);
    assert_eq!(rect_at(&mut anim, START), start);
    assert_eq!(rect_at(&mut anim, START + 100 * MS), Rect::from_xy(500, 250, 200, 150));
    assert_eq!(anim.remaining_at(START + 150 * MS), 50 * MS);
    let value = eased(&anim, START + 150 * MS);
    assert!(!anim.is_complete(START + 150 * MS, value));
    assert_eq!(rect_at(&mut anim, START + 200 * MS), target);
    let value = eased(&anim, START + 200 * MS);
    assert!(anim.is_complete(START + 200 * MS, value));
    assert_eq!(anim.current_rect(START + 200 * MS, value), Some(target));
    assert_eq!(anim.remaining_at(START + 900 * MS), 0);
}

#[test]
fn an_overshooting_curve_runs_to_the_end() {
    let bouncing = Easing { curve: 0, can_overshoot: true };
    let mut anim = WindowAnimationState::new_movement(
        Rect::from_xy(0, 0, 100, 100),
        Rect::from_xy(10, 0, 100, 100),
        100,
        bouncing,
    );
    progress_at(&mut anim, START);
    let value = units(1.05);
    assert_eq!(anim.eased_progress_at(START + 95 * MS, value), value);
    assert_eq!(anim.eased_progress_at(START + 100 * MS, value), WHOLE);
}

fn ease_out_cubic(t: f64) -> f64 {
    let rest = 1.0 - t;
    1.0 - rest * rest * rest
}

fn wide(units: i128) -> f64 {
    units as f64 / WHOLE as f64
}

fn sample(motion: &mut WorkspaceMotion, progress: f64, seconds: f64) {
    let progress = units(progress);
    let points = sample_points(progress);
    let curve = |input: i64| units(ease_out_cubic(part(input)));
    let eased = CurvePoints {
        low: curve(points.low),
        at: curve(points.at),
        high: curve(points.high),
    };
    motion.sample(progress, (seconds * 1e9).round() as u64, &eased);
}

#[test]
fn retargets_preserve_position_and_velocity_in_both_directions() {
    let mut motion = WorkspaceMotion::new(0, WHOLE);
    for target in [2, 0, 3, 1, 2, 0] {
        sample(&mut motion, 0.3, 0.45);
        let before = (motion.position, motion.velocity);
        motion.retarget(target * WHOLE);
        sample(&mut motion, 0.0, 0.45);
        assert_eq!(motion.position, before.0);
        assert_eq!(motion.velocity, before.1);
        // Every panel retains its screen offset, including older outgoing
        // panels that no longer belong to either end of the newest route.
        for panel in 0..4 {
            let place = i128::from(panel * WHOLE);
            assert_eq!(place - motion.position, place - before.0);
        }
    }
    sample(&mut motion, 1.0, 0.45);
    assert_eq!(motion.position, 0);
    assert_eq!(motion.velocity, 0);
}

#[test]
fn retarget_continues_moving_on_the_next_frame_and_finishes_at_rest() {
    let mut motion = WorkspaceMotion::new(0, WHOLE);
    sample(&mut motion, 0.4, 0.45);
    let position = wide(motion.position);
    let velocity = wide(motion.velocity);
    motion.retarget(2 * WHOLE);
    let dt = 0.0001;
    sample(&mut motion, dt / 0.45, 0.45);
    assert!(wide(motion.position) > position);
    assert!(((wide(motion.position) - position) / dt - velocity).abs() < 0.01);
    sample(&mut motion, 1.0, 0.45);
    assert_eq!(motion.position, i128::from(2 * WHOLE));
    assert_eq!(motion.velocity, 0);
}

#[test]
fn retarget_before_first_frame_and_zero_duration_reach_latest_target() {
    let mut motion = WorkspaceMotion::new(0, WHOLE);
    motion.retarget(2 * WHOLE);
    motion.retarget(3 * WHOLE);
    sample(&mut motion, 0.0, 0.45);
    assert_eq!(motion.position, 0);
    sample(&mut motion, 0.0, 0.0);
    assert_eq!(motion.position, i128::from(3 * WHOLE));
    assert_eq!(motion.velocity, 0);
}

#[test]
fn motion_follows_the_curve_and_then_the_blend() {
    let mut motion = WorkspaceMotion::new(0, WHOLE);
    sample(&mut motion, 0.5, 0.5);
    assert!((wide(motion.position) - 0.875).abs() < 1e-6);
    // The slope of the curve at one half is 3/4, over half a second.
    assert!((wide(motion.velocity) - 1.5).abs() < 1e-4);
    motion.retarget(2 * WHOLE);
    sample(&mut motion, 0.5, 0.5);
    let (distance, tangent) = (2.0 - 0.875, 1.5 * 0.5);
    assert!((wide(motion.position) - (0.875 + distance * 0.5 + tangent * 0.125)).abs() < 1e-4);
    let slope = (distance * 1.5 + tangent * (1.0 - 2.0 + 0.75)) / 0.5;
    assert!((wide(motion.velocity) - slope).abs() < 1e-3);
}

#[test]
fn a_short_motion_is_as_fast_as_it_has_to_be() {
    let mut motion = WorkspaceMotion::new(0, WHOLE);
    let eased = CurvePoints { low: 0, at: 0, high: sample_points(0).high };
    motion.sample(0, 1, &eased);
    // One workspace in a billionth of a second.
    assert_eq!(motion.velocity, i128::from(WHOLE) * 1_000_000_000);
    motion.retarget(2 * WHOLE);
    motion.sample(0, 1, &eased);
    assert_eq!(motion.velocity, i128::from(WHOLE) * 1_000_000_000);
    motion.sample(WHOLE / 2, 1, &eased);
    // Half of the way, and an eighth of the distance that the first velocity covers.
    assert_eq!(motion.position, i128::from(WHOLE + WHOLE / 8));
}

#[test]
fn far_workspaces_are_reached() {
    let mut motion = WorkspaceMotion::new(i64::MIN, i64::MAX);
    motion.sample(WHOLE / 2, 1_000_000_000, &CurvePoints { low: 0, at: WHOLE, high: WHOLE });
    assert_eq!(motion.position, i128::from(i64::MAX));
    motion.retarget(i64::MIN);
    motion.sample(WHOLE, 1_000_000_000, &CurvePoints { low: 0, at: 0, high: 0 });
    assert_eq!(motion.position, i128::from(i64::MIN));
    assert_eq!(motion.velocity, 0);
}
