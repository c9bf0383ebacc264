//! Animations of single windows.
//!
//! Times are in nanoseconds of one clock. Progress is counted in parts of a whole, as many as a
//! whole share has. The values of easing curves are computed elsewhere and taken as arguments.

use vstd::prelude::*;

use crate::geometry::{int_abs, int_max, int_min, trunc_div, Rect};
use crate::shares::WHOLE;

verus! {

/// An easing curve.
#[derive(Debug, Clone, Copy, PartialEq, Eq, Structural)]
pub struct Easing {
    /// Which curve it is.
    pub curve: usize,
    /// Whether the curve leaves the range between start and end.
    pub can_overshoot: bool,
}

/// The opacity of a window, in parts of full opacity.
#[derive(Debug, Clone, Copy, PartialEq, Eq, Structural)]
pub struct OpacityValue {
    pub amount: i64,
}

/// What is still missing, in pixels, when an animation that does not overshoot is complete. It is
/// no more than one pixel, so that the last step is not seen, however long the way was.
pub const COMPLETE_THRESHOLD_PX: i64 = 1;

/// The progress at which an animation without movement is complete: 99 percent.
pub const COMPLETE_PROGRESS: i64 = 1063004405;

/// A value of an easing curve that an animation needs.
#[derive(Debug, Clone, Copy, PartialEq, Eq, Structural)]
pub struct EasingQuery {
    pub easing: Easing,
    /// Where on the curve, from zero to a whole.
    pub input: i64,
}

/// The state of an animation of a window.
#[derive(Debug, Clone, Copy, PartialEq, Eq)]
pub struct WindowAnimationState {
    /// The time of the first frame. The clock starts when that frame is drawn rather than when the
    /// animation is made, or the animation would begin with a jump.
    pub start_time: Option<u64>,
    /// How long the animation waits before it moves.
    pub start_delay: u64,
    pub duration: u64,
    pub easing: Easing,
    pub start_rect: Rect,
    pub target_rect: Rect,
    /// The monitor that the window leaves, and whether it leaves to the left.
    pub workspace_flight: Option<(Rect, bool)>,
    /// How long the window takes to appear at its target after it has left, and how.
    pub workspace_reveal: Option<(u64, Easing)>,
    pub start_opacity: Option<OpacityValue>,
    pub target_opacity: Option<OpacityValue>,
}

pub open spec fn clamp_whole(x: int) -> int {
    int_max(0, int_min(x, WHOLE as int))
}

/// A quotient with a whole, rounded to the nearest number, halves away from zero.
pub open spec fn rounded(parts: int) -> int {
    if parts >= 0 {
        (2 * parts + WHOLE) / (2 * WHOLE)
    } else {
        -((2 * -parts + WHOLE) / (2 * WHOLE))
    }
}

/// The number that lies at some progress between two others.
pub open spec fn between(a: int, b: int, progress: int) -> int {
    rounded(a * WHOLE + (b - a) * progress)
}

/// The rectangle that lies at some progress between two others, if it can be represented.
pub open spec fn rect_between(a: Rect, b: Rect, progress: int) -> Option<Rect> {
    let x = between(a.left as int, b.left as int, progress);
    let y = between(a.top as int, b.top as int, progress);
    let w = between(a.w(), b.w(), progress);
    let h = between(a.h(), b.h(), progress);
    if Rect::xy_fits(x, y, w, h) {
        Some(Rect::xy_spec(x, y, w, h))
    } else {
        None
    }
}

/// How much of a time has passed.
pub open spec fn raw_progress(elapsed: int, duration: int) -> int {
    if elapsed >= duration {
        WHOLE as int
    } else {
        (elapsed * WHOLE) / duration
    }
}

impl WindowAnimationState {
    /// Whether the reveal is part of the animation's time.
    pub open spec fn wf(self) -> bool {
        self.workspace_reveal matches Some(appear) ==> 0 < appear.0 <= self.duration
    }

    /// The progress at which the window has left and begins to appear again.
    pub open spec fn split(self) -> Option<int> {
        match self.workspace_reveal {
            Some(appear) => Some(((self.duration - appear.0) * WHOLE) / (self.duration as int)),
            None => None,
        }
    }

    /// The time since the first frame, which is at `now` if there was none.
    pub open spec fn elapsed(self, now: int) -> int {
        match self.start_time {
            Some(start) => int_max(now - start, 0),
            None => 0,
        }
    }

    /// The progress in time, without the delay.
    pub open spec fn raw(self, now: int) -> int {
        raw_progress(self.elapsed(now) - self.start_delay, self.duration as int)
    }

    /// The left edge of the window when it has left the monitor.
    pub open spec fn exit_x(self, flight: (Rect, bool)) -> int {
        if flight.1 {
            flight.0.left - self.start_rect.w()
        } else {
            flight.0.right as int
        }
    }

    /// Where the window is when it has left the monitor, if that can be represented.
    pub open spec fn exit_rect(self, flight: (Rect, bool)) -> Option<Rect> {
        self.start_rect.at(self.exit_x(flight), self.start_rect.top as int)
    }

    /// How far the window moves or grows at most, in pixels.
    pub open spec fn travel(self) -> int {
        match self.workspace_flight {
            Some(flight) => int_abs(self.exit_x(flight) - self.start_rect.left),
            None => int_max(
                int_max(
                    int_abs(self.target_rect.left - self.start_rect.left),
                    int_abs(self.target_rect.top - self.start_rect.top),
                ),
                int_max(
                    int_abs(self.target_rect.w() - self.start_rect.w()),
                    int_abs(self.target_rect.h() - self.start_rect.h()),
                ),
            ),
        }
    }

    /// The value of an easing curve that the progress at `now` depends on, `None` during the
    /// delay.
    pub open spec fn query(self, now: int) -> Option<EasingQuery> {
        if self.elapsed(now) < self.start_delay {
            None
        } else {
            let raw = self.raw(now);
            match (self.workspace_reveal, self.split()) {
                (Some(appear), Some(split)) => if raw < split {
                    Some(
                        EasingQuery { easing: self.easing, input: ((raw * WHOLE) / split) as i64 },
                    )
                } else {
                    Some(
                        EasingQuery {
                            easing: appear.1,
                            input: (((raw - split) * WHOLE) / (WHOLE - split)) as i64,
                        },
                    )
                },
                _ => Some(EasingQuery { easing: self.easing, input: raw as i64 }),
            }
        }
    }

    /// Whether an animation is complete at some progress in time and on its curve. One that
    /// overshoots runs its full time.
    pub open spec fn is_done(self, raw: int, eased: int) -> bool {
        raw == WHOLE || (!self.easing.can_overshoot && if self.travel() > 0 {
            (WHOLE - eased) * self.travel() <= COMPLETE_THRESHOLD_PX * WHOLE
        } else {
            eased >= COMPLETE_PROGRESS
        })
    }

    /// The progress at `now`, where `eased` is the value of the curve that it depends on.
    pub open spec fn progress(self, now: int, eased: int) -> int {
        if self.elapsed(now) < self.start_delay {
            0
        } else {
            let raw = self.raw(now);
            match self.split() {
                Some(split) => if raw < split {
                    (split * clamp_whole(eased)) / (WHOLE as int)
                } else {
                    split + ((WHOLE - split) * clamp_whole(eased)) / (WHOLE as int)
                },
                None => if self.is_done(raw, eased) {
                    WHOLE as int
                } else {
                    eased
                },
            }
        }
    }

    /// The part of the reveal that is over at some progress.
    pub open spec fn reveal_scale(self, progress: int) -> int {
        clamp_whole(((progress - self.split()->0) * WHOLE) / (WHOLE - self.split()->0))
    }

    /// Where the window is at some progress, if that can be represented.
    pub open spec fn rect_at(self, progress: int) -> Option<Rect> {
        match (self.split(), self.workspace_flight) {
            (Some(split), _) if progress >= split => {
                let scale = self.reveal_scale(progress);
                let w = rounded(self.target_rect.w() * scale);
                let h = rounded(self.target_rect.h() * scale);
                let x = self.target_rect.left + trunc_div(self.target_rect.w() - w, 2);
                let y = self.target_rect.top + trunc_div(self.target_rect.h() - h, 2);
                if Rect::xy_fits(x, y, w, h) {
                    Some(Rect::xy_spec(x, y, w, h))
                } else {
                    None
                }
            },
            (Some(split), Some(flight)) => match self.exit_rect(flight) {
                Some(exit) => rect_between(
                    self.start_rect,
                    exit,
                    if split > 0 {
                        (progress * WHOLE) / split
                    } else {
                        0
                    },
                ),
                None => None,
            },
            (None, Some(flight)) => match self.exit_rect(flight) {
                Some(exit) => rect_between(self.start_rect, exit, clamp_whole(progress)),
                None => None,
            },
            _ => rect_between(self.start_rect, self.target_rect, progress),
        }
    }

    /// The opacity at some progress, if it changes.
    pub open spec fn opacity_at(self, progress: int) -> Option<int> {
        match (self.start_opacity, self.target_opacity) {
            (Some(start), Some(end)) => Some(
                start.amount + ((end.amount - start.amount) * progress) / (WHOLE as int),
            ),
            _ => None,
        }
    }

    /// The animation once its first frame has been drawn.
    pub open spec fn started(self, now: u64) -> WindowAnimationState {
        WindowAnimationState {
            start_time: match self.start_time {
                Some(start) => Some(start),
                None => Some(now),
            },
            ..self
        }
    }
}

fn clamp_to_whole(x: i128) -> (res: i64)
    ensures
        res == clamp_whole(x as int),
        0 <= res <= WHOLE,
{
    if x < 0 {
        0
    } else if x > WHOLE as i128 {
        WHOLE
    } else {
        x as i64
    }
}

fn round_parts(parts: i128) -> (res: i128)
    requires
        -0x1000_0000_0000_0000_0000_0000_0000_0000 <= parts
            <= 0x1000_0000_0000_0000_0000_0000_0000_0000,
    ensures
        res == rounded(parts as int),
{
    if parts >= 0 {
        (2 * parts + 1073741824) / 2147483648
    } else {
        -((2 * (-parts) + 1073741824) / 2147483648)
    }
}

fn lerp(a: i64, b: i64, progress: i64) -> (res: i128)
    requires
        -0x1_0000_0000 <= a <= 0x1_0000_0000,
        -0x1_0000_0000 <= b <= 0x1_0000_0000,
    ensures
        res == between(a as int, b as int, progress as int),
{
    let gap: i128 = b as i128 - a as i128;
    assert(-0x2_0000_0000_0000_0000_0000_0000 <= gap * progress
        <= 0x2_0000_0000_0000_0000_0000_0000) by (nonlinear_arith)
        requires
            -0x2_0000_0000 <= gap <= 0x2_0000_0000,
            -0x8000_0000_0000_0000 <= progress <= 0x8000_0000_0000_0000,
    ;
    round_parts(a as i128 * 1073741824 + gap * progress as i128)
}

fn checked_rect(x: i128, y: i128, w: i128, h: i128) -> (res: Option<Rect>)
    ensures
        res == (if Rect::xy_fits(x as int, y as int, w as int, h as int) {
            Some(Rect::xy_spec(x as int, y as int, w as int, h as int))
        } else {
            None
        }),
{
    let low: i128 = -2147483648;
    let high: i128 = 2147483647;
    if x < low || x > high || y < low || y > high {
        return None;
    }
    if w < low - x || w > high - x || h < low - y || h > high - y {
        return None;
    }
    Some(Rect { left: x as i32, top: y as i32, right: (x + w) as i32, bottom: (y + h) as i32 })
}

/// The rectangle that lies at some progress between two others, if it can be represented.
pub fn interpolate(a: &Rect, b: &Rect, progress: i64) -> (res: Option<Rect>)
    ensures
        res == rect_between(*a, *b, progress as int),
{
    let x = lerp(a.left as i64, b.left as i64, progress);
    let y = lerp(a.top as i64, b.top as i64, progress);
    let w = lerp(a.wide_width(), b.wide_width(), progress);
    let h = lerp(a.wide_height(), b.wide_height(), progress);
    checked_rect(x, y, w, h)
}

fn distance(a: i64, b: i64) -> (res: i64)
    requires
        -0x4_0000_0000 <= a <= 0x4_0000_0000,
        -0x4_0000_0000 <= b <= 0x4_0000_0000,
    ensures
        res == int_abs(a - b),
        0 <= res <= 0x8_0000_0000,
{
    if a >= b {
        a - b
    } else {
        b - a
    }
}

fn larger(a: i64, b: i64) -> (res: i64)
    ensures
        res == int_max(a as int, b as int),
{
    if a >= b {
        a
    } else {
        b
    }
}

impl WindowAnimationState {
    /// An animation that moves a window.
    pub fn new_movement(
        start_rect: Rect,
        target_rect: Rect,
        duration_ms: u32,
        easing: Easing,
    ) -> (res: WindowAnimationState)
        ensures
            res == (WindowAnimationState {
                start_time: None,
                start_delay: 0,
                duration: (duration_ms * 1000000) as u64,
                easing,
                start_rect,
                target_rect,
                workspace_flight: None,
                workspace_reveal: None,
                start_opacity: None,
                target_opacity: None,
            }),
            res.wf(),
    {
        WindowAnimationState {
            start_time: None,
            start_delay: 0,
            duration: duration_ms as u64 * 1000000,
            easing,
            start_rect,
            target_rect,
            workspace_flight: None,
            workspace_reveal: None,
            start_opacity: None,
            target_opacity: None,
        }
    }

    /// Lets the window leave its monitor, to the left for a negative direction and to the right
    /// for a positive one.
    pub fn set_workspace_flight(&mut self, monitor: Rect, direction: i32)
        ensures
            *final(self) == (if direction != 0 {
                WindowAnimationState {
                    workspace_flight: Some((monitor, direction < 0)),
                    ..*old(self)
                }
            } else {
                *old(self)
            }),
            direction < 0 ==> final(self).workspace_flight == Some((monitor, true)),
            direction > 0 ==> final(self).workspace_flight == Some((monitor, false)),
    {
        if direction != 0 {
            self.workspace_flight = Some((monitor, direction < 0));
        }
    }

    /// Lets a window that leaves its monitor appear at its target afterwards.
    pub fn set_workspace_reveal(&mut self, duration_ms: u32, easing: Easing)
        requires
            old(self).wf(),
            old(self).duration + duration_ms * 1000000 <= u64::MAX,
        ensures
            *final(self) == (if old(self).workspace_flight is Some && duration_ms > 0 {
                WindowAnimationState {
                    duration: (old(self).duration + duration_ms * 1000000) as u64,
                    workspace_reveal: Some(((duration_ms * 1000000) as u64, easing)),
                    ..*old(self)
                }
            } else {
                *old(self)
            }),
            final(self).wf(),
    {
        if self.workspace_flight.is_some() && duration_ms > 0 {
            let duration: u64 = duration_ms as u64 * 1000000;
            self.duration = self.duration + duration;
            self.workspace_reveal = Some((duration, easing));
        }
    }

    /// The same animation after a delay.
    pub fn with_delay(self, delay: u64) -> (res: WindowAnimationState)
        ensures
            res == (WindowAnimationState { start_delay: delay, ..self }),
    {
        let mut res = self;
        res.start_delay = delay;
        res
    }

    fn reveal_split(&self) -> (res: Option<i64>)
        requires
            self.wf(),
        ensures
            match self.split() {
                Some(split) => res matches Some(found) && found == split,
                None => res is None,
            },
            res matches Some(found) ==> 0 <= found < WHOLE,
    {
        match self.workspace_reveal {
            Some((appear, _)) => {
                let before: u64 = self.duration - appear;
                let total: u64 = self.duration;
                proof {
                    let a = before as int;
                    let b = total as int;
                    assert(0 <= (a * WHOLE) / b < WHOLE) by (nonlinear_arith)
                        requires
                            0 <= a < b,
                            WHOLE == 1073741824,
                    ;
                }
                let split: u128 = before as u128 * 1073741824 / total as u128;
                Some(split as i64)
            },
            None => None,
        }
    }

    fn elapsed_at(&self, now: u64) -> (res: u64)
        ensures
            res == self.elapsed(now as int),
    {
        match self.start_time {
            Some(start) => if now >= start {
                now - start
            } else {
                0
            },
            None => 0,
        }
    }

    fn raw_at(&self, now: u64) -> (res: i64)
        requires
            self.elapsed(now as int) >= self.start_delay,
        ensures
            res == self.raw(now as int),
            0 <= res <= WHOLE,
    {
        let elapsed: u64 = self.elapsed_at(now) - self.start_delay;
        if elapsed >= self.duration {
            return WHOLE;
        }
        proof {
            let a = elapsed as int;
            let b = self.duration as int;
            assert(0 <= (a * WHOLE) / b < WHOLE) by (nonlinear_arith)
                requires
                    0 <= a < b,
                    WHOLE == 1073741824,
            ;
        }
        let raw: u128 = elapsed as u128 * 1073741824 / self.duration as u128;
        raw as i64
    }

    /// The value of an easing curve that the progress at `now` depends on, `None` during the
    /// delay.
    pub fn easing_query_at(&self, now: u64) -> (res: Option<EasingQuery>)
        requires
            self.wf(),
        ensures
            res == self.query(now as int),
            res matches Some(query) ==> 0 <= query.input <= WHOLE,
    {
        if self.elapsed_at(now) < self.start_delay {
            return None;
        }
        let raw = self.raw_at(now);
        match (self.workspace_reveal, self.reveal_split()) {
            (Some((_, reveal_easing)), Some(split)) => if raw < split {
                assert(0 <= (raw * WHOLE) / (split as int) <= WHOLE) by (nonlinear_arith)
                    requires
                        0 <= raw < split,
                        WHOLE == 1073741824,
                ;
                Some(EasingQuery { easing: self.easing, input: raw * 1073741824 / split })
            } else {
                assert(0 <= ((raw - split) * WHOLE) / (WHOLE - split) <= WHOLE)
                    by (nonlinear_arith)
                    requires
                        split <= raw <= WHOLE,
                        split < WHOLE,
                        WHOLE == 1073741824,
                ;
                Some(
                    EasingQuery {
                        easing: reveal_easing,
                        input: (raw - split) * 1073741824 / (WHOLE - split),
                    },
                )
            },
            _ => Some(EasingQuery { easing: self.easing, input: raw }),
        }
    }

    /// How far the window moves or grows at most, in pixels.
    pub fn max_travel_px(&self) -> (res: i64)
        ensures
            res == self.travel(),
            0 <= res <= 0x8_0000_0000,
    {
        if let Some((monitor, to_left)) = self.workspace_flight {
            let exit: i64 = if to_left {
                monitor.left as i64 - self.start_rect.wide_width()
            } else {
                monitor.right as i64
            };
            return distance(exit, self.start_rect.left as i64);
        }
        let dx = distance(self.target_rect.left as i64, self.start_rect.left as i64);
        let dy = distance(self.target_rect.top as i64, self.start_rect.top as i64);
        let dw = distance(self.target_rect.wide_width(), self.start_rect.wide_width());
        let dh = distance(self.target_rect.wide_height(), self.start_rect.wide_height());
        larger(larger(dx, dy), larger(dw, dh))
    }

    fn done_at(&self, raw: i64, eased: i64) -> (res: bool)
        requires
            raw <= WHOLE,
        ensures
            res == self.is_done(raw as int, eased as int),
    {
        if raw == WHOLE {
            return true;
        }
        if self.easing.can_overshoot {
            return false;
        }
        let travel = self.max_travel_px();
        if travel > 0 {
            let rest: i128 = WHOLE as i128 - eased as i128;
            assert(-0x8_0000_0000_0000_0000_0000_0000_0000 <= rest * travel
                <= 0x8_0000_0000_0000_0000_0000_0000_0000) by (nonlinear_arith)
                requires
                    -0x1_0000_0000_0000_0000 <= rest <= 0x1_0000_0000_0000_0000,
                    0 <= travel <= 0x8_0000_0000,
            ;
            rest * travel as i128 <= 1073741824
        } else {
            eased >= COMPLETE_PROGRESS
        }
    }

    /// The progress at `now`, where `eased` is the value of the curve that it depends on. The first
    /// call starts the clock.
    pub fn eased_progress_at(&mut self, now: u64, eased: i64) -> (res: i64)
        requires
            old(self).wf(),
        ensures
            res == old(self).progress(now as int, eased as int),
            *final(self) == old(self).started(now),
            final(self).wf(),
    {
        let fresh = *self;
        if self.start_time.is_none() {
            self.start_time = Some(now);
        }
        if fresh.elapsed_at(now) < fresh.start_delay {
            return 0;
        }
        let raw = fresh.raw_at(now);
        if let Some(split) = fresh.reveal_split() {
            let value: i64 = clamp_to_whole(eased as i128);
            if raw < split {
                assert(0 <= split * value <= 0x1000_0000_0000_0000) by (nonlinear_arith)
                    requires
                        0 <= split <= 1073741824,
                        0 <= value <= 1073741824,
                ;
                return split * value / 1073741824;
            }
            let rest: i64 = WHOLE - split;
            assert(0 <= rest * value <= 0x1000_0000_0000_0000) by (nonlinear_arith)
                requires
                    0 <= rest <= 1073741824,
                    0 <= value <= 1073741824,
            ;
            return split + rest * value / 1073741824;
        }
        if fresh.done_at(raw, eased) {
            WHOLE
        } else {
            eased
        }
    }

    /// The part of the reveal that is over at `now`, `None` until the window has left.
    pub fn workspace_reveal_progress_at(&mut self, now: u64, eased: i64) -> (res: Option<i64>)
        requires
            old(self).wf(),
        ensures
            ({
                let progress = old(self).progress(now as int, eased as int);
                match (old(self).workspace_reveal, old(self).split()) {
                    (Some(appear), Some(split)) => if int_max(
                        old(self).elapsed(now as int) - old(self).start_delay,
                        0,
                    ) < old(self).duration - appear.0 || progress < split {
                        res is None
                    } else {
                        res matches Some(found) && found == old(self).reveal_scale(progress)
                    },
                    _ => res is None,
                }
            }),
            *final(self) == (if old(self).workspace_reveal is Some {
                old(self).started(now)
            } else {
                *old(self)
            }),
            final(self).wf(),
    {
        let fresh = *self;
        let appear = match fresh.workspace_reveal {
            Some((appear, _)) => appear,
            None => {
                return None;
            },
        };
        let split = match fresh.reveal_split() {
            Some(split) => split,
            None => {
                return None;
            },
        };
        let progress = self.eased_progress_at(now, eased);
        let elapsed = fresh.elapsed_at(now);
        let moving: u64 = if elapsed >= fresh.start_delay {
            elapsed - fresh.start_delay
        } else {
            0
        };
        if moving < fresh.duration - appear || progress < split {
            return None;
        }
        Some(fresh.scale_at(progress, split))
    }

    fn scale_at(&self, progress: i64, split: i64) -> (res: i64)
        requires
            self.split() == Some(split as int),
            0 <= split < WHOLE,
            split <= progress,
        ensures
            res == self.reveal_scale(progress as int),
            0 <= res <= WHOLE,
    {
        let gone: i128 = (progress as i128 - split as i128) * 1073741824;
        clamp_to_whole(gone / (WHOLE as i128 - split as i128))
    }

    /// Where the window is at some progress, if that can be represented.
    pub fn rect_at_progress(&self, progress: i64) -> (res: Option<Rect>)
        requires
            self.wf(),
            self.split() is Some ==> 0 <= progress,
        ensures
            res == self.rect_at(progress as int),
    {
        let split = self.reveal_split();
        if let Some(split) = split {
            if progress >= split {
                return self.revealed_rect(self.scale_at(progress, split));
            }
        }
        let (monitor, to_left) = match self.workspace_flight {
            Some(flight) => flight,
            None => {
                return interpolate(&self.start_rect, &self.target_rect, progress);
            },
        };
        let x: i64 = if to_left {
            monitor.left as i64 - self.start_rect.wide_width()
        } else {
            monitor.right as i64
        };
        let exit = match Rect::checked_xy(
            x,
            self.start_rect.top as i64,
            self.start_rect.wide_width(),
            self.start_rect.wide_height(),
        ) {
            Some(exit) => exit,
            None => {
                return None;
            },
        };
        let along: i64 = match split {
            Some(split) => {
                assert(0 <= (progress * WHOLE) / (split as int) <= WHOLE) by (nonlinear_arith)
                    requires
                        0 <= progress < split,
                        WHOLE == 1073741824,
                ;
                progress * 1073741824 / split
            },
            None => clamp_to_whole(progress as i128),
        };
        interpolate(&self.start_rect, &exit, along)
    }

    fn revealed_rect(&self, scale: i64) -> (res: Option<Rect>)
        requires
            0 <= scale <= WHOLE,
        ensures
            ({
                let w = rounded(self.target_rect.w() * scale);
                let h = rounded(self.target_rect.h() * scale);
                let x = self.target_rect.left + trunc_div(self.target_rect.w() - w, 2);
                let y = self.target_rect.top + trunc_div(self.target_rect.h() - h, 2);
                res == (if Rect::xy_fits(x, y, w, h) {
                    Some(Rect::xy_spec(x, y, w, h))
                } else {
                    None
                })
            }),
    {
        let width: i128 = self.target_rect.wide_width() as i128;
        let height: i128 = self.target_rect.wide_height() as i128;
        assert(-0x8000_0000_0000_0000 <= width * scale <= 0x8000_0000_0000_0000)
            by (nonlinear_arith)
            requires
                -0x1_0000_0000 <= width <= 0x1_0000_0000,
                0 <= scale <= 1073741824,
        ;
        assert(-0x8000_0000_0000_0000 <= height * scale <= 0x8000_0000_0000_0000)
            by (nonlinear_arith)
            requires
                -0x1_0000_0000 <= height <= 0x1_0000_0000,
                0 <= scale <= 1073741824,
        ;
        let w = round_parts(width * scale as i128);
        let h = round_parts(height * scale as i128);
        let x: i128 = self.target_rect.left as i128 + half(width - w);
        let y: i128 = self.target_rect.top as i128 + half(height - h);
        checked_rect(x, y, w, h)
    }

    /// The time that is left at `now`.
    pub fn remaining_at(&self, now: u64) -> (res: u64)
        requires
            self.start_delay + self.duration <= u64::MAX,
            self.start_time matches Some(start) ==> start + self.start_delay + self.duration
                <= u64::MAX,
        ensures
            res == (match self.start_time {
                Some(start) => int_max(start + self.start_delay + self.duration - now, 0),
                None => self.start_delay + self.duration,
            }),
    {
        match self.start_time {
            Some(start) => {
                let end: u64 = start + self.start_delay + self.duration;
                if end >= now {
                    end - now
                } else {
                    0
                }
            },
            None => self.start_delay + self.duration,
        }
    }

    /// Whether the animation is complete at `now`.
    pub fn is_complete(&mut self, now: u64, eased: i64) -> (res: bool)
        requires
            old(self).wf(),
        ensures
            res == (old(self).progress(now as int, eased as int) == WHOLE),
            *final(self) == old(self).started(now),
            final(self).wf(),
    {
        self.eased_progress_at(now, eased) == WHOLE
    }

    /// Where the window is at `now`, if that can be represented.
    pub fn current_rect(&mut self, now: u64, eased: i64) -> (res: Option<Rect>)
        requires
            old(self).wf(),
        ensures
            res == old(self).rect_at(old(self).progress(now as int, eased as int)),
            *final(self) == old(self).started(now),
            final(self).wf(),
    {
        let progress = self.eased_progress_at(now, eased);
        proof {
            lemma_revealing_progress(*old(self), now as int, eased as int);
        }
        self.rect_at_progress(progress)
    }

    /// Where the window is at `now` and how opaque it is, if both can be represented.
    pub fn current_state_at(&mut self, now: u64, eased: i64) -> (res: Option<
        (Rect, Option<OpacityValue>),
    >)
        requires
            old(self).wf(),
        ensures
            ({
                let progress = old(self).progress(now as int, eased as int);
                match (old(self).rect_at(progress), old(self).opacity_at(progress)) {
                    (None, _) => res is None,
                    (Some(rect), None) => res == Some((rect, None::<OpacityValue>)),
                    (Some(rect), Some(amount)) => if i64::MIN <= amount <= i64::MAX {
                        res == Some((rect, Some(OpacityValue { amount: amount as i64 })))
                    } else {
                        res is None
                    },
                }
            }),
            *final(self) == old(self).started(now),
            final(self).wf(),
    {
        let fresh = *self;
        let progress = self.eased_progress_at(now, eased);
        proof {
            lemma_revealing_progress(fresh, now as int, eased as int);
        }
        let rect = match fresh.rect_at_progress(progress) {
            Some(rect) => rect,
            None => {
                return None;
            },
        };
        match (fresh.start_opacity, fresh.target_opacity) {
            (Some(start), Some(end)) => {
                let gap: i128 = end.amount as i128 - start.amount as i128;
                assert(-0x1_0000_0000_0000_0000 * 0x1_0000_0000_0000_0000 / 2 <= gap * progress
                    <= 0x1_0000_0000_0000_0000 * 0x1_0000_0000_0000_0000 / 2 - 1)
                    by (nonlinear_arith)
                    requires
                        -0xffff_ffff_ffff_ffff <= gap <= 0xffff_ffff_ffff_ffff,
                        -0x8000_0000_0000_0000 <= progress <= 0x7fff_ffff_ffff_ffff,
                ;
                let product: i128 = gap * progress as i128;
                let moved: i128 = if product >= 0 {
                    product / 1073741824
                } else {
                    floor_negative(product)
                };
                let amount: i128 = start.amount as i128 + moved;
                if amount < i64::MIN as i128 || amount > i64::MAX as i128 {
                    return None;
                }
                Some((rect, Some(OpacityValue { amount: amount as i64 })))
            },
            _ => Some((rect, None)),
        }
    }
}

fn floor_negative(product: i128) -> (res: i128)
    requires
        product < 0,
    ensures
        res == (product as int) / 1073741824,
        -0x1_0000_0000_0000_0000_0000_0000_0000 <= res <= 0,
{
    // One more than the quotient of the next number above, negated.
    let above: i128 = -(product + 1);
    -(above / 1073741824) - 1
}

fn half(x: i128) -> (res: i128)
    requires
        -0x1_0000_0000_0000_0000 <= x <= 0x1_0000_0000_0000_0000,
    ensures
        res == trunc_div(x as int, 2),
{
    if x >= 0 {
        x / 2
    } else {
        -((-x) / 2)
    }
}

proof fn lemma_revealing_progress(state: WindowAnimationState, now: int, eased: int)
    requires
        state.wf(),
    ensures
        state.split() matches Some(split) ==> 0 <= split < WHOLE && 0 <= state.progress(now, eased)
            <= WHOLE,
{
    if let Some(split) = state.split() {
        let appear = state.workspace_reveal->0;
        let a = state.duration - appear.0;
        let b = state.duration as int;
        assert(0 <= (a * WHOLE) / b < WHOLE) by (nonlinear_arith)
            requires
                0 <= a < b,
                WHOLE == 1073741824,
        ;
        let value = clamp_whole(eased);
        assert(0 <= (split * value) / (WHOLE as int) <= WHOLE) by (nonlinear_arith)
            requires
                0 <= split <= WHOLE,
                0 <= value <= WHOLE,
                WHOLE == 1073741824,
        ;
        let rest = WHOLE - split;
        assert(0 <= (rest * value) / (WHOLE as int) <= rest) by (nonlinear_arith)
            requires
                0 <= rest <= WHOLE,
                0 <= value <= WHOLE,
                WHOLE == 1073741824,
        ;
    }
}

/// An animation starts where the window was and ends at its target.
pub proof fn movement_goes_from_start_to_target(state: WindowAnimationState)
    requires
        state.workspace_flight is None,
        state.workspace_reveal is None,
    ensures
        state.rect_at(0) == Some(state.start_rect),
        state.rect_at(WHOLE as int) == Some(state.target_rect),
{
    lemma_between_ends(state.start_rect, state.target_rect);
}

proof fn lemma_between_ends(a: Rect, b: Rect)
    ensures
        rect_between(a, b, 0) == Some(a),
        rect_between(a, b, WHOLE as int) == Some(b),
{
    assert forall|x: int, y: int| #[trigger] between(x, y, 0) == x && between(x, y, WHOLE as int)
        == y by {
        assert((y - x) * 0 == 0);
    }
    assert(between(a.left as int, b.left as int, 0) == a.left);
    assert(between(a.top as int, b.top as int, 0) == a.top);
    assert(between(a.w(), b.w(), 0) == a.w());
    assert(between(a.h(), b.h(), 0) == a.h());
}

/// A window that leaves its monitor is outside of it in the end, and has kept its size and height.
pub proof fn flight_leaves_the_monitor(state: WindowAnimationState, flight: (Rect, bool))
    requires
        state.workspace_flight == Some(flight),
        state.workspace_reveal is None,
        state.exit_rect(flight) is Some,
    ensures
        ({
            let exit = state.exit_rect(flight)->0;
            &&& state.rect_at(0) == Some(state.start_rect)
            &&& state.rect_at(WHOLE as int) == Some(exit)
            &&& exit.right <= flight.0.left || exit.left >= flight.0.right
            &&& exit.top == state.start_rect.top
            &&& exit.w() == state.start_rect.w()
            &&& exit.h() == state.start_rect.h()
        }),
{
    lemma_between_ends(state.start_rect, state.exit_rect(flight)->0);
}

proof fn lemma_rounded_monotonic(a: int, b: int)
    requires
        a <= b,
    ensures
        rounded(a) <= rounded(b),
{
    let d = 2 * WHOLE;
    if a >= 0 {
        vstd::arithmetic::div_mod::lemma_div_is_ordered(2 * a + WHOLE, 2 * b + WHOLE, d);
    } else if b < 0 {
        vstd::arithmetic::div_mod::lemma_div_is_ordered(2 * -b + WHOLE, 2 * -a + WHOLE, d);
    }
}

proof fn lemma_rounded_whole(k: int)
    ensures
        rounded(k * WHOLE) == k,
{
    let x = k * 1073741824;
    if k >= 0 {
        assert((2 * x + 1073741824) / 2147483648 == k);
    } else {
        assert((2 * -x + 1073741824) / 2147483648 == -k);
    }
    assert(k * WHOLE == x);
    assert(2 * WHOLE == 2147483648);
}

/// A window that leaves its monitor goes one way only.
pub proof fn flight_goes_one_way(a: int, b: int, p: int, q: int)
    requires
        0 <= p <= q <= WHOLE,
    ensures
        a <= b ==> between(a, b, p) <= between(a, b, q),
        a >= b ==> between(a, b, p) >= between(a, b, q),
{
    if a <= b {
        assert((b - a) * p <= (b - a) * q) by (nonlinear_arith)
            requires
                a <= b,
                p <= q,
        ;
        lemma_rounded_monotonic(a * WHOLE + (b - a) * p, a * WHOLE + (b - a) * q);
    }
    if a >= b {
        assert((b - a) * p >= (b - a) * q) by (nonlinear_arith)
            requires
                a >= b,
                p <= q,
        ;
        lemma_rounded_monotonic(a * WHOLE + (b - a) * q, a * WHOLE + (b - a) * p);
    }
}

/// A length that does not change on the way.
proof fn lemma_between_same(a: int, p: int)
    ensures
        between(a, a, p) == a,
{
    assert((a - a) * p == 0) by (nonlinear_arith);
    lemma_rounded_whole(a);
}

/// A window that leaves its monitor flies out and does not come back: it starts where it was, keeps
/// its height and its size all the way, never turns, and is outside of the monitor in the end.
pub proof fn flight_only_exits(state: WindowAnimationState, flight: (Rect, bool), p: int, q: int)
    requires
        state.workspace_flight == Some(flight),
        state.workspace_reveal is None,
        state.exit_rect(flight) is Some,
        state.start_rect.left < flight.0.right && state.start_rect.right > flight.0.left,
        0 <= p <= q <= WHOLE,
    ensures
        state.rect_at(0) == Some(state.start_rect),
        state.rect_at(p) matches Some(r) && r.top == state.start_rect.top && r.w()
            == state.start_rect.w() && r.h() == state.start_rect.h(),
        flight.1 ==> state.rect_at(q)->0.left <= state.rect_at(p)->0.left,
        !flight.1 ==> state.rect_at(q)->0.left >= state.rect_at(p)->0.left,
        state.rect_at(WHOLE as int) matches Some(r) && (r.right <= flight.0.left || r.left
            >= flight.0.right),
{
    let start = state.start_rect;
    let exit = state.exit_rect(flight)->0;
    flight_leaves_the_monitor(state, flight);
    flight_goes_one_way(start.left as int, exit.left as int, p, q);
    lemma_flight_at(start, exit, p);
    lemma_flight_at(start, exit, q);
}

/// A rectangle that moves to the side, somewhere on its way.
proof fn lemma_flight_at(start: Rect, exit: Rect, p: int)
    requires
        exit.top == start.top,
        exit.w() == start.w(),
        exit.h() == start.h(),
        0 <= p <= WHOLE,
    ensures
        rect_between(start, exit, p) matches Some(r) && r.left == between(
            start.left as int,
            exit.left as int,
            p,
        ) && r.top == start.top && r.w() == start.w() && r.h() == start.h(),
{
    lemma_between_ends(start, exit);
    let a = start.left as int;
    let b = exit.left as int;
    flight_goes_one_way(a, b, 0, p);
    flight_goes_one_way(a, b, p, WHOLE as int);
    assert(between(a, b, 0) == a && between(a, b, WHOLE as int) == b) by {
        assert((b - a) * 0 == 0);
        lemma_rounded_whole(a);
        lemma_rounded_whole(b);
        assert(a * WHOLE + (b - a) * WHOLE == b * WHOLE) by (nonlinear_arith);
    }
    lemma_between_same(start.top as int, p);
    lemma_between_same(start.w(), p);
    lemma_between_same(start.h(), p);
}

/// The last step of an animation that is complete early is at most one pixel.
pub proof fn last_step_is_not_seen(a: int, b: int, travel: int, eased: int)
    requires
        int_abs(b - a) <= travel,
        eased <= WHOLE,
        (WHOLE - eased) * travel <= COMPLETE_THRESHOLD_PX * WHOLE,
    ensures
        -1 <= between(a, b, eased) - b <= 1,
{
    let rest = WHOLE - eased;
    assert(-WHOLE <= (b - a) * rest <= WHOLE) by (nonlinear_arith)
        requires
            -travel <= b - a <= travel,
            0 <= rest,
            rest * travel <= WHOLE,
    ;
    assert(a * WHOLE + (b - a) * eased == b * WHOLE - (b - a) * rest) by (nonlinear_arith)
        requires
            rest == WHOLE - eased,
    ;
    lemma_rounded_whole(b - 1);
    lemma_rounded_whole(b + 1);
    lemma_rounded_monotonic((b - 1) * WHOLE, b * WHOLE - (b - a) * rest);
    lemma_rounded_monotonic(b * WHOLE - (b - a) * rest, (b + 1) * WHOLE);
}

/// During its delay an animation does not move.
pub proof fn delay_holds_at_start(state: WindowAnimationState, now: int, eased: int)
    requires
        state.elapsed(now) < state.start_delay,
    ensures
        state.progress(now, eased) == 0,
{
}

/// A window appears only after it has left, and then ends at its target.
pub proof fn reveal_follows_exit(state: WindowAnimationState, now: int)
    requires
        state.wf(),
        state.workspace_reveal is Some,
        state.elapsed(now) >= state.start_delay + state.duration,
    ensures
        state.progress(now, WHOLE as int) == WHOLE,
        state.rect_at(WHOLE as int) == Some(state.target_rect),
{
    lemma_revealing_progress(state, now, WHOLE as int);
    let split = state.split()->0;
    let rest = WHOLE - split;
    assert((rest * WHOLE) / (WHOLE as int) == rest) by (nonlinear_arith)
        requires
            WHOLE == 1073741824,
    ;
    assert((rest * WHOLE) / rest == WHOLE) by (nonlinear_arith)
        requires
            rest > 0,
            WHOLE == 1073741824,
    ;
    let w = state.target_rect.w();
    let h = state.target_rect.h();
    assert(rounded(w * WHOLE) == w);
    assert(rounded(h * WHOLE) == h);
}

/// A window that leaves to the left is to the left of its monitor in the end, one that leaves to
/// the right to the right of it.
pub proof fn flight_leaves_on_its_side(state: WindowAnimationState, flight: (Rect, bool))
    requires
        state.exit_rect(flight) is Some,
    ensures
        ({
            let exit = state.exit_rect(flight)->0;
            &&& flight.1 ==> exit.right == flight.0.left
            &&& !flight.1 ==> exit.left == flight.0.right
            &&& exit.top == state.start_rect.top && exit.bottom == state.start_rect.bottom
            &&& exit.w() == state.start_rect.w()
        }),
{
}

/// An animation is over once its delay and its time have passed, whatever its curve says, and it
/// has not begun before its delay has passed. A window that appears again does so in the end, once
/// its curve has.
pub proof fn animations_end_in_time(state: WindowAnimationState, now: int, eased: int)
    requires
        state.wf(),
    ensures
        state.start_time matches Some(start) ==> {
            &&& 0 <= now - start < state.start_delay ==> state.progress(now, eased) == 0
            &&& now - start >= state.start_delay + state.duration && state.workspace_reveal is None
                ==> state.progress(now, eased) == WHOLE
            &&& now - start >= state.start_delay + state.duration && eased == WHOLE
                ==> state.progress(now, eased) == WHOLE
        },
        state.start_time is None && state.start_delay > 0 ==> state.progress(now, eased) == 0,
{
    lemma_revealing_progress(state, now, eased);
    if let Some(split) = state.split() {
        let rest = WHOLE - split;
        assert((rest * WHOLE) / (WHOLE as int) == rest) by (nonlinear_arith)
            requires
                WHOLE == 1073741824,
        ;
    }
}

/// The curve is asked for at the time that has passed: at its start when the animation begins, at
/// its end when its time is over, and later for a later time.
pub proof fn curves_are_followed_in_time(state: WindowAnimationState, one: int, two: int)
    requires
        state.wf(),
        state.workspace_reveal is None,
        state.start_time is Some,
        state.start_delay <= one - state.start_time->0 <= two - state.start_time->0,
    ensures
        ({
            let start = state.start_time->0 + state.start_delay;
            &&& state.query(one) matches Some(first)
            &&& state.query(two) matches Some(second)
            &&& 0 <= first.input <= second.input <= WHOLE
            &&& first.easing == state.easing
            &&& one == start && state.duration > 0 ==> first.input == 0
            &&& two - start >= state.duration ==> second.input == WHOLE
            &&& one - start < state.duration ==> first.input * state.duration <= (one - start)
                * WHOLE < (first.input + 1) * state.duration
        }),
{
    let start = state.start_time->0 + state.start_delay;
    let d = state.duration as int;
    let a = one - start;
    let b = two - start;
    if a < d {
        let q = (a * WHOLE) / d;
        assert(0 <= q < WHOLE && q * d <= a * WHOLE < (q + 1) * d && (a == 0 ==> q == 0))
            by (nonlinear_arith)
            requires
                q == (a * WHOLE) / d,
                0 <= a < d,
                WHOLE == 1073741824,
        ;
        if b < d {
            let r = (b * WHOLE) / d;
            assert(q <= r && r < WHOLE) by (nonlinear_arith)
                requires
                    q == (a * WHOLE) / d,
                    r == (b * WHOLE) / d,
                    0 <= a <= b,
                    b < d,
                    WHOLE == 1073741824,
            ;
        }
    }
}

/// The opacity goes from where it starts to where it ends.
pub proof fn opacity_goes_from_start_to_end(state: WindowAnimationState, p: int)
    requires
        state.start_opacity is Some,
        state.target_opacity is Some,
        0 <= p <= WHOLE,
    ensures
        ({
            let start = state.start_opacity->0.amount;
            let target = state.target_opacity->0.amount;
            &&& state.opacity_at(0) == Some(start as int)
            &&& state.opacity_at(WHOLE as int) == Some(target as int)
            &&& state.opacity_at(p) matches Some(amount)
            &&& start <= target ==> start <= amount <= target
            &&& start >= target ==> target <= amount <= start
        }),
{
    let gap = state.target_opacity->0.amount - state.start_opacity->0.amount;
    assert((gap * 0) / (WHOLE as int) == 0 && (gap * WHOLE) / (WHOLE as int) == gap)
        by (nonlinear_arith)
        requires
            WHOLE == 1073741824,
    ;
    let moved = (gap * p) / (WHOLE as int);
    assert((gap >= 0 ==> 0 <= moved <= gap) && (gap <= 0 ==> gap <= moved <= 0))
        by (nonlinear_arith)
        requires
            moved == (gap * p) / (WHOLE as int),
            0 <= p <= WHOLE,
            WHOLE == 1073741824,
    ;
}

/// A window that moves is on its way between where it was and where it goes, at every progress
/// between none and all.
pub proof fn movement_stays_on_its_way(state: WindowAnimationState, p: int)
    requires
        state.workspace_flight is None,
        state.workspace_reveal is None,
        0 <= p <= WHOLE,
    ensures
        state.rect_at(p) matches Some(now) ==> {
            let a = state.start_rect;
            let b = state.target_rect;
            &&& int_min(a.left as int, b.left as int) <= now.left <= int_max(
                a.left as int,
                b.left as int,
            )
            &&& int_min(a.top as int, b.top as int) <= now.top <= int_max(a.top as int, b.top as int)
            &&& int_min(a.w(), b.w()) <= now.w() <= int_max(a.w(), b.w())
            &&& int_min(a.h(), b.h()) <= now.h() <= int_max(a.h(), b.h())
        },
{
    let a = state.start_rect;
    let b = state.target_rect;
    lemma_between_within(a.left as int, b.left as int, p);
    lemma_between_within(a.top as int, b.top as int, p);
    lemma_between_within(a.w(), b.w(), p);
    lemma_between_within(a.h(), b.h(), p);
}

proof fn lemma_between_within(a: int, b: int, p: int)
    requires
        0 <= p <= WHOLE,
    ensures
        int_min(a, b) <= between(a, b, p) <= int_max(a, b),
{
    flight_goes_one_way(a, b, 0, p);
    flight_goes_one_way(a, b, p, WHOLE as int);
    assert(a * WHOLE + (b - a) * 0 == a * WHOLE) by (nonlinear_arith);
    assert(a * WHOLE + (b - a) * WHOLE == b * WHOLE) by (nonlinear_arith);
    lemma_rounded_whole(a);
    lemma_rounded_whole(b);
}

/// A window that appears again grows from nothing to its target, with the target's middle for its
/// own.
pub proof fn reveals_grow_around_the_target(state: WindowAnimationState, progress: int)
    requires
        state.wf(),
        state.workspace_reveal is Some,
        state.split()->0 <= progress <= WHOLE,
        state.target_rect.w() >= 0,
        state.target_rect.h() >= 0,
    ensures
        ({
            let target = state.target_rect;
            &&& state.rect_at(WHOLE as int) == Some(target)
            &&& state.rect_at(state.split()->0) matches Some(first) ==> first.w() == 0 && first.h()
                == 0
            &&& state.rect_at(progress) matches Some(now) ==> {
                &&& target.left <= now.left && now.right <= target.right
                &&& target.top <= now.top && now.bottom <= target.bottom
                &&& -1 <= (now.left - target.left) - (target.right - now.right) <= 1
                &&& -1 <= (now.top - target.top) - (target.bottom - now.bottom) <= 1
            }
        }),
{
    lemma_revealing_progress(state, 0, 0);
    let split = state.split()->0;
    let rest = WHOLE - split;
    let w = state.target_rect.w();
    let h = state.target_rect.h();
    assert((rest * WHOLE) / rest == WHOLE && (0 * WHOLE) / rest == 0) by (nonlinear_arith)
        requires
            rest > 0,
    ;
    lemma_rounded_whole(w);
    lemma_rounded_whole(h);
    lemma_rounded_whole(0);
    assert(w * 0 == 0 && h * 0 == 0);
    let scale = state.reveal_scale(progress);
    assert(0 <= w * scale <= w * WHOLE && 0 <= h * scale <= h * WHOLE) by (nonlinear_arith)
        requires
            0 <= scale <= WHOLE,
            w >= 0,
            h >= 0,
    ;
    assert(0 * WHOLE == 0);
    lemma_rounded_monotonic(0, w * scale);
    lemma_rounded_monotonic(w * scale, w * WHOLE);
    lemma_rounded_monotonic(0, h * scale);
    lemma_rounded_monotonic(h * scale, h * WHOLE);
}

} // verus!
