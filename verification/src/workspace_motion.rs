//! The motion of the view across workspaces.
//!
//! Positions are counted in parts of a workspace, velocities in such parts per second. The values
//! of easing curves are computed elsewhere and taken as arguments.

use vstd::prelude::*;

use crate::geometry::{int_max, int_min};
use crate::shares::{floor_div, WHOLE};

verus! {

/// The range of positions, 2^50 workspaces.
pub const POSITION_LIMIT: i128 = 0x1_0000_0000_0000_0000_0000;

/// The range of velocities, 2^90 workspaces per second.
pub const VELOCITY_LIMIT: i128 = 0x100_0000_0000_0000_0000_0000_0000_0000;

/// The range of what is worked out on the way.
pub const SCALE_LIMIT: i128 = 0x3fff_ffff_ffff_ffff_ffff_ffff_ffff_ffff;

/// How far to both sides of a point the slope of a curve is measured: one thousandth.
pub const DERIVATIVE_STEP: i64 = 1073741;

pub const NANOS_PER_SECOND: i64 = 1000000000;

/// A view that moves across workspaces side by side. When it gets another target it goes on from
/// where it is, as fast as it is.
#[derive(Debug, Clone, Copy, PartialEq, Eq, Structural)]
pub struct WorkspaceMotion {
    pub position: i128,
    pub velocity: i128,
    pub start: i128,
    pub target: i64,
    pub initial_velocity: i128,
    pub retargeted: bool,
}

/// The points of an easing curve that a sample depends on.
#[derive(Debug, Clone, Copy, PartialEq, Eq, Structural)]
pub struct CurvePoints {
    pub low: i64,
    pub at: i64,
    pub high: i64,
}

pub open spec fn within(x: int, limit: int) -> int {
    int_max(-limit, int_min(x, limit))
}

/// How much of the way is covered when moving on from a velocity: slowly at both ends.
pub open spec fn blend(t: int) -> int {
    (t * t * (3 * WHOLE - 2 * t)) / (WHOLE * WHOLE)
}

/// How much of the first velocity still counts for the position.
pub open spec fn momentum(t: int) -> int {
    (t * (WHOLE - t) * (WHOLE - t)) / (WHOLE * WHOLE)
}

/// The slope of the blend.
pub open spec fn blend_slope(t: int) -> int {
    (6 * t * (WHOLE - t)) / (WHOLE as int)
}

/// The slope of the momentum.
pub open spec fn momentum_slope(t: int) -> int {
    (WHOLE * WHOLE - 4 * t * WHOLE + 3 * t * t) / (WHOLE as int)
}

pub open spec fn clamped_time(progress: int) -> int {
    int_max(0, int_min(progress, WHOLE as int))
}

pub open spec fn points_for(progress: int) -> CurvePoints {
    let t = clamped_time(progress);
    CurvePoints {
        low: int_max(t - DERIVATIVE_STEP, 0) as i64,
        at: t as i64,
        high: int_min(t + DERIVATIVE_STEP, WHOLE as int) as i64,
    }
}

impl WorkspaceMotion {
    pub open spec fn wf(self) -> bool {
        &&& -POSITION_LIMIT <= self.position <= POSITION_LIMIT
        &&& -POSITION_LIMIT <= self.start <= POSITION_LIMIT
        &&& -VELOCITY_LIMIT <= self.velocity <= VELOCITY_LIMIT
        &&& -VELOCITY_LIMIT <= self.initial_velocity <= VELOCITY_LIMIT
    }

    /// The distance that the first velocity would cover in the whole time.
    pub open spec fn tangent(self, nanos: int) -> int {
        (self.initial_velocity * nanos) / (NANOS_PER_SECOND as int)
    }

    /// The position and the velocity on the way to a new target, as the first velocity dies away.
    pub open spec fn carried_on(self, t: int, nanos: int) -> (int, int) {
        let distance = self.target - self.start;
        (
            self.start + (distance * blend(t)) / (WHOLE as int) + (self.tangent(nanos) * momentum(
                t,
            )) / (WHOLE as int),
            (((distance * blend_slope(t)) / (WHOLE as int)) * NANOS_PER_SECOND) / nanos + (
            self.initial_velocity * momentum_slope(t)) / (WHOLE as int),
        )
    }

    /// The position and the velocity on an easing curve, where `eased` holds its values at the
    /// points for `progress`.
    pub open spec fn on_curve(self, progress: int, nanos: int, eased: CurvePoints) -> (int, int) {
        let distance = self.target - self.start;
        let points = points_for(progress);
        (
            self.start + (distance * eased.at) / (WHOLE as int),
            (((distance * (eased.high - eased.low)) / (points.high - points.low))
                * NANOS_PER_SECOND) / nanos,
        )
    }

    /// The motion at some progress of a time.
    pub open spec fn sampled(
        self,
        progress: int,
        nanos: int,
        eased: CurvePoints,
    ) -> WorkspaceMotion {
        if progress >= WHOLE || nanos <= 0 {
            WorkspaceMotion { position: self.target as i128, velocity: 0, ..self }
        } else {
            let (position, velocity) = if self.retargeted {
                self.carried_on(clamped_time(progress), nanos)
            } else {
                self.on_curve(progress, nanos, eased)
            };
            WorkspaceMotion {
                position: within(position, POSITION_LIMIT as int) as i128,
                velocity: within(velocity, VELOCITY_LIMIT as int) as i128,
                ..self
            }
        }
    }

    pub open spec fn with_target(self, target: i64) -> WorkspaceMotion {
        WorkspaceMotion {
            start: self.position,
            initial_velocity: self.velocity,
            target,
            retargeted: true,
            ..self
        }
    }

    /// A motion that begins at rest.
    pub fn new(start: i64, target: i64) -> (res: WorkspaceMotion)
        ensures
            res == (WorkspaceMotion {
                position: start as i128,
                velocity: 0,
                start: start as i128,
                target,
                initial_velocity: 0,
                retargeted: false,
            }),
            res.wf(),
    {
        WorkspaceMotion {
            position: start as i128,
            velocity: 0,
            start: start as i128,
            target,
            initial_velocity: 0,
            retargeted: false,
        }
    }

    /// Goes to another target from here.
    pub fn retarget(&mut self, target: i64)
        requires
            old(self).wf(),
        ensures
            *final(self) == old(self).with_target(target),
            final(self).wf(),
    {
        self.start = self.position;
        self.initial_velocity = self.velocity;
        self.target = target;
        self.retargeted = true;
    }

    fn carry_on(&self, t: i64, nanos: u64) -> (res: (i128, i128))
        requires
            self.wf(),
            0 <= t <= WHOLE,
            0 < nanos,
        ensures
            res.0 == within(self.carried_on(t as int, nanos as int).0, POSITION_LIMIT as int),
            res.1 == within(self.carried_on(t as int, nanos as int).1, VELOCITY_LIMIT as int),
    {
        let distance: i128 = self.target as i128 - self.start;
        let whole: i128 = 1073741824;
        let time: i128 = t as i128;
        let rest: i128 = whole - time;
        let square: i128 = 1152921504606846976;
        proof {
            let a = t as int;
            let r = WHOLE - t;
            assert(0 <= a * a <= 1152921504606846976) by (nonlinear_arith)
                requires
                    0 <= a <= 1073741824,
            ;
            assert(0 <= a * a * (3 * WHOLE - 2 * a) <= 3713820117856140824697372672)
                by (nonlinear_arith)
                requires
                    0 <= a * a <= 1152921504606846976,
                    0 <= a <= 1073741824,
                    WHOLE == 1073741824,
            ;
            assert(0 <= a * r <= 1152921504606846976) by (nonlinear_arith)
                requires
                    0 <= a <= 1073741824,
                    0 <= r <= 1073741824,
            ;
            assert(0 <= a * r * r <= 1237940039285380274899124224) by (nonlinear_arith)
                requires
                    0 <= a * r <= 1152921504606846976,
                    0 <= r <= 1073741824,
            ;
            assert(WHOLE * WHOLE == 1152921504606846976);
            assert(6 * a * r == 6 * (a * r)) by (nonlinear_arith);
            assert(4 * a * WHOLE == 4 * (a * 1073741824)) by (nonlinear_arith)
                requires
                    WHOLE == 1073741824,
            ;
            assert(3 * a * a == 3 * (a * a)) by (nonlinear_arith);
        }
        let blended: i128 = floor_div(time * time * (3 * whole - 2 * time), square);
        let kept: i128 = floor_div(time * rest * rest, square);
        let slope: i128 = floor_div(6 * (time * rest), whole);
        let kept_slope: i128 = floor_div(square - 4 * (time * whole) + 3 * (time * time), whole);
        proof {
            assert(blended == blend(t as int));
            assert(kept == momentum(t as int));
            assert(slope == blend_slope(t as int));
            assert(kept_slope == momentum_slope(t as int));
            assert(distance == self.target - self.start);
        }
        proof {
            let d = distance as int;
            lemma_scale_bound(d, blended as int, WHOLE as int, 4, 0x2_0000_0000_0000_0000_0000);
            lemma_scale_bound(d, slope as int, WHOLE as int, 8, 0x2_0000_0000_0000_0000_0000);
            lemma_scale_bound(
                self.initial_velocity as int,
                kept_slope as int,
                WHOLE as int,
                8,
                VELOCITY_LIMIT as int,
            );
        }
        let covered: i128 = scale(distance, blended, whole);
        let rate: i128 = scale(distance, slope, whole);
        let left: i128 = scale(self.initial_velocity, kept_slope, whole);
        let speed: i128 = scale(rate, 1000000000, nanos as i128);
        let tangent: i128 = scale(self.initial_velocity, nanos as i128, 1000000000);
        proof {
            lemma_scale_bound(tangent as int, kept as int, WHOLE as int, 1, SCALE_LIMIT as int);
        }
        let carried: i128 = scale(tangent, kept, whole);
        proof {
            let exact = (self.initial_velocity * nanos) / (NANOS_PER_SECOND as int);
            assert(exact == self.tangent(nanos as int));
            if tangent != exact && kept > 0 {
                lemma_far_out(exact, kept as int);
                lemma_far_out(tangent as int, kept as int);
            } else if kept == 0 {
                assert(exact * kept == 0) by (nonlinear_arith)
                    requires
                        kept == 0,
                ;
                assert(tangent * kept == 0) by (nonlinear_arith)
                    requires
                        kept == 0,
                ;
            }
        }
        (limited(self.start + covered + carried, POSITION_LIMIT), limited(
            speed + left,
            VELOCITY_LIMIT,
        ))
    }

    fn follow_curve(&self, progress: i64, nanos: u64, eased: &CurvePoints) -> (res: (i128, i128))
        requires
            self.wf(),
            0 < nanos,
            progress < WHOLE,
        ensures
            res.0 == within(
                self.on_curve(progress as int, nanos as int, *eased).0,
                POSITION_LIMIT as int,
            ),
            res.1 == within(
                self.on_curve(progress as int, nanos as int, *eased).1,
                VELOCITY_LIMIT as int,
            ),
    {
        let distance: i128 = self.target as i128 - self.start;
        let points = sample_points(progress);
        let width: i128 = points.high as i128 - points.low as i128;
        let rise: i128 = eased.high as i128 - eased.low as i128;
        proof {
            let d = distance as int;
            lemma_scale_bound(
                d,
                eased.at as int,
                WHOLE as int,
                0x2_0000_0000,
                0x2_0000_0000_0000_0000_0000,
            );
            assert(0x1000_0000_0001 * width >= 0x1_0000_0000_0000_0000) by (nonlinear_arith)
                requires
                    width >= 0x10_0000,
            ;
            lemma_scale_bound(
                d,
                rise as int,
                width as int,
                0x1000_0000_0001,
                0x1_0001_0000_0000_0000_0000,
            );
        }
        let covered: i128 = scale(distance, eased.at as i128, 1073741824);
        let rate: i128 = scale(distance, rise, width);
        let speed: i128 = scale(rate, 1000000000, nanos as i128);
        (limited(self.start + covered, POSITION_LIMIT), limited(speed, VELOCITY_LIMIT))
    }

    /// Moves to where the view is at some progress of a time. `eased` holds the values of the curve
    /// at the points for that progress.
    pub fn sample(&mut self, progress: i64, nanos: u64, eased: &CurvePoints)
        requires
            old(self).wf(),
        ensures
            *final(self) == old(self).sampled(progress as int, nanos as int, *eased),
            final(self).wf(),
    {
        if progress >= WHOLE || nanos == 0 {
            self.position = self.target as i128;
            self.velocity = 0;
            return;
        }
        let (position, velocity) = if self.retargeted {
            let t: i64 = if progress > 0 {
                progress
            } else {
                0
            };
            self.carry_on(t, nanos)
        } else {
            self.follow_curve(progress, nanos, eased)
        };
        self.position = position;
        self.velocity = velocity;
    }
}

fn limited(x: i128, limit: i128) -> (res: i128)
    requires
        0 <= limit,
    ensures
        res == within(x as int, limit as int),
        -limit <= res <= limit,
{
    if x > limit {
        limit
    } else if x < -limit {
        -limit
    } else {
        x
    }
}

/// Scaling in two steps, first by the part that divides evenly.
proof fn lemma_scale(a: int, b: int, c: int)
    requires
        0 < c,
    ensures
        (a * b) / c == (a / c) * b + ((a % c) * b) / c,
        b >= 0 ==> 0 <= ((a % c) * b) / c <= b,
        b <= 0 ==> b <= ((a % c) * b) / c <= 0,
{
    let q = a / c;
    let r = a % c;
    vstd::arithmetic::div_mod::lemma_fundamental_div_mod(a, c);
    vstd::arithmetic::div_mod::lemma_mod_bound(a, c);
    let x = r * b;
    vstd::arithmetic::div_mod::lemma_fundamental_div_mod(x, c);
    vstd::arithmetic::div_mod::lemma_mod_bound(x, c);
    let y = x / c;
    assert(a * b == c * (q * b + y) + x % c) by (nonlinear_arith)
        requires
            a == c * q + r,
            x == r * b,
            x == c * y + x % c,
    ;
    assert((q * b + y) * c == c * (q * b + y)) by (nonlinear_arith);
    vstd::arithmetic::div_mod::lemma_fundamental_div_mod_converse(a * b, c, q * b + y, x % c);
    if b >= 0 {
        assert(0 <= y && y <= b) by (nonlinear_arith)
            requires
                x == c * y + x % c,
                0 <= x % c < c,
                x == r * b,
                0 <= r < c,
                b >= 0,
        ;
    }
    if b <= 0 {
        assert(b <= y && y <= 0) by (nonlinear_arith)
            requires
                x == c * y + x % c,
                0 <= x % c < c,
                x == r * b,
                0 <= r < c,
                b <= 0,
        ;
    }
}

/// Scaling by a bounded factor keeps numbers bounded.
proof fn lemma_scale_bound(a: int, b: int, c: int, factor: int, bound: int)
    requires
        0 < c,
        0 <= bound,
        0 <= factor,
        -bound <= a <= bound,
        -(factor * c) <= b <= factor * c,
    ensures
        -(bound * factor) <= (a * b) / c <= bound * factor,
{
    let most = bound * factor;
    assert(-(most * c) <= a * b <= most * c) by (nonlinear_arith)
        requires
            -bound <= a <= bound,
            -(factor * c) <= b <= factor * c,
            most == bound * factor,
            0 <= bound,
            0 <= factor,
            0 < c,
    ;
    let x = a * b;
    let q = x / c;
    vstd::arithmetic::div_mod::lemma_fundamental_div_mod(x, c);
    vstd::arithmetic::div_mod::lemma_mod_bound(x, c);
    assert(-most <= q && q <= most) by (nonlinear_arith)
        requires
            x == c * q + x % c,
            0 <= x % c < c,
            -(most * c) <= x <= most * c,
            0 < c,
    ;
}

/// `a * b / c`, rounded down and within the range of this function. The product need not be
/// representable.
fn scale(a: i128, b: i128, c: i128) -> (res: i128)
    requires
        -SCALE_LIMIT <= a <= SCALE_LIMIT,
        -0x2_0000_0000_0000_0000 <= b <= 0x2_0000_0000_0000_0000,
        0 < c <= 0x1_0000_0000_0000_0000,
        c <= 0x8000_0000 || -0x8000_0000 <= b <= 0x8000_0000,
    ensures
        res == within((a * b) / (c as int), SCALE_LIMIT as int),
        -SCALE_LIMIT <= res <= SCALE_LIMIT,
{
    let quotient: i128 = floor_div(a, c);
    proof {
        vstd::arithmetic::div_mod::lemma_fundamental_div_mod(a as int, c as int);
        vstd::arithmetic::div_mod::lemma_mod_bound(a as int, c as int);
        lemma_scale(a as int, b as int, c as int);
        assert(quotient * c == c * quotient) by (nonlinear_arith);
    }
    let remainder: i128 = a - quotient * c;
    assert(-0x1_0000_0000_0000_0000_0000_0000_0000 <= remainder * b
        <= 0x1_0000_0000_0000_0000_0000_0000_0000) by (nonlinear_arith)
        requires
            0 <= remainder < c,
            c <= 0x1_0000_0000_0000_0000,
            -0x2_0000_0000_0000_0000 <= b <= 0x2_0000_0000_0000_0000,
            c <= 0x8000_0000 || -0x8000_0000 <= b <= 0x8000_0000,
    ;
    let tail: i128 = floor_div(remainder * b, c);
    match quotient.checked_mul(b) {
        Some(product) => {
            if product > 0x5000_0000_0000_0000_0000_0000_0000_0000 {
                SCALE_LIMIT
            } else if product < -0x5000_0000_0000_0000_0000_0000_0000_0000 {
                -SCALE_LIMIT
            } else {
                limited(product + tail, SCALE_LIMIT)
            }
        },
        None => {
            if (quotient > 0) == (b > 0) {
                assert(quotient * b >= 0) by (nonlinear_arith)
                    requires
                        (quotient > 0) == (b > 0),
                ;
                SCALE_LIMIT
            } else {
                assert(quotient * b <= 0) by (nonlinear_arith)
                    requires
                        (quotient > 0) != (b > 0),
                ;
                -SCALE_LIMIT
            }
        },
    }
}

/// What is out of the range of scaling stays far out when it is scaled by no less than one part.
proof fn lemma_far_out(x: int, kept: int)
    requires
        x <= -SCALE_LIMIT || SCALE_LIMIT <= x,
        0 < kept,
    ensures
        x > 0 ==> (x * kept) / (WHOLE as int) > 4096 * POSITION_LIMIT,
        x < 0 ==> (x * kept) / (WHOLE as int) < -4096 * POSITION_LIMIT,
{
    assert(x > 0 ==> x * kept >= SCALE_LIMIT) by (nonlinear_arith)
        requires
            x <= -SCALE_LIMIT || SCALE_LIMIT <= x,
            0 < kept,
            SCALE_LIMIT > 0,
    ;
    assert(x < 0 ==> x * kept <= -SCALE_LIMIT) by (nonlinear_arith)
        requires
            x <= -SCALE_LIMIT || SCALE_LIMIT <= x,
            0 < kept,
            SCALE_LIMIT > 0,
    ;
}

/// The points of an easing curve that a sample depends on.
pub fn sample_points(progress: i64) -> (res: CurvePoints)
    ensures
        res == points_for(progress as int),
        0 <= res.low < res.high <= WHOLE,
        res.high - res.low >= DERIVATIVE_STEP,
{
    let t: i64 = if progress < 0 {
        0
    } else if progress > WHOLE {
        WHOLE
    } else {
        progress
    };
    let low: i64 = if t >= DERIVATIVE_STEP {
        t - DERIVATIVE_STEP
    } else {
        0
    };
    let high: i64 = if t + DERIVATIVE_STEP <= WHOLE {
        t + DERIVATIVE_STEP
    } else {
        WHOLE
    };
    CurvePoints { low, at: t, high }
}

/// A motion that gets another target goes on from the same place at the same velocity.
pub proof fn retargeting_keeps_position_and_velocity(
    motion: WorkspaceMotion,
    target: i64,
    nanos: int,
    eased: CurvePoints,
)
    requires
        motion.wf(),
        nanos > 0,
    ensures
        motion.with_target(target).sampled(0, nanos, eased).position == motion.position,
        motion.with_target(target).sampled(0, nanos, eased).velocity == motion.velocity,
{
    let m = motion.with_target(target);
    let d = m.target - m.start;
    assert(blend(0) == 0) by {
        assert(0int * 0 * (3 * WHOLE - 2 * 0) == 0);
    }
    assert(momentum(0) == 0) by {
        assert(0int * (WHOLE - 0) * (WHOLE - 0) == 0);
    }
    assert(blend_slope(0) == 0) by {
        assert(6 * 0int * (WHOLE - 0) == 0);
    }
    assert(momentum_slope(0) == WHOLE) by {
        assert(WHOLE * WHOLE == 1152921504606846976);
        assert(4 * 0int * WHOLE == 0);
    }
    assert(d * 0 == 0);
    assert(m.tangent(nanos) * 0 == 0);
    assert(0int / nanos == 0) by (nonlinear_arith)
        requires
            nanos > 0,
    ;
    let v = m.initial_velocity as int;
    assert((v * WHOLE) / (WHOLE as int) == v) by (nonlinear_arith)
        requires
            WHOLE == 1073741824,
    ;
}

/// A motion arrives at its latest target and rests there, at once if there is no time for it.
pub proof fn motion_arrives_at_rest(
    motion: WorkspaceMotion,
    progress: int,
    nanos: int,
    eased: CurvePoints,
)
    requires
        progress >= WHOLE || nanos <= 0,
    ensures
        motion.sampled(progress, nanos, eased).position == motion.target,
        motion.sampled(progress, nanos, eased).velocity == 0,
{
}

/// A motion that starts at rest is where its curve says: at its start where the curve is at its
/// start, at its target where the curve is at its end, and between the two for a value between. It
/// goes towards its target as long as the curve rises.
pub proof fn motion_follows_its_curve(
    motion: WorkspaceMotion,
    progress: int,
    nanos: int,
    eased: CurvePoints,
)
    requires
        motion.wf(),
        !motion.retargeted,
        0 <= progress < WHOLE,
        nanos > 0,
        0 <= eased.at <= WHOLE,
        eased.low <= eased.high,
    ensures
        ({
            let now = motion.sampled(progress, nanos, eased);
            &&& eased.at == 0 ==> now.position == motion.start
            &&& eased.at == WHOLE ==> now.position == motion.target
            &&& motion.start <= motion.target ==> motion.start <= now.position <= motion.target
                && now.velocity >= 0
            &&& motion.start >= motion.target ==> motion.target <= now.position <= motion.start
                && now.velocity <= 0
            &&& now.start == motion.start && now.target == motion.target && !now.retargeted
        }),
{
    let distance = motion.target - motion.start;
    let at = eased.at as int;
    let points = points_for(progress);
    let q = (distance * at) / (WHOLE as int);
    assert((distance >= 0 ==> 0 <= q <= distance) && (distance <= 0 ==> distance <= q <= 0) && (at
        == 0 ==> q == 0) && (at == WHOLE ==> q == distance)) by (nonlinear_arith)
        requires
            q == (distance * at) / (WHOLE as int),
            0 <= at <= WHOLE,
            WHOLE == 1073741824,
    ;
    let rise = eased.high - eased.low;
    let run = points.high - points.low;
    assert(run > 0);
    let slope = (distance * rise) / run;
    assert((distance >= 0 ==> slope >= 0) && (distance <= 0 ==> slope <= 0)) by (nonlinear_arith)
        requires
            slope == (distance * rise) / run,
            rise >= 0,
            run > 0,
    ;
    let v = (slope * NANOS_PER_SECOND) / nanos;
    assert((slope >= 0 ==> v >= 0) && (slope <= 0 ==> v <= 0)) by (nonlinear_arith)
        requires
            v == (slope * NANOS_PER_SECOND) / nanos,
            NANOS_PER_SECOND == 1000000000,
            nanos > 0,
    ;
}

} // verus!
