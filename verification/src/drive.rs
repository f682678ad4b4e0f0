//! The kinematic model: constant-curvature forward simulation.
//!
//! A drive state moves along a straight line when its curvature is below the
//! straight-line threshold, and otherwise along an arc.  The arc offsets are
//! the swept angle's `sin(u)/u` and `(1 - cos(u))/u` factors scaled by the
//! travelled distance and rotated into the heading frame, so the two cases
//! agree exactly when the swept angle rounds to zero.

use vstd::prelude::*;
use crate::fixed::{abs_int, mul_fx, mul_fx_spec, tdiv, POS_LIMIT, SCALE};
use crate::points::Pos;
use crate::trig::{cos_fx, cos_fx_spec, cosc_fx, cosc_spec, sin_fx, sin_fx_spec, sinc_fx,
    sinc_spec, STEP_ARG_MAX};

verus! {

/// Curvature magnitudes below this threshold drive straight.
pub const CURVE_EPS_FX: i64 = 1_000;

/// Largest curvature the planner ever samples: the inverse of a 0.3 meter
/// turn radius.
pub const MAX_CURVATURE: i64 = 3_333_333;

/// Spacing between sampled curvatures: one third of `MAX_CURVATURE`.
pub const CURVE_SAMPLE_UNIT: i64 = 1_111_111;

/// Largest curvature magnitude a well-formed state may carry.
pub const CURVE_LIMIT: i64 = 4_000_000;

/// Largest speed magnitude a well-formed state may carry: ten meters per
/// second.
pub const SPEED_LIMIT: i64 = 10_000_000;

/// Largest distance a single step may travel: four meters.
pub const STEP_DIST_LIMIT: i64 = 4_000_000;

/// Largest heading magnitude a well-formed state may carry.
pub const ANGLE_LIMIT: i64 = 1_000_000_000_000_000;

/// The vehicle's instantaneous kinematic state.
#[derive(Clone, Copy, PartialEq, Eq, Structural, Debug)]
pub struct DriveState {
    pub pos: Pos,
    /// Heading, in fixed-point radians.
    pub angle: i64,
    /// Signed inverse turn radius; zero drives straight.
    pub curvature: i64,
    /// Forward speed, in fixed-point meters per second.
    pub speed: i64,
}

impl DriveState {
    pub open spec fn wf(self) -> bool {
        &&& abs_int(self.pos.x as int) <= POS_LIMIT
        &&& abs_int(self.pos.y as int) <= POS_LIMIT
        &&& abs_int(self.angle as int) <= ANGLE_LIMIT
        &&& abs_int(self.curvature as int) <= CURVE_LIMIT
        &&& abs_int(self.speed as int) <= SPEED_LIMIT
    }
}

/// Exact relation between a state, a travelled distance, and the stepped
/// state.  The straight branch moves `dist` along the heading; the arc branch
/// rotates the arc offsets `dist·sinc(u)` and `dist·cosc(u)` into the heading
/// frame and advances the heading by the swept angle `u = curvature·dist`.
pub open spec fn is_step_of(s: DriveState, dist: int, r: DriveState) -> bool {
    let cs = cos_fx_spec(s.angle as int);
    let sn = sin_fx_spec(s.angle as int);
    if abs_int(s.curvature as int) < CURVE_EPS_FX {
        &&& r.pos.x as int == s.pos.x + mul_fx_spec(dist, cs)
        &&& r.pos.y as int == s.pos.y + mul_fx_spec(dist, sn)
        &&& r.angle == s.angle
        &&& r.curvature == s.curvature
        &&& r.speed == s.speed
    } else {
        let u = mul_fx_spec(s.curvature as int, dist);
        let lx = mul_fx_spec(dist, sinc_spec(u));
        let ly = mul_fx_spec(dist, cosc_spec(u));
        &&& r.pos.x as int == s.pos.x + mul_fx_spec(lx, cs) - mul_fx_spec(ly, sn)
        &&& r.pos.y as int == s.pos.y + mul_fx_spec(lx, sn) + mul_fx_spec(ly, cs)
        &&& r.angle as int == s.angle + u
        &&& r.curvature == s.curvature
        &&& r.speed == s.speed
    }
}

pub proof fn lemma_arc_factors_at_zero()
    ensures
        sinc_spec(0) == SCALE,
        cosc_spec(0) == 0,
{
    let m: int = abs_int(0);
    assert(m == 0);
    let m2: int = m * m;
    assert(m2 == 0) by (nonlinear_arith)
        requires
            m == 0,
            m2 == m * m;
    vstd::arithmetic::div_mod::lemma_div_of0(6_000_000);
    let a: int = m2 / 6_000_000;
    assert(a == 0);
    vstd::arithmetic::div_mod::lemma_div_of0(20_000_000_000_000);
    let b: int = (a * m2) / 20_000_000_000_000;
    assert(b == 0);
    vstd::arithmetic::div_mod::lemma_div_of0(42_000_000_000_000);
    let c: int = (b * m2) / 42_000_000_000_000;
    assert(c == 0);
    assert(sinc_spec(0) == SCALE - a + b - c);
    let h: int = m / 2;
    assert(h == 0);
    vstd::arithmetic::div_mod::lemma_div_of0(24_000_000_000_000);
    let a2: int = (m * m2) / 24_000_000_000_000;
    assert(a2 == 0);
    vstd::arithmetic::div_mod::lemma_div_of0(30_000_000_000_000);
    let b2: int = (a2 * m2) / 30_000_000_000_000;
    assert(b2 == 0);
    assert(cosc_spec(0) == h - a2 + b2);
}

pub proof fn lemma_mul_fx_one(d: int)
    ensures
        mul_fx_spec(d, SCALE as int) == d,
        mul_fx_spec(d, 0) == 0,
        mul_fx_spec(0, d) == 0,
{
    vstd::arithmetic::div_mod::lemma_div_of0(SCALE as int);
    assert(d * 0 == 0) by (nonlinear_arith);
    assert(0 * d == 0) by (nonlinear_arith);
    if d >= 0 {
        vstd::arithmetic::div_mod::lemma_div_multiples_vanish(d, SCALE as int);
        assert(d * SCALE == SCALE * d) by (nonlinear_arith);
    } else {
        vstd::arithmetic::div_mod::lemma_div_multiples_vanish(-d, SCALE as int);
        assert(-(d * SCALE) == SCALE * (-d)) by (nonlinear_arith);
    }
}

/// Straight-line kinematics: below the straight-line threshold — in
/// particular for curvature zero — the step moves the position by exactly
/// `dist·(cos heading, sin heading)` and leaves heading, curvature and speed
/// unchanged.
pub proof fn lemma_straight_step(s: DriveState, dist: int, r: DriveState)
    requires
        is_step_of(s, dist, r),
        abs_int(s.curvature as int) < CURVE_EPS_FX,
    ensures
        r.pos.x as int == s.pos.x + mul_fx_spec(dist, cos_fx_spec(s.angle as int)),
        r.pos.y as int == s.pos.y + mul_fx_spec(dist, sin_fx_spec(s.angle as int)),
        r.angle == s.angle,
        r.curvature == s.curvature,
        r.speed == s.speed,
{
}

/// Continuity of the step at vanishing turn: whenever the swept angle
/// `curvature·dist` rounds to zero — in particular for every curvature small
/// enough for the straight branch — the stepped position is exactly the
/// straight-line position `pos + dist·(cos heading, sin heading)` and the
/// heading is unchanged.
pub proof fn lemma_arc_continuity(s: DriveState, dist: int, r: DriveState)
    requires
        is_step_of(s, dist, r),
        mul_fx_spec(s.curvature as int, dist) == 0,
    ensures
        r.pos.x as int == s.pos.x + mul_fx_spec(dist, cos_fx_spec(s.angle as int)),
        r.pos.y as int == s.pos.y + mul_fx_spec(dist, sin_fx_spec(s.angle as int)),
        r.angle == s.angle,
        r.curvature == s.curvature,
        r.speed == s.speed,
{
    if abs_int(s.curvature as int) >= CURVE_EPS_FX {
        lemma_arc_factors_at_zero();
        lemma_mul_fx_one(dist);
        lemma_mul_fx_one(sin_fx_spec(s.angle as int));
    }
}

impl DriveState {
    /// Advances the state a fixed distance along its constant-curvature
    /// trajectory.
    pub fn step_distance(&self, dist: i64) -> (r: DriveState)
        requires
            self.wf(),
            abs_int(dist as int) <= STEP_DIST_LIMIT,
        ensures
            is_step_of(*self, dist as int, r),
            self.pos.x - 2 * abs_int(dist as int) <= r.pos.x as int
                <= self.pos.x + 2 * abs_int(dist as int),
            self.pos.y - 2 * abs_int(dist as int) <= r.pos.y as int
                <= self.pos.y + 2 * abs_int(dist as int),
            self.angle - STEP_ARG_MAX <= r.angle as int <= self.angle + STEP_ARG_MAX,
            r.curvature == self.curvature,
            r.speed == self.speed,
    {
        let c_abs: i64 = if self.curvature >= 0 {
            self.curvature
        } else {
            -self.curvature
        };
        let cs: i64 = cos_fx(self.angle);
        let sn: i64 = sin_fx(self.angle);
        if c_abs < CURVE_EPS_FX {
            proof {
                crate::fixed::lemma_mul_fx_bound(dist as int, cs as int, abs_int(dist as int),
                    SCALE as int);
                crate::fixed::lemma_mul_fx_bound(dist as int, sn as int, abs_int(dist as int),
                    SCALE as int);
                vstd::arithmetic::div_mod::lemma_div_multiples_vanish(
                    abs_int(dist as int),
                    SCALE as int,
                );
            }
            DriveState {
                pos: Pos { x: self.pos.x + mul_fx(dist, cs), y: self.pos.y + mul_fx(dist, sn) },
                angle: self.angle,
                curvature: self.curvature,
                speed: self.speed,
            }
        } else {
            proof {
                crate::fixed::lemma_mul_fx_bound(self.curvature as int, dist as int,
                    CURVE_LIMIT as int, STEP_DIST_LIMIT as int);
                assert((CURVE_LIMIT as int) * (STEP_DIST_LIMIT as int) == (SCALE as int)
                    * (STEP_ARG_MAX as int));
                vstd::arithmetic::div_mod::lemma_div_multiples_vanish(
                    STEP_ARG_MAX as int,
                    SCALE as int,
                );
            }
            let u: i64 = mul_fx(self.curvature, dist);
            let sc: i64 = sinc_fx(u);
            let cc: i64 = cosc_fx(u);
            proof {
                crate::fixed::lemma_mul_fx_bound(dist as int, sc as int, abs_int(dist as int),
                    SCALE as int);
                crate::fixed::lemma_mul_fx_bound(dist as int, cc as int, abs_int(dist as int),
                    SCALE as int);
                vstd::arithmetic::div_mod::lemma_div_multiples_vanish(
                    abs_int(dist as int),
                    SCALE as int,
                );
            }
            let lx: i64 = mul_fx(dist, sc);
            let ly: i64 = mul_fx(dist, cc);
            proof {
                crate::fixed::lemma_mul_fx_bound(lx as int, cs as int, abs_int(dist as int),
                    SCALE as int);
                crate::fixed::lemma_mul_fx_bound(lx as int, sn as int, abs_int(dist as int),
                    SCALE as int);
                crate::fixed::lemma_mul_fx_bound(ly as int, cs as int, abs_int(dist as int),
                    SCALE as int);
                crate::fixed::lemma_mul_fx_bound(ly as int, sn as int, abs_int(dist as int),
                    SCALE as int);
            }
            DriveState {
                pos: Pos {
                    x: self.pos.x + mul_fx(lx, cs) - mul_fx(ly, sn),
                    y: self.pos.y + mul_fx(lx, sn) + mul_fx(ly, cs),
                },
                angle: self.angle + u,
                curvature: self.curvature,
                speed: self.speed,
            }
        }
    }

    /// Advances the state for a time interval at its current speed.
    pub fn step(&self, time: i64) -> (r: DriveState)
        requires
            self.wf(),
            -400_000 <= time <= 400_000,
        ensures
            is_step_of(*self, tdiv(time * self.speed, SCALE as int), r),
            abs_int(tdiv(time * self.speed, SCALE as int)) <= STEP_DIST_LIMIT,
            self.pos.x - 2 * abs_int(tdiv(time * self.speed, SCALE as int)) <= r.pos.x as int
                <= self.pos.x + 2 * abs_int(tdiv(time * self.speed, SCALE as int)),
            self.pos.y - 2 * abs_int(tdiv(time * self.speed, SCALE as int)) <= r.pos.y as int
                <= self.pos.y + 2 * abs_int(tdiv(time * self.speed, SCALE as int)),
            self.angle - STEP_ARG_MAX <= r.angle as int <= self.angle + STEP_ARG_MAX,
            r.curvature == self.curvature,
            r.speed == self.speed,
    {
        proof {
            crate::fixed::lemma_mul_fx_bound(time as int, self.speed as int, 400_000,
                SPEED_LIMIT as int);
        }
        let dist: i64 = mul_fx(time, self.speed);
        self.step_distance(dist)
    }
}

} // verus!
