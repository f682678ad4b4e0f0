//! The local cost model.
//!
//! The cost of taking a step into a candidate state is a fixed negative bias
//! plus, for every nearby landmark, a proximity penalty that ramps linearly
//! from `PROXIMITY_MAX_WEIGHT` at distance zero down to zero at
//! `PROXIMITY_START_DIST`, plus a stubbed directional-travel penalty, plus a
//! quadratic penalty on the state's curvature.

use vstd::prelude::*;
use vstd::arithmetic::div_mod::{lemma_div_is_ordered, lemma_div_pos_is_pos,
    lemma_div_multiples_vanish};
use vstd::arithmetic::mul::lemma_mul_inequality;
use crate::drive::{DriveState, CURVE_LIMIT};
use crate::fixed::abs_int;
use crate::points::{dist_sq_spec, pt_ok, sqrt_floor, Point, MAX_LANDMARKS};

verus! {

/// Distance at which the proximity penalty starts: 0.4 meters.
pub const PROXIMITY_START_DIST: i64 = 400_000;

/// Proximity penalty at distance zero: 5 cost units.
pub const PROXIMITY_MAX_WEIGHT: i64 = 5_000_000;

/// Divisor realizing the 0.1 weight of the squared-curvature penalty.
pub const CURVATURE_WEIGHT_DIV: i64 = 10_000_000;

/// Fixed bias added to every step: -0.1 cost units.
pub const STEP_BIAS: i64 = -100_000;

/// Bound on the magnitude of one local cost, for any landmark count the
/// store admits.
pub const LOCAL_COST_BOUND: i64 = 6_000_000_000_000;

/// The proximity penalty as a function of the distance to one landmark.
pub open spec fn proximity_penalty_spec(d: int) -> int
    recommends
        d >= 0,
{
    if d >= PROXIMITY_START_DIST {
        0
    } else {
        ((PROXIMITY_START_DIST - d) * PROXIMITY_MAX_WEIGHT) / (PROXIMITY_START_DIST as int)
    }
}

/// The proximity penalty never increases with distance, never goes below
/// zero, never exceeds its weight, and vanishes at and beyond the start
/// distance.
pub proof fn lemma_proximity_penalty_monotonic(d1: int, d2: int)
    requires
        0 <= d1 <= d2,
    ensures
        proximity_penalty_spec(d1) >= proximity_penalty_spec(d2),
        proximity_penalty_spec(d2) >= 0,
        proximity_penalty_spec(d1) <= PROXIMITY_MAX_WEIGHT,
        d2 >= PROXIMITY_START_DIST ==> proximity_penalty_spec(d2) == 0,
{
    lemma_proximity_penalty_bounds(d1);
    lemma_proximity_penalty_bounds(d2);
    if d2 < PROXIMITY_START_DIST {
        lemma_mul_inequality(
            PROXIMITY_START_DIST - d2,
            PROXIMITY_START_DIST - d1,
            PROXIMITY_MAX_WEIGHT as int,
        );
        lemma_div_is_ordered(
            (PROXIMITY_START_DIST - d2) * PROXIMITY_MAX_WEIGHT,
            (PROXIMITY_START_DIST - d1) * PROXIMITY_MAX_WEIGHT,
            PROXIMITY_START_DIST as int,
        );
    }
}

pub proof fn lemma_proximity_penalty_bounds(d: int)
    requires
        d >= 0,
    ensures
        0 <= proximity_penalty_spec(d) <= PROXIMITY_MAX_WEIGHT,
{
    if d < PROXIMITY_START_DIST {
        lemma_div_pos_is_pos(
            (PROXIMITY_START_DIST - d) * PROXIMITY_MAX_WEIGHT,
            PROXIMITY_START_DIST as int,
        );
        lemma_mul_inequality(
            PROXIMITY_START_DIST - d,
            PROXIMITY_START_DIST as int,
            PROXIMITY_MAX_WEIGHT as int,
        );
        lemma_div_is_ordered(
            (PROXIMITY_START_DIST - d) * PROXIMITY_MAX_WEIGHT,
            (PROXIMITY_START_DIST as int) * (PROXIMITY_MAX_WEIGHT as int),
            PROXIMITY_START_DIST as int,
        );
        assert((PROXIMITY_START_DIST as int) * (PROXIMITY_MAX_WEIGHT as int)
            == (PROXIMITY_START_DIST as int) * (PROXIMITY_MAX_WEIGHT as int));
        lemma_div_multiples_vanish(PROXIMITY_MAX_WEIGHT as int, PROXIMITY_START_DIST as int);
    }
}

/// Penalty for being close to one landmark: ramps from `PROXIMITY_MAX_WEIGHT`
/// at the landmark down to zero at `PROXIMITY_START_DIST` away.
pub fn calculate_avoid_edge_weight_for_point(state: DriveState, point: &Point) -> (w: i64)
    requires
        state.wf(),
        pt_ok(*point),
    ensures
        w == proximity_penalty_spec(sqrt_floor(dist_sq_spec(state.pos, point.pos))),
        0 <= w <= PROXIMITY_MAX_WEIGHT,
{
    let edge_dist: i64 = state.pos.dist(point.pos);
    proof {
        lemma_proximity_penalty_bounds(edge_dist as int);
    }
    if edge_dist >= PROXIMITY_START_DIST {
        0
    } else {
        let num: u64 = ((PROXIMITY_START_DIST - edge_dist) as u64) * (PROXIMITY_MAX_WEIGHT
            as u64);
        (num / (PROXIMITY_START_DIST as u64)) as i64
    }
}

/// Penalty for travelling the wrong angular sense around a directional
/// marker; an extension point that presently weighs nothing for any landmark.
pub fn calculate_travel_direction_weight_for_point(state: DriveState, point: &Point) -> (w: i64)
    ensures
        w == 0,
{
    0
}

/// The squared-curvature penalty, weighted by one tenth.
pub open spec fn curvature_weight_spec(c: int) -> int {
    (c * c) / (CURVATURE_WEIGHT_DIV as int)
}

/// Penalty on turning: one tenth of the squared curvature.
pub fn calculate_curvature_weight(state: DriveState) -> (w: i64)
    requires
        abs_int(state.curvature as int) <= CURVE_LIMIT,
    ensures
        w == curvature_weight_spec(state.curvature as int),
        0 <= w <= 1_600_000,
{
    let cm: u64 = if state.curvature >= 0 {
        state.curvature as u64
    } else {
        (-state.curvature) as u64
    };
    proof {
        assert((cm as int) * (cm as int) == (state.curvature as int) * (state.curvature as int)
            && (cm as int) * (cm as int) <= 16_000_000_000_000) by (nonlinear_arith)
            requires
                cm as int == abs_int(state.curvature as int),
                abs_int(state.curvature as int) <= 4_000_000;
        lemma_div_is_ordered(
            (cm as int) * (cm as int),
            16_000_000_000_000,
            CURVATURE_WEIGHT_DIV as int,
        );
    }
    ((cm * cm) / (CURVATURE_WEIGHT_DIV as u64)) as i64
}

/// Sum of the per-landmark penalties for a state at `pos`.
pub open spec fn penalties_sum_spec(pos: crate::points::Pos, pts: Seq<Point>) -> int
    decreases pts.len(),
{
    if pts.len() == 0 {
        0
    } else {
        penalties_sum_spec(pos, pts.drop_last()) + proximity_penalty_spec(
            sqrt_floor(dist_sq_spec(pos, pts.last().pos)),
        )
    }
}

/// The local cost of a state given the landmarks near it.
pub open spec fn local_cost_spec(s: DriveState, pts: Seq<Point>) -> int {
    STEP_BIAS + penalties_sum_spec(s.pos, pts) + curvature_weight_spec(s.curvature as int)
}

/// The local cost of stepping into `state` with `nearby_points` around it:
/// the fixed step bias, plus the proximity and directional penalties of every
/// nearby landmark, plus the curvature penalty.
pub fn distance(state: DriveState, nearby_points: &Vec<Point>) -> (w: i64)
    requires
        state.wf(),
        forall|i: int| 0 <= i < nearby_points@.len() ==> pt_ok(#[trigger] nearby_points@[i]),
        nearby_points@.len() <= MAX_LANDMARKS,
    ensures
        w == local_cost_spec(state, nearby_points@),
        abs_int(w as int) <= LOCAL_COST_BOUND,
{
    let mut total_weight: i64 = STEP_BIAS;
    let n: usize = nearby_points.len();
    let mut i: usize = 0;
    while i < n
        invariant
            state.wf(),
            n == nearby_points@.len(),
            i <= n,
            forall|k: int| 0 <= k < nearby_points@.len() ==> pt_ok(#[trigger] nearby_points@[k]),
            nearby_points@.len() <= MAX_LANDMARKS,
            total_weight as int == STEP_BIAS + penalties_sum_spec(
                state.pos,
                nearby_points@.take(i as int),
            ),
            STEP_BIAS <= total_weight as int <= STEP_BIAS + (i as int) * (
            PROXIMITY_MAX_WEIGHT as int),
        decreases n - i,
    {
        let p: Point = nearby_points[i];
        let w1: i64 = calculate_avoid_edge_weight_for_point(state, &p);
        let w2: i64 = calculate_travel_direction_weight_for_point(state, &p);
        proof {
            assert(nearby_points@.take(i + 1).drop_last() =~= nearby_points@.take(i as int));
            assert(nearby_points@.take(i + 1).last() == nearby_points@[i as int]);
            lemma_mul_inequality(i + 1, MAX_LANDMARKS as int, PROXIMITY_MAX_WEIGHT as int);
            lemma_mul_inequality(i as int, MAX_LANDMARKS as int, PROXIMITY_MAX_WEIGHT as int);
        }
        total_weight = total_weight + w1;
        total_weight = total_weight + w2;
        i = i + 1;
    }
    proof {
        assert(nearby_points@.take(n as int) =~= nearby_points@);
        lemma_mul_inequality(n as int, MAX_LANDMARKS as int, PROXIMITY_MAX_WEIGHT as int);
    }
    let curve_weight: i64 = calculate_curvature_weight(state);
    total_weight + curve_weight
}

} // verus!
