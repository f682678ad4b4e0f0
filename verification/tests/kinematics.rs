use planner::drive::DriveState;
use planner::points::Pos;
use planner::trig::{cos_fx, sin_fx};

const S: f64 = 1_000_000.0;

fn state(x: i64, y: i64, angle: i64, curvature: i64, speed: i64) -> DriveState {
    DriveState { pos: Pos { x, y }, angle, curvature, speed }
}

#[test]
fn straight_step_along_x_axis_is_exact() {
    let s = state(0, 0, 0, 0, 1_000_000);
    let r = s.step_distance(500_000);
    assert_eq!(r.pos.x, 500_000);
    assert_eq!(r.pos.y, 0);
    assert_eq!(r.angle, 0);
    assert_eq!(r.curvature, 0);
    assert_eq!(r.speed, 1_000_000);
}

#[test]
fn straight_step_matches_trigonometry() {
    // Straight-line kinematics: position moves by d·(cos θ, sin θ); heading,
    // curvature and speed stay put.
    for &(angle, d) in &[(500_000i64, 700_000i64), (-1_200_000, 300_000), (2_500_000, 1_000_000)] {
        let s = state(2_000_000, -3_000_000, angle, 0, 1_000_000);
        let r = s.step_distance(d);
        let theta = angle as f64 / S;
        let expected_x = s.pos.x as f64 / S + (d as f64 / S) * theta.cos();
        let expected_y = s.pos.y as f64 / S + (d as f64 / S) * theta.sin();
        assert!((r.pos.x as f64 / S - expected_x).abs() < 1e-4);
        assert!((r.pos.y as f64 / S - expected_y).abs() < 1e-4);
        assert_eq!(r.angle, angle);
        assert_eq!(r.curvature, 0);
        assert_eq!(r.speed, s.speed);
    }
}

#[test]
fn small_curvature_step_converges_to_straight_step() {
    // Arc continuity: as curvature shrinks toward the straight-line
    // threshold, the arc-based step approaches the straight-line step.
    let d: i64 = 500_000;
    let straight = state(0, 0, 0, 0, 1_000_000).step_distance(d);
    let mut last_gap = f64::INFINITY;
    for &c in &[4_000i64, 2_000, 1_100] {
        let arc = state(0, 0, 0, c, 1_000_000).step_distance(d);
        let dx = (arc.pos.x - straight.pos.x) as f64 / S;
        let dy = (arc.pos.y - straight.pos.y) as f64 / S;
        let gap = (dx * dx + dy * dy).sqrt();
        assert!(gap < 1e-3, "gap {} too large for curvature {}", gap, c);
        assert!(gap <= last_gap + 1e-5);
        last_gap = gap;
    }
}

#[test]
fn arc_step_matches_circular_geometry() {
    // A quarter-ish arc: curvature 2 per meter, 0.5 m travelled, from
    // heading zero.  Exact circle geometry: x = sin(c·d)/c, y = (1-cos(c·d))/c.
    let c: i64 = 2_000_000;
    let d: i64 = 500_000;
    let r = state(0, 0, 0, c, 1_000_000).step_distance(d);
    let cf = c as f64 / S;
    let df = d as f64 / S;
    let u = cf * df;
    let expected_x = u.sin() / cf;
    let expected_y = (1.0 - u.cos()) / cf;
    assert!((r.pos.x as f64 / S - expected_x).abs() < 2e-3);
    assert!((r.pos.y as f64 / S - expected_y).abs() < 2e-3);
    assert!((r.angle as f64 / S - u).abs() < 1e-5);
    assert_eq!(r.curvature, c);
    assert_eq!(r.speed, 1_000_000);
}

#[test]
fn step_time_scales_by_speed() {
    let s = state(0, 0, 0, 0, 2_000_000);
    let r = s.step(100_000);
    // 0.1 s at 2 m/s travels 0.2 m along the x axis.
    assert_eq!(r.pos.x, 200_000);
    assert_eq!(r.pos.y, 0);
}

#[test]
fn trig_tracks_reference_functions() {
    for k in -20i64..=20 {
        let a = k * 450_000; // up to ±9 radians
        let sf = sin_fx(a) as f64 / S;
        let cf = cos_fx(a) as f64 / S;
        let theta = a as f64 / S;
        assert!((sf - theta.sin()).abs() < 2e-4, "sin at {}", theta);
        assert!((cf - theta.cos()).abs() < 2e-4, "cos at {}", theta);
    }
}

#[test]
fn pos_dist_is_euclidean() {
    let a = Pos { x: 0, y: 0 };
    let b = Pos { x: 3_000_000, y: 4_000_000 };
    assert_eq!(a.dist(b), 5_000_000);
    let c = Pos { x: 1_000_000, y: 1_000_000 };
    assert_eq!(a.dist(c), 1_414_213);
}

#[test]
fn pos_lerp_and_dist_along() {
    let a = Pos { x: 0, y: 0 };
    let b = Pos { x: 2_000_000, y: 2_000_000 };
    let quarter = a.lerp(b, 250_000);
    assert_eq!(quarter.x, 500_000);
    assert_eq!(quarter.y, 500_000);
    let c = Pos { x: 1_000_000, y: 0 };
    let half = a.dist_along(c, 500_000);
    assert_eq!(half.x, 500_000);
    assert_eq!(half.y, 0);
}
