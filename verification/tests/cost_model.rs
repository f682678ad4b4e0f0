use planner::cost::{
    calculate_avoid_edge_weight_for_point, calculate_curvature_weight,
    calculate_travel_direction_weight_for_point, distance,
};
use planner::drive::DriveState;
use planner::points::{Point, PointType, Pos};

fn state_at(x: i64, y: i64, curvature: i64) -> DriveState {
    DriveState { pos: Pos { x, y }, angle: 0, curvature, speed: 1_000_000 }
}

fn obstacle(x: i64, y: i64, id: u64) -> Point {
    Point { pos: Pos { x, y }, point_type: PointType::Obstacle, expire_at: 0, id }
}

#[test]
fn proximity_penalty_ramps_down_with_distance() {
    // Penalty is 12.5 cost units per meter of shortfall from 0.4 m:
    // 3.75 at 0.1 m, 1.25 at 0.3 m, zero at and beyond 0.4 m.
    let p = obstacle(0, 0, 1);
    let w_01 = calculate_avoid_edge_weight_for_point(state_at(100_000, 0, 0), &p);
    let w_03 = calculate_avoid_edge_weight_for_point(state_at(300_000, 0, 0), &p);
    let w_04 = calculate_avoid_edge_weight_for_point(state_at(400_000, 0, 0), &p);
    let w_05 = calculate_avoid_edge_weight_for_point(state_at(500_000, 0, 0), &p);
    assert_eq!(w_01, 3_750_000);
    assert_eq!(w_03, 1_250_000);
    assert_eq!(w_04, 0);
    assert_eq!(w_05, 0);
    assert!(w_01 >= w_03 && w_03 >= 0);
}

#[test]
fn proximity_penalty_tops_out_at_the_landmark() {
    let p = obstacle(0, 0, 1);
    let w = calculate_avoid_edge_weight_for_point(state_at(0, 0, 0), &p);
    assert_eq!(w, 5_000_000);
}

#[test]
fn travel_direction_weight_is_stubbed_to_zero() {
    let p = obstacle(250_000, 0, 1);
    assert_eq!(calculate_travel_direction_weight_for_point(state_at(0, 0, 0), &p), 0);
}

#[test]
fn curvature_penalty_is_one_tenth_of_square() {
    assert_eq!(calculate_curvature_weight(state_at(0, 0, 0)), 0);
    // At maximum curvature 1/0.3 the penalty is 0.1/0.09 ≈ 1.111.
    let w = calculate_curvature_weight(state_at(0, 0, 3_333_333));
    assert_eq!(w, 1_111_110);
    assert!((w as f64 / 1_000_000.0 - 0.1 / 0.09).abs() < 1e-3);
    // Sign of the turn does not matter.
    assert_eq!(calculate_curvature_weight(state_at(0, 0, -3_333_333)), w);
}

#[test]
fn local_cost_combines_bias_penalties_and_curvature() {
    // No landmarks, straight: only the -0.1 bias.
    assert_eq!(distance(state_at(0, 0, 0), &Vec::new()), -100_000);
    // One landmark 0.2 m away adds (0.4 - 0.2) * 12.5 = 2.5.
    let near = vec![obstacle(200_000, 0, 1)];
    assert_eq!(distance(state_at(0, 0, 0), &near), 2_400_000);
    // A landmark beyond the ramp adds nothing.
    let far = vec![obstacle(900_000, 0, 2)];
    assert_eq!(distance(state_at(0, 0, 0), &far), -100_000);
}
