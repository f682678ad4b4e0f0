use planner::drive::DriveState;
use planner::planner::Planner;
use planner::points::{Point, PointType, Pos, SimplePointMap};

fn start(x: i64, y: i64) -> DriveState {
    DriveState { pos: Pos { x, y }, angle: 0, curvature: 0, speed: 1_000_000 }
}

fn obstacle(x: i64, y: i64, id: u64) -> Point {
    Point { pos: Pos { x, y }, point_type: PointType::Obstacle, expire_at: 0, id }
}

#[test]
fn empty_store_plans_full_horizon() {
    // Search termination: with no landmarks the path still holds exactly
    // horizon-plus-one positions and starts at the start position.
    let planner = Planner::new();
    let store = SimplePointMap::new();
    let s = start(0, 0);
    let path = planner.find_path(s, &store);
    assert_eq!(path.points.len(), 31);
    assert_eq!(path.points[0], s.pos);
}

#[test]
fn empty_store_prefers_the_straight_line() {
    // With nothing to avoid, any turn costs curvature while straight travel
    // is free, so the greedy lowest-cost expansion drives straight: 30 steps
    // of 0.1 m each along the heading.
    let planner = Planner::new();
    let store = SimplePointMap::new();
    let path = planner.find_path(start(0, 0), &store);
    assert_eq!(path.points.len(), 31);
    for (k, p) in path.points.iter().enumerate() {
        assert_eq!(p.x, 100_000 * k as i64);
        assert_eq!(p.y, 0);
    }
}

#[test]
fn offset_start_keeps_its_origin() {
    let planner = Planner::new();
    let store = SimplePointMap::new();
    let s = start(5_000_000, -2_000_000);
    let path = planner.find_path(s, &store);
    assert_eq!(path.points.len(), 31);
    assert_eq!(path.points[0].x, 5_000_000);
    assert_eq!(path.points[0].y, -2_000_000);
}

#[test]
fn far_landmarks_do_not_shorten_the_path() {
    let planner = Planner::new();
    let mut store = SimplePointMap::new();
    store.insert_batch(&vec![obstacle(50_000_000, 50_000_000, 1)]);
    let path = planner.find_path(start(0, 0), &store);
    assert_eq!(path.points.len(), 31);
}

#[test]
fn search_avoids_an_obstacle_on_the_straight_corridor() {
    // Greedy lowest-cost expansion: the corridor straight ahead passes
    // through an obstacle, the corridor beside it is free, so the cheaper
    // path that reaches the horizon swings clear of the obstacle.
    let planner = Planner::new();
    let mut store = SimplePointMap::new();
    let obs = Pos { x: 1_000_000, y: 0 };
    store.insert_batch(&vec![obstacle(obs.x, obs.y, 1)]);
    let s = start(0, 0);
    let path = planner.find_path(s, &store);
    assert_eq!(path.points.len(), 31);
    assert_eq!(path.points[0], s.pos);
    let min_dist = path
        .points
        .iter()
        .map(|p| {
            let dx = (p.x - obs.x) as f64;
            let dy = (p.y - obs.y) as f64;
            (dx * dx + dy * dy).sqrt()
        })
        .fold(f64::INFINITY, f64::min);
    assert!(
        min_dist > 150_000.0,
        "path came within {} units of the obstacle",
        min_dist
    );
}
