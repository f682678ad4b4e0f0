use planner::points::{Point, PointType, Pos, SimplePointMap};

fn landmark(x: i64, y: i64, id: u64) -> Point {
    Point { pos: Pos { x, y }, point_type: PointType::Obstacle, expire_at: 0, id }
}

fn ids(points: &[Point]) -> Vec<u64> {
    points.iter().map(|p| p.id).collect()
}

#[test]
fn radius_query_uses_strict_distance() {
    // Landmarks at distances 0.1, 0.3, 0.5 and 1.0 from the query center:
    // a 0.5 radius returns exactly the first two, the 0.5 itself excluded.
    let mut store = SimplePointMap::new();
    let center = Pos { x: 2_000_000, y: 3_000_000 };
    let batch = vec![
        landmark(2_100_000, 3_000_000, 1),
        landmark(2_000_000, 3_300_000, 2),
        landmark(2_500_000, 3_000_000, 3),
        landmark(2_000_000, 4_000_000, 4),
    ];
    store.insert_batch(&batch);
    let found = store.query_radius(center, 500_000);
    assert_eq!(ids(&found), vec![1, 2]);
}

#[test]
fn insert_batch_keeps_order_and_duplicates() {
    let mut store = SimplePointMap::new();
    store.insert_batch(&vec![landmark(0, 0, 7), landmark(0, 0, 7)]);
    store.insert_batch(&vec![landmark(10, 0, 9)]);
    let all = store.all_landmarks();
    assert_eq!(ids(&all), vec![7, 7, 9]);
}

#[test]
fn remove_nothing_then_everything_round_trip() {
    let mut store = SimplePointMap::new();
    let batch = vec![
        landmark(0, 0, 10),
        landmark(100_000, 0, 20),
        landmark(0, 200_000, 30),
    ];
    store.insert_batch(&batch);

    // A predicate that removes nothing leaves the query results unchanged.
    let before = store.query_radius(Pos { x: 0, y: 0 }, 1_000_000);
    store.remove_where(|_p| false);
    let after = store.query_radius(Pos { x: 0, y: 0 }, 1_000_000);
    assert_eq!(ids(&before), ids(&after));
    assert_eq!(ids(&after), vec![10, 20, 30]);

    // A predicate that removes everything empties the store and reports
    // every identifier in removal order.
    store.remove_where(|_p| true);
    assert_eq!(store.query_radius(Pos { x: 0, y: 0 }, 2_000_000_000_000).len(), 0);
    let drained = store.drain_removed_ids();
    assert_eq!(drained, vec![10, 20, 30]);

    // A second drain returns nothing.
    let drained_again = store.drain_removed_ids();
    assert!(drained_again.is_empty());
}

#[test]
fn remove_where_filters_by_predicate() {
    let mut store = SimplePointMap::new();
    store.insert_batch(&vec![
        landmark(0, 0, 1),
        landmark(900_000, 0, 2),
        landmark(100_000, 0, 3),
    ]);
    // Retire landmarks far from the origin.
    store.remove_where(|p| p.pos.x > 500_000);
    let all = store.all_landmarks();
    assert_eq!(ids(&all), vec![1, 3]);
    assert_eq!(store.drain_removed_ids(), vec![2]);
}

#[test]
fn expiration_is_caller_driven() {
    let mut store = SimplePointMap::new();
    store.insert_batch(&vec![
        Point { pos: Pos { x: 0, y: 0 }, point_type: PointType::LeftLine, expire_at: 100, id: 1 },
        Point { pos: Pos { x: 0, y: 0 }, point_type: PointType::RightLine, expire_at: 300, id: 2 },
    ]);
    let now: u64 = 200;
    store.remove_where(|p| now > p.expire_at);
    assert_eq!(ids(&store.all_landmarks()), vec![2]);
    assert_eq!(store.drain_removed_ids(), vec![1]);
}
