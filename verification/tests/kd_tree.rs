use dungeon::geometry::Point;
use dungeon::kd_tree::Tree;

fn pts() -> Vec<Point> {
    vec![
        Point { x: 0, y: 0 },
        Point { x: 10, y: 0 },
        Point { x: 5, y: 5 },
        Point { x: 3, y: 8 },
        Point { x: 8, y: 2 },
        Point { x: 1, y: 9 },
        Point { x: 6, y: 6 },
        Point { x: 4, y: 1 },
        Point { x: 9, y: 9 },
        Point { x: 2, y: 4 },
    ]
}

fn brute(points: &[Point], x1: i64, y1: i64, x2: i64, y2: i64) -> Vec<usize> {
    points
        .iter()
        .enumerate()
        .filter(|(_, p)| x1 <= p.x && p.x <= x2 && y1 <= p.y && p.y <= y2)
        .map(|(i, _)| i)
        .collect()
}

fn check(x1: i64, y1: i64, x2: i64, y2: i64) {
    let points = pts();
    let tree = Tree::new(points.clone());
    let mut got = tree.query(x1, y1, x2, y2);
    let mut want = brute(&points, x1, y1, x2, y2);
    got.sort();
    want.sort();
    assert_eq!(got, want);
}

#[test]
fn query_matches_brute_force_full() {
    check(0, 0, 10, 10);
}

#[test]
fn query_matches_brute_force_partial() {
    check(2, 1, 7, 7);
    check(0, 5, 5, 10);
    check(5, 0, 10, 4);
    check(3, 3, 6, 9);
}

#[test]
fn query_empty_region() {
    check(-10, -10, -1, -1);
    check(11, 11, 20, 20);
}

#[test]
fn query_thin_bands() {
    check(5, 0, 5, 10);
    check(0, 0, 10, 0);
}

#[test]
fn query_single_point_tree() {
    let points = vec![Point { x: 4, y: 7 }];
    let tree = Tree::new(points);
    assert_eq!(tree.query(0, 0, 10, 10), vec![0]);
    assert_eq!(tree.query(5, 0, 10, 10), Vec::<usize>::new());
}

#[test]
fn query_with_duplicate_points() {
    let points = vec![
        Point { x: 2, y: 2 },
        Point { x: 2, y: 2 },
        Point { x: 2, y: 2 },
        Point { x: 2, y: 2 },
        Point { x: 9, y: 9 },
        Point { x: 2, y: 2 },
    ];
    let tree = Tree::new(points.clone());
    let mut got = tree.query(0, 0, 5, 5);
    got.sort();
    assert_eq!(got, vec![0, 1, 2, 3, 5]);
}
