use dungeon::geometry::{convex_hull, HullError, Line, Point};

fn pt(x: i64, y: i64) -> Point {
    Point { x, y }
}

fn seg(x1: i64, y1: i64, x2: i64, y2: i64) -> Line {
    Line { p1: pt(x1, y1), p2: pt(x2, y2) }
}

#[test]
fn primitives_exact_values() {
    let a = pt(3, 4);
    let b = pt(-2, 5);
    assert_eq!(a.cross(&b), 3 * 5 - 4 * (-2));
    assert_eq!(a.dot(&b), 3 * (-2) + 4 * 5);
    assert_eq!(a.dist_sqr(&b), 25 + 1);
    let s = a.add(&b);
    assert_eq!((s.x, s.y), (1, 9));
    let d = a.sub(&b);
    assert_eq!((d.x, d.y), (5, -1));
}

#[test]
fn orientation_signs() {
    assert_eq!(pt(1, 0).orientation(&pt(0, 1)), 1);
    assert_eq!(pt(0, 1).orientation(&pt(1, 0)), -1);
    assert_eq!(pt(2, 2).orientation(&pt(1, 1)), 0);
    assert_eq!(pt(0, 0).orientation(&pt(0, 0)), 0);
}

#[test]
fn intersects_proper_crossing() {
    let a = seg(0, 0, 2, 2);
    let b = seg(0, 2, 2, 0);
    assert!(a.intersects(&b));
}

#[test]
fn intersects_shared_endpoint_is_false() {
    let a = seg(0, 0, 1, 1);
    let b = seg(1, 1, 2, 2);
    assert!(!a.intersects(&b));
}

#[test]
fn intersects_collinear_overlap_is_false() {
    let a = seg(0, 0, 2, 0);
    let b = seg(1, 0, 3, 0);
    assert!(!a.intersects(&b));
}

#[test]
fn intersects_touching_mid_segment_is_false() {
    // b ends exactly on a's interior: no strict crossing.
    let a = seg(0, 0, 4, 0);
    let b = seg(2, 0, 2, 3);
    assert!(!a.intersects(&b));
}

#[test]
fn intersects_disjoint_is_false() {
    let a = seg(0, 0, 1, 0);
    let b = seg(5, 5, 6, 9);
    assert!(!a.intersects(&b));
}

#[test]
fn intersects_is_symmetric() {
    let cases = [
        (seg(0, 0, 2, 2), seg(0, 2, 2, 0)),
        (seg(0, 0, 1, 1), seg(1, 1, 2, 2)),
        (seg(0, 0, 2, 0), seg(1, 0, 3, 0)),
        (seg(0, 0, 1, 0), seg(5, 5, 6, 9)),
        (seg(-5, -5, 5, 5), seg(-5, 5, 5, -5)),
    ];
    for (a, b) in cases.iter() {
        assert_eq!(a.intersects(b), b.intersects(a));
    }
}

#[test]
fn hull_empty_is_error() {
    let points: Vec<Point> = Vec::new();
    assert_eq!(convex_hull(&points), Err(HullError::EmptyInput));
}

#[test]
fn hull_single_point() {
    let points = vec![pt(7, 9)];
    let h = convex_hull(&points).unwrap();
    assert_eq!(h, vec![(0, pt(7, 9))]);
}

#[test]
fn hull_two_points() {
    let points = vec![pt(5, 5), pt(1, 2)];
    let h = convex_hull(&points).unwrap();
    assert_eq!(h, vec![(1, pt(1, 2)), (0, pt(5, 5))]);
}

#[test]
fn hull_collinear_keeps_extremes() {
    let points = vec![pt(0, 0), pt(1, 0), pt(2, 0), pt(3, 0)];
    let h = convex_hull(&points).unwrap();
    assert_eq!(h, vec![(0, pt(0, 0)), (3, pt(3, 0))]);
}

#[test]
fn hull_unit_square_in_ccw_order() {
    let points = vec![pt(0, 0), pt(2, 0), pt(2, 2), pt(0, 2)];
    let h = convex_hull(&points).unwrap();
    assert_eq!(
        h,
        vec![(0, pt(0, 0)), (1, pt(2, 0)), (2, pt(2, 2)), (3, pt(0, 2))]
    );
}

#[test]
fn hull_idempotent_on_square() {
    let points = vec![pt(0, 0), pt(2, 0), pt(2, 2), pt(0, 2), pt(1, 1)];
    let h1 = convex_hull(&points).unwrap();
    let hull_points: Vec<Point> = h1.iter().map(|e| e.1).collect();
    let h2 = convex_hull(&hull_points).unwrap();
    let mut s1: Vec<(i64, i64)> = hull_points.iter().map(|p| (p.x, p.y)).collect();
    let mut s2: Vec<(i64, i64)> = h2.iter().map(|e| (e.1.x, e.1.y)).collect();
    s1.sort();
    s2.sort();
    assert_eq!(s1, s2);
}

#[test]
fn hull_contains_every_input_point() {
    let points = vec![
        pt(0, 0),
        pt(10, 1),
        pt(9, 9),
        pt(1, 10),
        pt(5, 5),
        pt(3, 4),
        pt(7, 2),
    ];
    let h = convex_hull(&points).unwrap();
    assert!(h.len() >= 3);
    // Every point lies left of (or on) each directed hull edge.
    for p in points.iter() {
        for w in 0..h.len() {
            let a = h[w].1;
            let b = h[(w + 1) % h.len()].1;
            let cross = (b.x - a.x) * (p.y - a.y) - (b.y - a.y) * (p.x - a.x);
            assert!(cross >= 0, "point outside hull edge");
        }
    }
}
