use segment_walls::{distance, isqrt, width_vector, Line, Point, PointKind, Segment};

fn p(x: i64, y: i64) -> Point {
    Point::new(x, y)
}

fn seg(ax: i64, ay: i64, bx: i64, by: i64) -> Segment {
    Segment::new(p(ax, ay), p(bx, by))
}

#[test]
fn contains_within_tolerance() {
    let s = seg(0, 0, 10000, 0);
    assert!(s.contains(p(5000, 50)));
    assert!(!s.contains(p(5000, 200)));
    assert!(!s.contains(p(11000, 0)));
}

#[test]
fn contains_edges() {
    let s = seg(0, 0, 10000, 0);
    assert!(s.contains(p(5000, 100)));
    assert!(!s.contains(p(5000, 101)));
    assert!(s.contains(p(0, 0)));
    assert!(s.contains(p(10000, 0)));
    assert!(!s.contains(p(-1, 0)));
    let diagonal = seg(0, 0, 3000, 4000);
    assert!(diagonal.contains(p(1500, 2000)));
    // 80 to the side of the line: inside; 120: outside.
    assert!(diagonal.contains(p(1500 + 64, 2000 - 48)));
    assert!(!diagonal.contains(p(1500 + 96, 2000 - 72)));
}

#[test]
fn intersection_round_trip() {
    let a = seg(0, 0, 10000, 0);
    let b = seg(5000, -5000, 5000, 5000);
    assert_eq!(a.line_intersection(b), Some(p(5000, 0)));
    assert!(a.intersects(b));
    let parallel = seg(0, 1000, 10000, 1000);
    assert_eq!(a.line_intersection(parallel), None);
    assert!(!a.intersects(parallel));
}

#[test]
fn intersection_outside_segments() {
    let a = seg(0, 0, 10000, 0);
    let b = seg(5000, 100, 5000, 200);
    assert_eq!(a.line_intersection(b), Some(p(5000, 0)));
    assert!(!a.intersects(b));
    let c = seg(0, 0, 1000, 1000);
    let d = seg(0, 1000, 1000, 0);
    assert_eq!(c.line_intersection(d), Some(p(500, 500)));
    assert!(c.intersects(d));
}

#[test]
fn nearly_parallel_far_crossing_counts_as_none() {
    let a = seg(0, 0, 1000000, 0);
    let b = seg(0, 10, 1000000, 11);
    assert_eq!(a.line_intersection(b), None);
}

#[test]
fn closest_point_clamps() {
    let s = seg(0, 0, 10000, 0);
    assert_eq!(s.closest_point(p(3000, 500)), p(3000, 0));
    assert_eq!(s.closest_point(p(-100, 300)), p(0, 0));
    assert_eq!(s.closest_point(p(12000, -7)), p(10000, 0));
    let diagonal = seg(0, 0, 1000, 1000);
    assert_eq!(diagonal.closest_point(p(1000, 0)), p(500, 500));
}

#[test]
fn lengths_and_roots() {
    assert_eq!(seg(0, 0, 3000, 4000).len(), 5000);
    assert_eq!(seg(0, 0, 1, 1).len(), 1);
    assert_eq!(seg(0, 0, 3000, 4000).len_squared(), 25000000);
    assert_eq!(isqrt(0), 0);
    assert_eq!(isqrt(15), 3);
    assert_eq!(isqrt(16), 4);
    assert_eq!(isqrt(1 << 100), 1 << 50);
    assert_eq!(distance(p(1, 1), p(4, 5)), 5);
}

#[test]
fn segment_basics() {
    let mut s = seg(1, 2, 3, 4);
    assert_eq!(s.inverse(), seg(3, 4, 1, 2));
    assert_eq!(s.displacement(), p(2, 2));
    assert!(!s.is_zero());
    assert!(Segment::splat(p(7, 7)).is_zero());
    assert_eq!(s.points(), [p(1, 2), p(3, 4)]);
    assert_eq!(s.point(PointKind::End), p(3, 4));
    s.set_point(PointKind::Start, p(0, 0));
    assert_eq!(s, seg(0, 0, 3, 4));
    assert_eq!(s.translate(p(10, -10)), seg(10, -10, 13, -6));
    assert_eq!(PointKind::Start.inverse(), PointKind::End);
    assert_eq!(PointKind::End.inverse(), PointKind::Start);
}

#[test]
fn width_vector_points_left() {
    assert_eq!(width_vector(p(10000, 0), 75), p(0, 75));
    assert_eq!(width_vector(p(0, 10000), 75), p(-75, 0));
    assert_eq!(width_vector(p(-10000, 0), 75), p(0, -75));
    assert_eq!(width_vector(p(1000, 1000), 75), p(-53, 53));
    assert_eq!(width_vector(p(0, 0), 75), p(0, 0));
}

#[test]
fn line_intersection_by_determinant() {
    let l = Line::new(p(0, 0), p(10, 0));
    let r = Line::new(p(5, -5), p(5, 5));
    assert_eq!(l, Line { a: 0, b: -10, c: 0 });
    assert_eq!(l.intersection(r), Some(p(5, 0)));
    let shifted = Line::with_offset(p(0, 0), p(10, 0), p(0, 3));
    assert_eq!(shifted.intersection(r), Some(p(5, 3)));
    assert_eq!(l.intersection(shifted), None);
}

#[test]
fn contains_point() {
    let vertices = segment_walls::LotVertices(vec![p(1000, 1000), p(1000, 2000), p(2000, 2000), p(2000, 1000)]);
    assert!(vertices.contains_point(p(1200, 1900)));
}

#[test]
fn not_contains_point() {
    let vertices = segment_walls::LotVertices(vec![p(1000, 1000), p(1000, 2000), p(2000, 2000), p(2000, 1000)]);
    assert!(!vertices.contains_point(p(3200, 4900)));
}
