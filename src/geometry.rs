use vstd::prelude::*;

verus! {

/// Largest absolute value of a coordinate of a segment's endpoint, in millimetres.
pub const COORD_LIMIT: i64 = 1048576;

/// Intersection points farther from the origin than this, on either axis,
/// count as no intersection: the lines are then nearly parallel.
pub const FAR_LIMIT: i64 = 4194304;

/// Perpendicular distance within which a point lies on a segment.
pub const CONTAINS_TOLERANCE: i64 = 100;

/// Slack allowed by [`Segment::intersects`] on the detour through the intersection point.
pub const INTERSECT_TOLERANCE: i64 = 10;

/// Largest radicand accepted by [`isqrt`].
pub const SQRT_LIMIT: u128 = 0x10000000000000000000000000;

/// A point, or a vector, in the ground plane.
#[derive(Clone, Copy, PartialEq, Eq, Structural, Debug)]
pub struct Point {
    pub x: i64,
    pub y: i64,
}

/// A line segment between two points.
#[derive(Clone, Copy, PartialEq, Eq, Structural, Debug)]
pub struct Segment {
    pub start: Point,
    pub end: Point,
}

/// A line in standard form `a * x + b * y == c`.
#[derive(Clone, Copy, PartialEq, Eq, Structural, Debug)]
pub struct Line {
    pub a: i64,
    pub b: i64,
    pub c: i64,
}

// ---------------------------------------------------------------------------
// Mathematical model.

pub open spec fn in_limit(v: int, limit: int) -> bool {
    -limit <= v <= limit
}

/// Both coordinates lie within the working area.
pub open spec fn point_in_range(p: Point) -> bool {
    in_limit(p.x as int, COORD_LIMIT as int) && in_limit(p.y as int, COORD_LIMIT as int)
}

pub open spec fn point_near(p: Point) -> bool {
    in_limit(p.x as int, FAR_LIMIT as int) && in_limit(p.y as int, FAR_LIMIT as int)
}

pub open spec fn segment_in_range(s: Segment) -> bool {
    point_in_range(s.start) && point_in_range(s.end)
}

/// Both endpoints lie within the area where geometric queries are exact.
pub open spec fn segment_near(s: Segment) -> bool {
    point_near(s.start) && point_near(s.end)
}

/// Coefficients small enough for [`Line::intersection`].
pub open spec fn line_bounded(l: Line) -> bool {
    &&& in_limit(l.a as int, 0x800000)
    &&& in_limit(l.b as int, 0x800000)
    &&& in_limit(l.c as int, 0x400000000000)
}

pub open spec fn cross(ax: int, ay: int, bx: int, by: int) -> int {
    ax * by - ay * bx
}

pub open spec fn dot(ax: int, ay: int, bx: int, by: int) -> int {
    ax * bx + ay * by
}

pub open spec fn disp_x(s: Segment) -> int {
    s.end.x - s.start.x
}

pub open spec fn disp_y(s: Segment) -> int {
    s.end.y - s.start.y
}

pub open spec fn len_sq(s: Segment) -> int {
    dot(disp_x(s), disp_y(s), disp_x(s), disp_y(s))
}

/// `r` is the integer square root of `n`.
pub open spec fn is_sqrt_floor(n: int, r: int) -> bool {
    0 <= r && r * r <= n && n < (r + 1) * (r + 1)
}

/// The largest integer whose square does not exceed `n`.
pub open spec fn sqrt_floor(n: int) -> int {
    choose|r: int| is_sqrt_floor(n, r)
}

/// `a / sqrt(n)`, rounded toward zero.
pub open spec fn div_sqrt_spec(a: int, n: int) -> int {
    if a >= 0 {
        sqrt_floor((a * a) / n)
    } else {
        -sqrt_floor((a * a) / n)
    }
}

/// `a / b`, rounded toward zero (`b > 0`).
pub open spec fn trunc_div(a: int, b: int) -> int {
    if a >= 0 {
        a / b
    } else {
        -((-a) / b)
    }
}

/// Distance between two points, rounded down.
pub open spec fn distance_spec(p: Point, q: Point) -> int {
    sqrt_floor(dot(q.x - p.x, q.y - p.y, q.x - p.x, q.y - p.y))
}

/// The point's perpendicular distance to the segment's line is at most the
/// tolerance, and it projects onto the segment.
pub open spec fn contains_spec(s: Segment, p: Point) -> bool {
    let c = cross(disp_x(s), disp_y(s), p.x - s.start.x, p.y - s.start.y);
    let d = dot(disp_x(s), disp_y(s), p.x - s.start.x, p.y - s.start.y);
    &&& c * c <= CONTAINS_TOLERANCE * CONTAINS_TOLERANCE * len_sq(s)
    &&& 0 <= d
    &&& d <= len_sq(s)
}

pub open spec fn closest_point_spec(s: Segment, p: Point) -> (int, int) {
    let t = dot(disp_x(s), disp_y(s), p.x - s.start.x, p.y - s.start.y);
    if t <= 0 {
        (s.start.x as int, s.start.y as int)
    } else if t >= len_sq(s) {
        (s.end.x as int, s.end.y as int)
    } else {
        (
            s.start.x + trunc_div(disp_x(s) * t, len_sq(s)),
            s.start.y + trunc_div(disp_y(s) * t, len_sq(s)),
        )
    }
}

/// The point where the lines through two segments cross, rounded toward the
/// first segment's start; `None` for parallel lines and far-away crossings.
pub open spec fn line_intersection_spec(s: Segment, o: Segment) -> Option<Point> {
    let det = cross(disp_x(s), disp_y(s), disp_x(o), disp_y(o));
    let num = cross(o.start.x - s.start.x, o.start.y - s.start.y, disp_x(o), disp_y(o));
    if det == 0 {
        None
    } else {
        let x = s.start.x + trunc_div(num * disp_x(s) * det, det * det);
        let y = s.start.y + trunc_div(num * disp_y(s) * det, det * det);
        if in_limit(x, FAR_LIMIT as int) && in_limit(y, FAR_LIMIT as int) {
            Some(Point { x: x as i64, y: y as i64 })
        } else {
            None
        }
    }
}

pub open spec fn intersects_spec(s: Segment, o: Segment) -> bool {
    match line_intersection_spec(s, o) {
        None => false,
        Some(i) => {
            &&& distance_spec(s.start, i) + distance_spec(i, s.end) - sqrt_floor(len_sq(s))
                < INTERSECT_TOLERANCE
            &&& distance_spec(o.start, i) + distance_spec(i, o.end) - sqrt_floor(len_sq(o))
                < INTERSECT_TOLERANCE
        },
    }
}

/// The vector of length `half_width` perpendicular to `(dx, dy)`, to its left,
/// each coordinate rounded toward zero.
pub open spec fn width_vector_spec(dx: int, dy: int, half_width: int) -> Point {
    if dx == 0 && dy == 0 {
        Point { x: 0, y: 0 }
    } else {
        Point {
        x: div_sqrt_spec(-dy * half_width, dot(dx, dy, dx, dy)) as i64,
        y: div_sqrt_spec(dx * half_width, dot(dx, dy, dx, dy)) as i64,
        }
    }
}

pub open spec fn translated(s: Segment, v: Point) -> Segment {
    Segment {
        start: Point { x: (s.start.x + v.x) as i64, y: (s.start.y + v.y) as i64 },
        end: Point { x: (s.end.x + v.x) as i64, y: (s.end.y + v.y) as i64 },
    }
}

pub open spec fn neg_point(v: Point) -> Point {
    Point { x: -v.x as i64, y: -v.y as i64 }
}

pub open spec fn inverse_spec(s: Segment) -> Segment {
    Segment { start: s.end, end: s.start }
}

pub open spec fn line_spec(p1: Point, p2: Point) -> Line {
    let a = p2.y - p1.y;
    let b = p1.x - p2.x;
    Line { a: a as i64, b: b as i64, c: (a * p1.x + b * p1.y) as i64 }
}

/// Where two lines cross, each coordinate rounded toward zero; `None` when
/// they are parallel or cross far away.
pub open spec fn line_cross_spec(l: Line, r: Line) -> Option<Point> {
    let det = l.a * r.b - r.a * l.b;
    if det == 0 {
        None
    } else {
        let x = trunc_div((r.b * l.c - l.b * r.c) * det, det * det);
        let y = trunc_div((l.a * r.c - r.a * l.c) * det, det * det);
        if in_limit(x, FAR_LIMIT as int) && in_limit(y, FAR_LIMIT as int) {
            Some(Point { x: x as i64, y: y as i64 })
        } else {
            None
        }
    }
}

// ---------------------------------------------------------------------------
// Integer helpers.

proof fn lemma_square_monotone(a: int, b: int)
    requires
        0 <= a <= b,
    ensures
        a * a <= b * b,
{
    assert(a * a <= b * b) by (nonlinear_arith)
        requires
            0 <= a <= b,
    ;
}

pub proof fn lemma_sqrt_floor_unique(n: int, r: int)
    requires
        is_sqrt_floor(n, r),
    ensures
        sqrt_floor(n) == r,
{
    let s = sqrt_floor(n);
    assert(is_sqrt_floor(n, s));
    if s < r {
        lemma_square_monotone(s + 1, r);
    } else if r < s {
        lemma_square_monotone(r + 1, s);
    }
}

/// Integer square root: the largest `r` with `r * r <= n`.
pub fn isqrt(n: u128) -> (r: u128)
    requires
        n <= SQRT_LIMIT,
    ensures
        r as int == sqrt_floor(n as int),
        r * r <= n,
{
    let mut lo: u128 = 0;
    let mut hi: u128 = 0x4000000000001;
    assert(hi * hi > SQRT_LIMIT) by (nonlinear_arith)
        requires
            hi == 0x4000000000001u128,
    ;
    while hi - lo > 1
        invariant
            lo < hi <= 0x4000000000001,
            lo * lo <= n,
            n < hi * hi,
        decreases hi - lo,
    {
        let mid: u128 = lo + (hi - lo) / 2;
        proof {
            lemma_square_monotone(mid as int, 0x4000000000001);
        }
        if mid * mid <= n {
            lo = mid;
        } else {
            hi = mid;
        }
    }
    proof {
        lemma_sqrt_floor_unique(n as int, lo as int);
    }
    lo
}

/// `a / sqrt(n)`, rounded toward zero.
pub fn div_sqrt(a: i128, n: u128) -> (r: i128)
    requires
        n > 0,
        a * a <= SQRT_LIMIT,
    ensures
        r == div_sqrt_spec(a as int, n as int),
        -0x4000000000000 <= r <= 0x4000000000000,
{
    assert(-0x4000000000000 <= a <= 0x4000000000000) by (nonlinear_arith)
        requires
            a * a <= SQRT_LIMIT,
    ;
    let m: u128 = if a >= 0 { a as u128 } else { (-a) as u128 };
    assert(m * m == a * a) by (nonlinear_arith)
        requires
            m == a || m == -a,
    ;
    let q: u128 = (m * m) / n;
    assert(q <= m * m) by (nonlinear_arith)
        requires
            n > 0,
            q == (m * m) as int / n as int,
    ;
    let s = isqrt(q);
    assert(s <= 0x4000000000000) by (nonlinear_arith)
        requires
            s * s <= q,
            q <= SQRT_LIMIT,
    ;
    if a >= 0 {
        s as i128
    } else {
        -(s as i128)
    }
}

/// `a / b` rounded toward zero, for `b > 0`.
pub fn div_toward_zero(a: i128, b: i128) -> (r: i128)
    requires
        b > 0,
        a > i128::MIN,
    ensures
        r == trunc_div(a as int, b as int),
{
    if a >= 0 {
        a / b
    } else {
        -((-a) / b)
    }
}

// ---------------------------------------------------------------------------
// Points and segments.

impl Point {
    pub fn new(x: i64, y: i64) -> (r: Point)
        ensures
            r.x == x && r.y == y,
    {
        Point { x, y }
    }
}

impl Segment {
    /// Creates a new segment by endpoints.
    pub fn new(start: Point, end: Point) -> (r: Segment)
        ensures
            r.start == start && r.end == end,
    {
        Segment { start, end }
    }

    /// Creates a segment with the same start and end points.
    pub fn splat(point: Point) -> (r: Segment)
        ensures
            r.start == point && r.end == point,
    {
        Segment { start: point, end: point }
    }

    /// Swaps end and start.
    pub fn inverse(&self) -> (r: Segment)
        ensures
            r == inverse_spec(*self),
    {
        Segment { start: self.end, end: self.start }
    }

    pub fn is_zero(&self) -> (r: bool)
        ensures
            r == (self.start == self.end),
    {
        self.start == self.end
    }

    /// Returns start and end points.
    pub fn points(&self) -> (r: [Point; 2])
        ensures
            r@ == seq![self.start, self.end],
    {
        let r = [self.start, self.end];
        assert(r@ =~= seq![self.start, self.end]);
        r
    }

    /// Displacement vector from start to end.
    pub fn displacement(&self) -> (r: Point)
        requires
            segment_near(*self),
        ensures
            r.x == disp_x(*self),
            r.y == disp_y(*self),
    {
        Point { x: self.end.x - self.start.x, y: self.end.y - self.start.y }
    }

    /// Squared length, exact.
    pub fn len_squared(&self) -> (r: i128)
        requires
            segment_near(*self),
        ensures
            r == len_sq(*self),
            0 <= r <= 0x800000000000,
    {
        let dx = (self.end.x - self.start.x) as i128;
        let dy = (self.end.y - self.start.y) as i128;
        proof { lemma_mul_bound(dx as int, dx as int, 0x800000, 0x800000); }
        proof { lemma_mul_bound(dy as int, dy as int, 0x800000, 0x800000); }
        assert(dx * dx >= 0 && dy * dy >= 0) by (nonlinear_arith);
        dx * dx + dy * dy
    }

    /// Distance from start to end, rounded down.
    pub fn len(&self) -> (r: i64)
        requires
            segment_near(*self),
        ensures
            r == sqrt_floor(len_sq(*self)),
            0 <= r <= 0x1000000,
    {
        let n = self.len_squared();
        let r = isqrt(n as u128);
        assert(r <= 0x1000000) by (nonlinear_arith)
            requires
                r * r <= n,
                n <= 0x800000000000,
        ;
        r as i64
    }

    pub fn point(&self, kind: PointKind) -> (r: Point)
        ensures
            r == point_spec(*self, kind),
    {
        match kind {
            PointKind::Start => self.start,
            PointKind::End => self.end,
        }
    }

    pub fn set_point(&mut self, kind: PointKind, point: Point)
        ensures
            point_spec(*final(self), kind) == point,
            point_spec(*final(self), kind.inverse_spec()) == point_spec(*old(self), kind.inverse_spec()),
    {
        match kind {
            PointKind::Start => self.start = point,
            PointKind::End => self.end = point,
        }
    }

    /// The segment moved by a vector.
    pub fn translate(&self, v: Point) -> (r: Segment)
        requires
            segment_near(*self),
            in_limit(v.x as int, 0x100000000),
            in_limit(v.y as int, 0x100000000),
        ensures
            r == translated(*self, v),
    {
        Segment {
            start: Point { x: self.start.x + v.x, y: self.start.y + v.y },
            end: Point { x: self.end.x + v.x, y: self.end.y + v.y },
        }
    }

    /// Returns `true` if a point belongs to the segment: its perpendicular
    /// distance to the segment's line is within the tolerance and it projects
    /// between the endpoints.
    pub fn contains(&self, point: Point) -> (r: bool)
        requires
            segment_near(*self),
            point_near(point),
        ensures
            r == contains_spec(*self, point),
    {
        let dx = (self.end.x - self.start.x) as i128;
        let dy = (self.end.y - self.start.y) as i128;
        let px = (point.x - self.start.x) as i128;
        let py = (point.y - self.start.y) as i128;
        proof { lemma_mul_bound(dx as int, py as int, 0x800000, 0x800000); }
        proof { lemma_mul_bound(dy as int, px as int, 0x800000, 0x800000); }
        proof { lemma_mul_bound(dx as int, px as int, 0x800000, 0x800000); }
        proof { lemma_mul_bound(dy as int, py as int, 0x800000, 0x800000); }
        let c = dx * py - dy * px;
        let len2 = self.len_squared();
        proof { lemma_mul_bound(c as int, c as int, 0x800000000000, 0x800000000000); }
        let tolerance = CONTAINS_TOLERANCE as i128;
        assert(tolerance * tolerance == 10000) by (nonlinear_arith)
            requires
                tolerance == 100,
        ;
        let bound: i128 = 10000 * len2;
        assert(bound == tolerance * tolerance * len2);
        if c * c > bound {
            return false;
        }
        let d = dx * px + dy * py;
        if d < 0 {
            return false;
        }
        d <= len2
    }

    /// Returns the closest point on the segment to a point.
    pub fn closest_point(&self, point: Point) -> (r: Point)
        requires
            segment_near(*self),
            point_near(point),
        ensures
            (r.x as int, r.y as int) == closest_point_spec(*self, point),
            point_near(r),
    {
        let dx = (self.end.x - self.start.x) as i128;
        let dy = (self.end.y - self.start.y) as i128;
        let px = (point.x - self.start.x) as i128;
        let py = (point.y - self.start.y) as i128;
        proof { lemma_mul_bound(dx as int, px as int, 0x800000, 0x800000); }
        proof { lemma_mul_bound(dy as int, py as int, 0x800000, 0x800000); }
        let t = dx * px + dy * py;
        let len2 = self.len_squared();
        if t <= 0 {
            self.start
        } else if t >= len2 {
            self.end
        } else {
            proof { lemma_mul_bound(dx as int, t as int, 0x800000, 0x800000000000); }
            proof { lemma_mul_bound(dy as int, t as int, 0x800000, 0x800000000000); }
            let ox = div_toward_zero(dx * t, len2);
            let oy = div_toward_zero(dy * t, len2);
            proof { lemma_trunc_div_fraction(dx as int, t as int, len2 as int); }
            proof { lemma_trunc_div_fraction(dy as int, t as int, len2 as int); }
            proof {
                lemma_between(self.start.x as int, self.end.x as int, ox as int);
                lemma_between(self.start.y as int, self.end.y as int, oy as int);
            }
            Point { x: (self.start.x as i128 + ox) as i64, y: (self.start.y as i128 + oy) as i64 }
        }
    }

    /// Returns the intersection point of the lines through two segments.
    ///
    /// Parallel or collinear lines have none; neither has a crossing so far
    /// away that it leaves the area where points are exact.
    pub fn line_intersection(&self, other: Segment) -> (r: Option<Point>)
        requires
            segment_near(*self),
            segment_near(other),
        ensures
            r == line_intersection_spec(*self, other),
    {
        let dx = (self.end.x - self.start.x) as i128;
        let dy = (self.end.y - self.start.y) as i128;
        let odx = (other.end.x - other.start.x) as i128;
        let ody = (other.end.y - other.start.y) as i128;
        proof { lemma_mul_bound(dx as int, ody as int, 0x800000, 0x800000); }
        proof { lemma_mul_bound(dy as int, odx as int, 0x800000, 0x800000); }
        let det = dx * ody - dy * odx;
        if det == 0 {
            return None;
        }
        let sx = (other.start.x - self.start.x) as i128;
        let sy = (other.start.y - self.start.y) as i128;
        proof { lemma_mul_bound(sx as int, ody as int, 0x800000, 0x800000); }
        proof { lemma_mul_bound(sy as int, odx as int, 0x800000, 0x800000); }
        let num = sx * ody - sy * odx;
        proof { lemma_mul_bound(num as int, dx as int, 0x800000000000, 0x800000); }
        proof { lemma_mul_bound(num as int, dy as int, 0x800000000000, 0x800000); }
        proof { lemma_mul_bound((num * dx) as int, det as int, 0x400000000000000000, 0x800000000000); }
        proof { lemma_mul_bound((num * dy) as int, det as int, 0x400000000000000000, 0x800000000000); }
        proof { lemma_mul_bound(det as int, det as int, 0x800000000000, 0x800000000000); }
        assert(det * det > 0) by (nonlinear_arith)
            requires
                det != 0,
        ;
        let dd = det * det;
        let x = self.start.x as i128 + div_toward_zero(num * dx * det, dd);
        let y = self.start.y as i128 + div_toward_zero(num * dy * det, dd);
        proof {
            lemma_trunc_div_le(((num * dx) * det) as int, dd as int);
            lemma_trunc_div_le(((num * dy) * det) as int, dd as int);
        }
        if -(FAR_LIMIT as i128) <= x && x <= FAR_LIMIT as i128 && -(FAR_LIMIT as i128) <= y && y
            <= FAR_LIMIT as i128 {
            Some(Point { x: x as i64, y: y as i64 })
        } else {
            None
        }
    }

    /// Returns `true` if two segments intersect: the crossing of their lines
    /// lies on both, up to the tolerance.
    pub fn intersects(&self, other: Segment) -> (r: bool)
        requires
            segment_near(*self),
            segment_near(other),
        ensures
            r == intersects_spec(*self, other),
    {
        let intersection = match self.line_intersection(other) {
            None => return false,
            Some(p) => p,
        };
        let distance1 = distance(self.start, intersection) as i128 + distance(
            intersection,
            self.end,
        ) as i128;
        let distance2 = distance(other.start, intersection) as i128 + distance(
            intersection,
            other.end,
        ) as i128;
        distance1 - (self.len() as i128) < INTERSECT_TOLERANCE as i128 && distance2 - (
        other.len() as i128) < INTERSECT_TOLERANCE as i128
    }
}

/// Distance between two points, rounded down.
pub fn distance(p: Point, q: Point) -> (r: i64)
    requires
        point_near(p),
        point_near(q),
    ensures
        r == distance_spec(p, q),
        0 <= r <= 0x1000000,
{
    Segment { start: p, end: q }.len()
}

/// The vector of length `half_width` perpendicular to `disp`, to its left
/// (each coordinate rounded toward zero); zero for a zero `disp`.
pub fn width_vector(disp: Point, half_width: i64) -> (r: Point)
    requires
        in_limit(disp.x as int, 0x800000),
        in_limit(disp.y as int, 0x800000),
        0 <= half_width <= 0x10000,
    ensures
        r == width_vector_spec(disp.x as int, disp.y as int, half_width as int),
        in_limit(r.x as int, half_width as int),
        in_limit(r.y as int, half_width as int),
{
    if disp.x == 0 && disp.y == 0 {
        return Point { x: 0, y: 0 };
    }
    let dx = disp.x as i128;
    let dy = disp.y as i128;
    let hw = half_width as i128;
    proof { lemma_mul_bound(dx as int, dx as int, 0x800000, 0x800000); }
    proof { lemma_mul_bound(dy as int, dy as int, 0x800000, 0x800000); }
    assert(dx * dx + dy * dy > 0) by (nonlinear_arith)
        requires
            dx != 0 || dy != 0,
    ;
    let n = (dx * dx + dy * dy) as u128;
    proof {
        lemma_mul_bound(dy as int, hw as int, 0x800000, 0x10000);
        lemma_mul_bound(dx as int, hw as int, 0x800000, 0x10000);
    }
    let ax = -(dy * hw);
    let ay = dx * hw;
    proof {
        lemma_mul_bound(ax as int, ax as int, 0x8000000000, 0x8000000000);
        lemma_mul_bound(ay as int, ay as int, 0x8000000000, 0x8000000000);
    }
    let x = div_sqrt(ax, n);
    let y = div_sqrt(ay, n);
    proof {
        let ndy = -(dy as int);
        assert(ndy * ndy == dy * dy && ndy * hw == -(dy * hw)) by (nonlinear_arith)
            requires
                ndy == -(dy as int),
        ;
        lemma_width_component(ndy, dx as int, hw as int, n as int, x as int);
        lemma_width_component(dx as int, dy as int, hw as int, n as int, y as int);
    }
    Point { x: x as i64, y: y as i64 }
}

impl Line {
    /// The line through two points.
    pub fn new(p1: Point, p2: Point) -> (r: Line)
        requires
            point_near(p1),
            point_near(p2),
        ensures
            r == line_spec(p1, p2),
            line_bounded(r),
    {
        let a = p2.y - p1.y;
        let b = p1.x - p2.x;
        proof { lemma_mul_bound(a as int, p1.x as int, 0x800000, 0x400000); }
        proof { lemma_mul_bound(b as int, p1.y as int, 0x800000, 0x400000); }
        Line { a, b, c: a * p1.x + b * p1.y }
    }

    /// The line through two points, both moved by `offset`.
    pub fn with_offset(p1: Point, p2: Point, offset: Point) -> (r: Line)
        requires
            point_in_range(p1),
            point_in_range(p2),
            in_limit(offset.x as int, COORD_LIMIT as int),
            in_limit(offset.y as int, COORD_LIMIT as int),
        ensures
            r == line_spec(
                Point { x: (p1.x + offset.x) as i64, y: (p1.y + offset.y) as i64 },
                Point { x: (p2.x + offset.x) as i64, y: (p2.y + offset.y) as i64 },
            ),
    {
        Self::new(
            Point { x: p1.x + offset.x, y: p1.y + offset.y },
            Point { x: p2.x + offset.x, y: p2.y + offset.y },
        )
    }

    /// Where two lines cross, by the determinant of their system.
    pub fn intersection(self, rhs: Line) -> (r: Option<Point>)
        requires
            line_bounded(self),
            line_bounded(rhs),
        ensures
            r == line_cross_spec(self, rhs),
    {
        let (a1, b1, c1) = (self.a as i128, self.b as i128, self.c as i128);
        let (a2, b2, c2) = (rhs.a as i128, rhs.b as i128, rhs.c as i128);
        proof { lemma_mul_bound(a1 as int, b2 as int, 0x800000, 0x800000); }
        proof { lemma_mul_bound(a2 as int, b1 as int, 0x800000, 0x800000); }
        let det = a1 * b2 - a2 * b1;
        if det == 0 {
            return None;
        }
        proof { lemma_mul_bound(b2 as int, c1 as int, 0x800000, 0x400000000000); }
        proof { lemma_mul_bound(b1 as int, c2 as int, 0x800000, 0x400000000000); }
        proof { lemma_mul_bound(a1 as int, c2 as int, 0x800000, 0x400000000000); }
        proof { lemma_mul_bound(a2 as int, c1 as int, 0x800000, 0x400000000000); }
        let nx = b2 * c1 - b1 * c2;
        let ny = a1 * c2 - a2 * c1;
        proof { lemma_mul_bound(nx as int, det as int, 0x400000000000000000, 0x800000000000); }
        proof { lemma_mul_bound(ny as int, det as int, 0x400000000000000000, 0x800000000000); }
        proof { lemma_mul_bound(det as int, det as int, 0x800000000000, 0x800000000000); }
        assert(det * det > 0) by (nonlinear_arith)
            requires
                det != 0,
        ;
        let dd = det * det;
        let x = div_toward_zero(nx * det, dd);
        let y = div_toward_zero(ny * det, dd);
        if -(FAR_LIMIT as i128) <= x && x <= FAR_LIMIT as i128 && -(FAR_LIMIT as i128) <= y && y
            <= FAR_LIMIT as i128 {
            Some(Point { x: x as i64, y: y as i64 })
        } else {
            None
        }
    }
}

/// Which end of a segment.
#[derive(Clone, Copy, PartialEq, Eq, Structural, Debug)]
pub enum PointKind {
    Start,
    End,
}

impl PointKind {
    pub open spec fn inverse_spec(self) -> PointKind {
        match self {
            PointKind::Start => PointKind::End,
            PointKind::End => PointKind::Start,
        }
    }

    /// The other end.
    pub fn inverse(self) -> (r: PointKind)
        ensures
            r == self.inverse_spec(),
    {
        match self {
            PointKind::Start => PointKind::End,
            PointKind::End => PointKind::Start,
        }
    }
}

pub open spec fn point_spec(s: Segment, kind: PointKind) -> Point {
    match kind {
        PointKind::Start => s.start,
        PointKind::End => s.end,
    }
}

// ---------------------------------------------------------------------------
// Arithmetic lemmas.

pub proof fn lemma_mul_bound(a: int, b: int, am: int, bm: int)
    requires
        -am <= a <= am,
        -bm <= b <= bm,
    ensures
        -(am * bm) <= a * b <= am * bm,
{
    assert(-(am * bm) <= a * b <= am * bm) by (nonlinear_arith)
        requires
            -am <= a <= am,
            -bm <= b <= bm,
    ;
}

proof fn lemma_trunc_div_le(a: int, b: int)
    requires
        b > 0,
    ensures
        -(if a >= 0 { a } else { -a }) <= trunc_div(a, b) <= (if a >= 0 { a } else { -a }),
{
    if a >= 0 {
        assert(a / b <= a) by (nonlinear_arith)
            requires
                a >= 0,
                b > 0,
        ;
        assert(a / b >= 0) by (nonlinear_arith)
            requires
                a >= 0,
                b > 0,
        ;
    } else {
        assert((-a) / b <= -a) by (nonlinear_arith)
            requires
                a < 0,
                b > 0,
        ;
        assert((-a) / b >= 0) by (nonlinear_arith)
            requires
                a < 0,
                b > 0,
        ;
    }
}

/// For `0 < t < n`, `d * t / n` lies between 0 and `d`.
proof fn lemma_trunc_div_fraction(d: int, t: int, n: int)
    requires
        0 < t < n,
    ensures
        if d >= 0 {
            0 <= trunc_div(d * t, n) <= d
        } else {
            d <= trunc_div(d * t, n) <= 0
        },
{
    if d >= 0 {
        assert(d * t >= 0) by (nonlinear_arith)
            requires
                d >= 0,
                t > 0,
        ;
        assert(0 <= (d * t) / n <= d) by (nonlinear_arith)
            requires
                d >= 0,
                0 < t < n,
        ;
    } else {
        assert(d * t < 0) by (nonlinear_arith)
            requires
                d < 0,
                t > 0,
        ;
        assert(0 <= (-(d * t)) / n <= -d) by (nonlinear_arith)
            requires
                d < 0,
                0 < t < n,
        ;
    }
}

proof fn lemma_between(s: int, e: int, o: int)
    requires
        if e - s >= 0 {
            0 <= o <= e - s
        } else {
            e - s <= o <= 0
        },
    ensures
        (s <= s + o <= e) || (e <= s + o <= s),
{
}

/// A coordinate of the width vector is at most the half width.
proof fn lemma_width_component(a: int, b: int, hw: int, n: int, r: int)
    requires
        n == a * a + b * b,
        n > 0,
        0 <= hw,
        r == div_sqrt_spec(a * hw, n),
    ensures
        -hw <= r <= hw,
{
    let q = ((a * hw) * (a * hw)) / n;
    assert(q <= hw * hw) by (nonlinear_arith)
        requires
            n == a * a + b * b,
            n > 0,
            q == ((a * hw) * (a * hw)) / n,
    {
        assert((a * hw) * (a * hw) == (a * a) * (hw * hw));
        assert((a * a) * (hw * hw) <= n * (hw * hw));
    }
    assert(q >= 0) by (nonlinear_arith)
        requires
            n > 0,
            q == ((a * hw) * (a * hw)) / n,
    ;
    let s = sqrt_floor(q);
    assert(is_sqrt_floor(q, s)) by {
        lemma_sqrt_floor_exists(q);
    }
    if s > hw {
        lemma_square_monotone(hw + 1, s);
        assert((hw + 1) * (hw + 1) > hw * hw) by (nonlinear_arith)
            requires
                hw >= 0,
        ;
    }
}

/// Every non-negative integer has an integer square root.
pub proof fn lemma_sqrt_floor_exists(n: int)
    requires
        n >= 0,
    ensures
        is_sqrt_floor(n, sqrt_floor(n)),
    decreases n,
{
    if n == 0 {
        assert(is_sqrt_floor(0, 0));
    } else {
        lemma_sqrt_floor_exists(n - 1);
        let r = sqrt_floor(n - 1);
        if n < (r + 1) * (r + 1) {
            assert(is_sqrt_floor(n, r));
        } else {
            assert(is_sqrt_floor(n, r + 1)) by (nonlinear_arith)
                requires
                    r >= 0,
                    n == (r + 1) * (r + 1),
            ;
        }
    }
}

} // verus!
