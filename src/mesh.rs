use vstd::prelude::*;

use crate::connections::{connections_near, side_segments_spec, MinMaxResult, SegmentConnections};
use crate::triangulator::{triangulation, triangulation_input_ok, Triangulator, TRIANGULATION_LIMIT};
use crate::geometry::{
    cross, disp_x, disp_y, div_sqrt, div_sqrt_spec, dot, in_limit, inverse_spec, len_sq,
    lemma_mul_bound, line_intersection_spec, neg_point, point_in_range, point_near, segment_in_range,
    segment_near, translated, width_vector, width_vector_spec, Point, PointKind, Segment,
    COORD_LIMIT, SQRT_LIMIT,
};

verus! {

/// Wall thickness, in millimetres.
pub const WIDTH: i64 = 150;

/// Half the wall thickness.
pub const HALF_WIDTH: i64 = 75;

/// Wall height, in millimetres.
pub const HEIGHT: i64 = 2800;

/// A point in space; `y` points up, `x` and `z` span the ground plane.
#[derive(Clone, Copy, PartialEq, Eq, Structural, Debug)]
pub struct Point3 {
    pub x: i64,
    pub y: i64,
    pub z: i64,
}

/// Texture coordinates, in millimetres.
#[derive(Clone, Copy, PartialEq, Eq, Structural, Debug)]
pub struct Uv {
    pub u: i64,
    pub v: i64,
}

pub open spec fn at_height(p: Point, h: int) -> Point3 {
    Point3 { x: p.x, y: h as i64, z: p.y }
}

pub open spec fn add_point(p: Point, v: Point) -> Point {
    Point { x: (p.x + v.x) as i64, y: (p.y + v.y) as i64 }
}

/// A point expressed in the wall's own frame: distance along the wall from
/// its start, and distance to the left of it, each rounded toward zero.
pub open spec fn uv_spec(s: Segment, p: Point) -> Uv {
    let px = p.x - s.start.x;
    let py = p.y - s.start.y;
    Uv {
        u: div_sqrt_spec(dot(px, py, disp_x(s), disp_y(s)), len_sq(s)) as i64,
        v: div_sqrt_spec(cross(disp_x(s), disp_y(s), px, py), len_sq(s)) as i64,
    }
}

/// A point reached from the wall's corners: at most a little beyond the area
/// where exact intersections are kept.
pub open spec fn corner_ok(p: Point) -> bool {
    in_limit(p.x as int, 0x800000) && in_limit(p.y as int, 0x800000)
}

/// Texture coordinates of a point of the wall.
pub fn position_to_uv(s: Segment, p: Point) -> (r: Uv)
    requires
        segment_in_range(s),
        s.start != s.end,
        corner_ok(p),
    ensures
        r == uv_spec(s, p),
        in_limit(r.u as int, 0x2000000),
        in_limit(r.v as int, 0x2000000),
{
    let dx = (s.end.x - s.start.x) as i128;
    let dy = (s.end.y - s.start.y) as i128;
    let px = (p.x - s.start.x) as i128;
    let py = (p.y - s.start.y) as i128;
    proof {
        lemma_mul_bound(px as int, dx as int, 0x1000000, 0x200000);
        lemma_mul_bound(py as int, dy as int, 0x1000000, 0x200000);
        lemma_mul_bound(dx as int, py as int, 0x200000, 0x1000000);
        lemma_mul_bound(dy as int, px as int, 0x200000, 0x1000000);
        lemma_mul_bound(dx as int, dx as int, 0x200000, 0x200000);
        lemma_mul_bound(dy as int, dy as int, 0x200000, 0x200000);
    }
    let d = px * dx + py * dy;
    let c = dx * py - dy * px;
    let n = dx * dx + dy * dy;
    assert(n > 0) by (nonlinear_arith)
        requires
            n == dx * dx + dy * dy,
            dx != 0 || dy != 0,
    ;
    proof {
        lemma_mul_bound(d as int, d as int, 0x400000000000, 0x400000000000);
        lemma_mul_bound(c as int, c as int, 0x400000000000, 0x400000000000);
    }
    let u = div_sqrt(d, n as u128);
    let v = div_sqrt(c, n as u128);
    proof {
        lemma_frame_bound(px as int, py as int, dx as int, dy as int);
    }
    Uv { u: u as i64, v: v as i64 }
}

/// Coordinates in the frame of a direction are no longer than the vector.
proof fn lemma_frame_bound(px: int, py: int, dx: int, dy: int)
    requires
        in_limit(px, 0x1000000),
        in_limit(py, 0x1000000),
        dx != 0 || dy != 0,
    ensures
        in_limit(div_sqrt_spec(px * dx + py * dy, dx * dx + dy * dy), 0x2000000),
        in_limit(div_sqrt_spec(dx * py - dy * px, dx * dx + dy * dy), 0x2000000),
{
    let n = dx * dx + dy * dy;
    let ax = if px >= 0 { px } else { -px };
    let ay = if py >= 0 { py } else { -py };
    let m = if (if dx >= 0 { dx } else { -dx }) >= (if dy >= 0 { dy } else { -dy }) {
        if dx >= 0 { dx } else { -dx }
    } else {
        if dy >= 0 { dy } else { -dy }
    };
    let big = ax + ay;
    assert(m * m <= n && n >= 1) by (nonlinear_arith)
        requires
            n == dx * dx + dy * dy,
            m == dx || m == -dx || m == dy || m == -dy,
            dx != 0 || dy != 0,
    ;
    assert(-(ax * m) <= px * dx <= ax * m) by (nonlinear_arith)
        requires
            ax == px || ax == -px,
            ax >= 0,
            -m <= dx <= m,
    ;
    assert(-(ay * m) <= py * dy <= ay * m) by (nonlinear_arith)
        requires
            ay == py || ay == -py,
            ay >= 0,
            -m <= dy <= m,
    ;
    assert(-(ay * m) <= dx * py <= ay * m) by (nonlinear_arith)
        requires
            ay == py || ay == -py,
            ay >= 0,
            -m <= dx <= m,
    ;
    assert(-(ax * m) <= dy * px <= ax * m) by (nonlinear_arith)
        requires
            ax == px || ax == -px,
            ax >= 0,
            -m <= dy <= m,
    ;
    assert(big * m == ax * m + ay * m) by (nonlinear_arith)
        requires
            big == ax + ay,
    ;
    lemma_square_le_scaled(px * dx + py * dy, big, m, n);
    lemma_square_le_scaled(dx * py - dy * px, big, m, n);
    assert(big * big <= 0x2000000 * 0x2000000 && 0 <= big) by (nonlinear_arith)
        requires
            0 <= big <= 0x2000000,
    ;
    lemma_quotient_root(px * dx + py * dy, n, big * big, 0x2000000);
    lemma_quotient_root(dx * py - dy * px, n, big * big, 0x2000000);
}

/// `|a| <= big * m` and `m * m <= n` give `a * a <= big * big * n`.
proof fn lemma_square_le_scaled(a: int, big: int, m: int, n: int)
    requires
        big >= 0,
        m >= 0,
        m * m <= n,
        -(big * m) <= a <= big * m,
    ensures
        a * a <= (big * big) * n,
        big * big >= 0,
{
    assert(a * a <= (big * m) * (big * m)) by (nonlinear_arith)
        requires
            -(big * m) <= a <= big * m,
    ;
    assert((big * m) * (big * m) == (big * big) * (m * m)) by (nonlinear_arith);
    assert((big * big) * (m * m) <= (big * big) * n) by (nonlinear_arith)
        requires
            m * m <= n,
            big >= 0,
    ;
    assert(big * big >= 0) by (nonlinear_arith);
}

/// If `a * a <= b * n` and `b <= bound * bound`, then `a / sqrt(n)` is within `bound`.
proof fn lemma_quotient_root(a: int, n: int, b: int, bound: int)
    requires
        n >= 1,
        a * a <= b * n,
        0 <= b <= bound * bound,
        bound >= 0,
    ensures
        in_limit(div_sqrt_spec(a, n), bound),
{
    let q = (a * a) / n;
    assert(0 <= q <= b) by (nonlinear_arith)
        requires
            n >= 1,
            a * a <= b * n,
            q == (a * a) / n,
    ;
    crate::geometry::lemma_sqrt_floor_exists(q);
    let r = crate::geometry::sqrt_floor(q);
    if r > bound {
        assert(r * r > bound * bound) by (nonlinear_arith)
            requires
                r > bound,
                bound >= 0,
        ;
    }
}

pub open spec fn or_default(o: Option<Point>, d: Point) -> Point {
    match o {
        Some(p) => p,
        None => d,
    }
}

/// Where the left edge of a wall, moved by `w` from its centre line, meets
/// the right edge of a neighbour (`o`, pointing away from the joint); the
/// wall's own corner when the edges do not meet.
pub open spec fn left_corner(s: Segment, w: Point, o: Segment) -> Point {
    let ow = width_vector_spec(disp_x(o), disp_y(o), HALF_WIDTH as int);
    or_default(
        line_intersection_spec(translated(s, w), translated(o, neg_point(ow))),
        add_point(s.start, w),
    )
}

/// Where the right edge of a wall meets the left edge of a neighbour.
pub open spec fn right_corner(s: Segment, w: Point, o: Segment) -> Point {
    let ow = width_vector_spec(disp_x(o), disp_y(o), HALF_WIDTH as int);
    or_default(
        line_intersection_spec(translated(s, neg_point(w)), translated(inverse_spec(o), ow)),
        add_point(s.start, neg_point(w)),
    )
}

/// The left and right corners of the thick wall at the start of `s`.
pub open spec fn offset_points_spec(s: Segment, c: MinMaxResult, w: Point) -> (Point, Point) {
    match c {
        MinMaxResult::NoElements => (add_point(s.start, w), add_point(s.start, neg_point(w))),
        MinMaxResult::OneElement(o) => (left_corner(s, w, o), right_corner(s, w, o)),
        MinMaxResult::MinMax(min, max) => (left_corner(s, w, max), right_corner(s, w, min)),
    }
}

pub open spec fn minmax_in_range(c: MinMaxResult) -> bool {
    match c {
        MinMaxResult::NoElements => true,
        MinMaxResult::OneElement(o) => segment_in_range(o),
        MinMaxResult::MinMax(a, b) => segment_in_range(a) && segment_in_range(b),
    }
}

pub open spec fn small_vector(w: Point) -> bool {
    in_limit(w.x as int, HALF_WIDTH as int) && in_limit(w.y as int, HALF_WIDTH as int)
}

fn corner(s: Segment, w: Point, o: Segment, left: bool) -> (r: Point)
    requires
        segment_in_range(s),
        segment_in_range(o),
        small_vector(w),
    ensures
        left ==> r == left_corner(s, w, o),
        !left ==> r == right_corner(s, w, o),
        corner_ok(r),
{
    let ow = width_vector(o.displacement(), HALF_WIDTH);
    let back = Point { x: -ow.x, y: -ow.y };
    let nw = Point { x: -w.x, y: -w.y };
    let (edge, other, fallback) = if left {
        (s.translate(w), o.translate(back), Point { x: s.start.x + w.x, y: s.start.y + w.y })
    } else {
        (
            s.translate(nw),
            o.inverse().translate(ow),
            Point { x: s.start.x - w.x, y: s.start.y - w.y },
        )
    };
    match edge.line_intersection(other) {
        Some(p) => p,
        None => fallback,
    }
}

/// Calculates the left and right corners of the thick wall at the start of
/// `s`, where its edges (moved by `w` to either side) meet the edges of the
/// outermost neighbours at that joint.
pub fn offset_points(s: Segment, connections: MinMaxResult, w: Point) -> (r: (Point, Point))
    requires
        segment_in_range(s),
        minmax_in_range(connections),
        small_vector(w),
    ensures
        r == offset_points_spec(s, connections, w),
        corner_ok(r.0),
        corner_ok(r.1),
{
    match connections {
        MinMaxResult::NoElements => (
            Point { x: s.start.x + w.x, y: s.start.y + w.y },
            Point { x: s.start.x - w.x, y: s.start.y - w.y },
        ),
        MinMaxResult::OneElement(o) => (corner(s, w, o, true), corner(s, w, o, false)),
        MinMaxResult::MinMax(min, max) => (corner(s, w, max, true), corner(s, w, min, false)),
    }
}

/// An opening (a door, a window) cut into a wall.
#[derive(Clone, Debug)]
pub struct Aperture {
    /// Outline in the wall's plane: `x` along the wall from `translation`,
    /// `y` up.
    pub cutout: Vec<Point>,
    /// Where the opening sits.
    pub translation: Point3,
    /// Cut through the side as an interior hole, rather than from the
    /// bottom edge.
    pub hole: bool,
    /// Belongs to an object still being placed.
    pub placing_object: bool,
}

/// Most openings in one wall, and most outline points of one opening.
pub const APERTURE_LIMIT: usize = 1024;

pub open spec fn aperture_ok(a: Aperture) -> bool {
    &&& a.cutout@.len() <= APERTURE_LIMIT
    &&& forall|i: int| 0 <= i < a.cutout@.len() ==> point_in_range(#[trigger] a.cutout@[i])
    &&& in_limit(a.translation.x as int, COORD_LIMIT as int)
    &&& in_limit(a.translation.y as int, COORD_LIMIT as int)
    &&& in_limit(a.translation.z as int, COORD_LIMIT as int)
}

pub open spec fn apertures_ok(aps: Seq<Aperture>) -> bool {
    &&& aps.len() <= APERTURE_LIMIT
    &&& forall|i: int| 0 <= i < aps.len() ==> aperture_ok(#[trigger] aps[i])
}

/// Vertex and index buffers of a wall's mesh.
#[derive(Clone, Debug)]
pub struct WallMesh {
    pub positions: Vec<Point3>,
    pub uvs: Vec<Uv>,
    pub normals: Vec<Point3>,
    pub indices: Vec<u32>,
}

/// Vertex count below which index arithmetic cannot overflow.
pub const VERTEX_LIMIT: usize = 0x1000000;

pub open spec fn up() -> Point3 {
    Point3 { x: 0, y: 1, z: 0 }
}

/// The normal of horizontal faces.
fn up_vector() -> (r: Point3)
    ensures
        r == up(),
{
    Point3 { x: 0, y: 1, z: 0 }
}

impl WallMesh {
    /// The three vertex buffers have one entry per vertex, and every index
    /// names a vertex.
    pub open spec fn consistent(&self) -> bool {
        &&& self.positions@.len() == self.uvs@.len()
        &&& self.positions@.len() == self.normals@.len()
        &&& forall|i: int| 0 <= i < self.indices@.len() ==> #[trigger] self.indices@[i] < self.positions@.len()
    }

    pub fn new() -> (r: WallMesh)
        ensures
            r.positions@.len() == 0,
            r.uvs@.len() == 0,
            r.normals@.len() == 0,
            r.indices@.len() == 0,
            r.consistent(),
    {
        WallMesh { positions: Vec::new(), uvs: Vec::new(), normals: Vec::new(), indices: Vec::new() }
    }

    /// Empties all buffers, keeping their memory.
    pub fn clear(&mut self)
        ensures
            final(self).positions@.len() == 0,
            final(self).uvs@.len() == 0,
            final(self).normals@.len() == 0,
            final(self).indices@.len() == 0,
    {
        self.positions.clear();
        self.uvs.clear();
        self.normals.clear();
        self.indices.clear();
    }

    /// Number of vertices.
    pub fn vertices_count(&self) -> (r: u32)
        requires
            self.positions@.len() < VERTEX_LIMIT,
        ensures
            r == self.positions@.len(),
    {
        self.positions.len() as u32
    }

    fn push_vertex(&mut self, p: Point3, uv: Uv, n: Point3)
        ensures
            final(self).positions@ == old(self).positions@.push(p),
            final(self).uvs@ == old(self).uvs@.push(uv),
            final(self).normals@ == old(self).normals@.push(n),
            final(self).indices@ == old(self).indices@,
    {
        self.positions.push(p);
        self.uvs.push(uv);
        self.normals.push(n);
    }

    fn push_triangle(&mut self, a: u32, b: u32, c: u32)
        ensures
            final(self).indices@ == old(self).indices@ + seq![a, b, c],
            final(self).positions@ == old(self).positions@,
            final(self).uvs@ == old(self).uvs@,
            final(self).normals@ == old(self).normals@,
    {
        self.indices.push(a);
        self.indices.push(b);
        self.indices.push(c);
        assert(self.indices@ =~= old(self).indices@ + seq![a, b, c]);
    }

    /// The top face: a quad over the four corners at full height.
    fn generate_top(&mut self, s: Segment, start_left: Point, start_right: Point, end_left: Point, end_right: Point)
        requires
            segment_in_range(s),
            s.start != s.end,
            corner_ok(start_left),
            corner_ok(start_right),
            corner_ok(end_left),
            corner_ok(end_right),
        ensures
            final(self).positions@ == old(self).positions@ + top_positions(start_left, start_right, end_left, end_right),
            final(self).uvs@ == old(self).uvs@ + top_uvs(s, start_left, start_right, end_left, end_right),
            final(self).normals@ == old(self).normals@ + seq![up(), up(), up(), up()],
            final(self).indices@ == old(self).indices@ + seq![0u32, 3, 1, 1, 3, 2],
    {
        self.push_vertex(Point3 { x: start_left.x, y: HEIGHT, z: start_left.y }, position_to_uv(s, start_left), up_vector());
        self.push_vertex(Point3 { x: start_right.x, y: HEIGHT, z: start_right.y }, position_to_uv(s, start_right), up_vector());
        self.push_vertex(Point3 { x: end_right.x, y: HEIGHT, z: end_right.y }, position_to_uv(s, end_right), up_vector());
        self.push_vertex(Point3 { x: end_left.x, y: HEIGHT, z: end_left.y }, position_to_uv(s, end_left), up_vector());
        self.push_triangle(0, 3, 1);
        self.push_triangle(1, 3, 2);
        assert(self.positions@ =~= old(self).positions@ + top_positions(start_left, start_right, end_left, end_right));
        assert(self.uvs@ =~= old(self).uvs@ + top_uvs(s, start_left, start_right, end_left, end_right));
        assert(self.normals@ =~= old(self).normals@ + seq![up(), up(), up(), up()]);
        assert(self.indices@ =~= old(self).indices@ + seq![0u32, 3, 1, 1, 3, 2]);
    }

    /// A free end: a rectangle across the wall's thickness. `front` tells
    /// the start (facing back along the wall) from the end.
    fn generate_cap(&mut self, left: Point, right: Point, disp: Point, front: bool)
        requires
            old(self).positions@.len() < VERTEX_LIMIT,
            in_limit(disp.x as int, 0x200000),
            in_limit(disp.y as int, 0x200000),
        ensures
            final(self).positions@ == old(self).positions@ + cap_positions(left, right),
            final(self).uvs@ == old(self).uvs@ + cap_uvs(),
            final(self).normals@ == old(self).normals@ + cap_normals(disp, front),
            final(self).indices@ == old(self).indices@ + cap_indices(old(self).positions@.len() as int, front),
    {
        let base = self.vertices_count();
        self.push_vertex(Point3 { x: left.x, y: 0, z: left.y }, Uv { u: 0, v: 0 }, cap_normal(disp, front));
        self.push_vertex(Point3 { x: left.x, y: HEIGHT, z: left.y }, Uv { u: 0, v: HEIGHT }, cap_normal(disp, front));
        self.push_vertex(Point3 { x: right.x, y: HEIGHT, z: right.y }, Uv { u: WIDTH, v: HEIGHT }, cap_normal(disp, front));
        self.push_vertex(Point3 { x: right.x, y: 0, z: right.y }, Uv { u: WIDTH, v: 0 }, cap_normal(disp, front));
        if front {
            self.push_triangle(base, base + 1, base + 3);
            self.push_triangle(base + 1, base + 2, base + 3);
        } else {
            self.push_triangle(base, base + 3, base + 1);
            self.push_triangle(base + 1, base + 3, base + 2);
        }
        assert(self.positions@ =~= old(self).positions@ + cap_positions(left, right));
        assert(self.uvs@ =~= old(self).uvs@ + cap_uvs());
        assert(self.normals@ =~= old(self).normals@ + cap_normals(disp, front));
        assert(self.indices@ =~= old(self).indices@ + cap_indices(old(self).positions@.len() as int, front));
    }

    /// Fills the gap where three or more walls meet: one triangle from the
    /// two top corners at that end to the joint itself.
    fn generate_joint(&mut self, joint: Point, uv: Uv, first: u32, last: u32)
        requires
            old(self).positions@.len() < VERTEX_LIMIT,
        ensures
            final(self).positions@ == old(self).positions@.push(at_height(joint, HEIGHT as int)),
            final(self).uvs@ == old(self).uvs@.push(uv),
            final(self).normals@ == old(self).normals@.push(up()),
            final(self).indices@ == old(self).indices@ + seq![first, old(self).positions@.len() as u32, last],
    {
        let base = self.vertices_count();
        self.push_vertex(Point3 { x: joint.x, y: HEIGHT, z: joint.y }, uv, up_vector());
        self.push_triangle(first, base, last);
    }
}

pub open spec fn top_positions(sl: Point, sr: Point, el: Point, er: Point) -> Seq<Point3> {
    seq![at_height(sl, HEIGHT as int), at_height(sr, HEIGHT as int), at_height(er, HEIGHT as int), at_height(el, HEIGHT as int)]
}

pub open spec fn top_uvs(s: Segment, sl: Point, sr: Point, el: Point, er: Point) -> Seq<Uv> {
    seq![uv_spec(s, sl), uv_spec(s, sr), uv_spec(s, er), uv_spec(s, el)]
}

pub open spec fn cap_positions(left: Point, right: Point) -> Seq<Point3> {
    seq![at_height(left, 0), at_height(left, HEIGHT as int), at_height(right, HEIGHT as int), at_height(right, 0)]
}

pub open spec fn cap_uvs() -> Seq<Uv> {
    seq![Uv { u: 0, v: 0 }, Uv { u: 0, v: HEIGHT }, Uv { u: WIDTH, v: HEIGHT }, Uv { u: WIDTH, v: 0 }]
}

pub open spec fn cap_normal_spec(disp: Point, front: bool) -> Point3 {
    if front {
        Point3 { x: -disp.x as i64, y: 0, z: -disp.y as i64 }
    } else {
        Point3 { x: disp.x, y: 0, z: disp.y }
    }
}

pub open spec fn cap_normals(disp: Point, front: bool) -> Seq<Point3> {
    let n = cap_normal_spec(disp, front);
    seq![n, n, n, n]
}

pub open spec fn cap_indices(base: int, front: bool) -> Seq<u32> {
    if front {
        seq![base as u32, (base + 1) as u32, (base + 3) as u32, (base + 1) as u32, (base + 2) as u32, (base + 3) as u32]
    } else {
        seq![base as u32, (base + 3) as u32, (base + 1) as u32, (base + 1) as u32, (base + 3) as u32, (base + 2) as u32]
    }
}

/// The outward normal of a free end: against the wall at its start, along
/// it at its end.
fn cap_normal(disp: Point, front: bool) -> (r: Point3)
    requires
        in_limit(disp.x as int, 0x200000),
        in_limit(disp.y as int, 0x200000),
    ensures
        r == cap_normal_spec(disp, front),
{
    if front {
        Point3 { x: -disp.x, y: 0, z: -disp.y }
    } else {
        Point3 { x: disp.x, y: 0, z: disp.y }
    }
}

// ---------------------------------------------------------------------------
// Side faces.

/// A point of an opening's outline, placed on the face moved by `w` from the
/// wall's centre line, with its texture coordinates.
pub open spec fn aperture_vertex(s: Segment, t: Point3, p: Point, w: Point) -> (Point3, Uv) {
    let n = len_sq(s);
    let x = div_sqrt_spec(p.x * disp_x(s), n) + t.x + w.x;
    let z = div_sqrt_spec(p.x * disp_y(s), n) + t.z + w.y;
    let b = uv_spec(s, Point { x: x as i64, y: z as i64 });
    (Point3 { x: x as i64, y: (p.y + t.y) as i64, z: z as i64 }, Uv { u: b.u, v: (b.v + p.y) as i64 })
}

/// The vertices of the openings that are holes (`hole`) or that are not,
/// in order.
pub open spec fn apertures_vertices(s: Segment, aps: Seq<Aperture>, w: Point, hole: bool) -> Seq<(Point3, Uv)>
    decreases aps.len(),
{
    if aps.len() == 0 {
        Seq::empty()
    } else {
        apertures_vertices(s, aps.drop_last(), w, hole) + if aps.last().hole == hole {
            aps.last().cutout@.map_values(|p: Point| aperture_vertex(s, aps.last().translation, p, w))
        } else {
            Seq::empty()
        }
    }
}

/// Where each hole's outline starts, counting from `first`.
pub open spec fn hole_starts(s: Segment, aps: Seq<Aperture>, w: Point, first: int) -> Seq<u32>
    decreases aps.len(),
{
    if aps.len() == 0 {
        Seq::empty()
    } else {
        hole_starts(s, aps.drop_last(), w, first) + if aps.last().hole {
            seq![(first + apertures_vertices(s, aps.drop_last(), w, true).len()) as u32]
        } else {
            Seq::empty()
        }
    }
}

/// The vertices of a side face, from its bottom corner at the start along
/// the bottom edge (with the outlines of openings cut from it) to the end,
/// up, back to the start, and then the outlines of the holes.
pub open spec fn side_vertices(s: Segment, aps: Seq<Aperture>, ss: Point, es: Point, w: Point) -> Seq<(Point3, Uv)> {
    let su = uv_spec(s, ss);
    let eu = uv_spec(s, es);
    seq![(at_height(ss, 0), su)] + apertures_vertices(s, aps, w, false) + seq![
        (at_height(es, 0), eu),
        (at_height(es, HEIGHT as int), Uv { u: eu.u, v: (eu.v + HEIGHT) as i64 }),
        (at_height(ss, HEIGHT as int), Uv { u: su.u, v: (su.v + HEIGHT) as i64 }),
    ] + apertures_vertices(s, aps, w, true)
}

pub open spec fn side_holes(s: Segment, aps: Seq<Aperture>, w: Point) -> Seq<u32> {
    hole_starts(s, aps, w, 4 + apertures_vertices(s, aps, w, false).len() as int)
}

/// A side vertex in the plane of its face: along the wall, and up.
pub open spec fn plane_point(v: (Point3, Uv)) -> (i32, i32) {
    (v.1.u as i32, v.0.y as i32)
}

pub open spec fn plane_fits(v: (Point3, Uv)) -> bool {
    in_limit(v.1.u as int, TRIANGULATION_LIMIT as int) && in_limit(v.0.y as int, TRIANGULATION_LIMIT as int)
}

pub open spec fn all_fit(vs: Seq<(Point3, Uv)>) -> bool {
    forall|i: int| 0 <= i < vs.len() ==> plane_fits(#[trigger] vs[i])
}

pub open spec fn side_normal(w: Point) -> Point3 {
    Point3 { x: w.x, y: 0, z: w.y }
}

/// The triangles of a side face whose first vertex is `base`; none when the
/// face leaves the area the ear-clipping routine accepts.
pub open spec fn side_indices(
    s: Segment,
    aps: Seq<Aperture>,
    ss: Point,
    es: Point,
    w: Point,
    inverse: bool,
    base: int,
) -> Seq<u32> {
    let vs = side_vertices(s, aps, ss, es, w);
    if all_fit(vs) {
        triangulation(vs.map_values(|v: (Point3, Uv)| plane_point(v)), side_holes(s, aps, w), inverse).map_values(
            |i: u32| (base + i) as u32,
        )
    } else {
        Seq::empty()
    }
}

pub proof fn lemma_apertures_vertices_len(s: Segment, aps: Seq<Aperture>, w: Point, hole: bool)
    requires
        forall|i: int| 0 <= i < aps.len() ==> (#[trigger] aps[i]).cutout@.len() <= APERTURE_LIMIT,
    ensures
        apertures_vertices(s, aps, w, hole).len() <= aps.len() * APERTURE_LIMIT,
    decreases aps.len(),
{
    if aps.len() > 0 {
        assert forall|i: int| 0 <= i < aps.drop_last().len() implies (#[trigger] aps.drop_last()[i]).cutout@.len() <= APERTURE_LIMIT by {
            assert(aps.drop_last()[i] == aps[i]);
        }
        lemma_apertures_vertices_len(s, aps.drop_last(), w, hole);
        assert(aps.last() == aps[aps.len() - 1]);
    }
}

pub proof fn lemma_hole_starts(s: Segment, aps: Seq<Aperture>, w: Point, first: int)
    requires
        0 <= first,
        first + apertures_vertices(s, aps, w, true).len() < 0x100000000,
    ensures
        forall|i: int|
            0 <= i < hole_starts(s, aps, w, first).len() ==> first <= #[trigger] hole_starts(s, aps, w, first)[i] <= first
                + apertures_vertices(s, aps, w, true).len(),
        forall|i: int, j: int|
            0 <= i <= j < hole_starts(s, aps, w, first).len() ==> hole_starts(s, aps, w, first)[i] <= hole_starts(
                s,
                aps,
                w,
                first,
            )[j],
    decreases aps.len(),
{
    if aps.len() > 0 {
        let pre = aps.drop_last();
        lemma_hole_starts(s, pre, w, first);
        let h = hole_starts(s, pre, w, first);
        let total = apertures_vertices(s, pre, w, true).len();
        assert(apertures_vertices(s, aps, w, true).len() >= total);
        let full = hole_starts(s, aps, w, first);
        assert forall|i: int| 0 <= i < full.len() implies first <= #[trigger] full[i] <= first
            + apertures_vertices(s, aps, w, true).len() by {
            if i < h.len() {
                assert(full[i] == h[i]);
            }
        }
        assert forall|i: int, j: int| 0 <= i <= j < full.len() implies full[i] <= full[j] by {
            if j < h.len() {
                assert(full[i] == h[i] && full[j] == h[j]);
            } else if i < h.len() {
                assert(full[i] == h[i]);
            }
        }
    }
}

pub open spec fn positions_of(vs: Seq<(Point3, Uv)>) -> Seq<Point3> {
    vs.map_values(|v: (Point3, Uv)| v.0)
}

pub open spec fn uvs_of(vs: Seq<(Point3, Uv)>) -> Seq<Uv> {
    vs.map_values(|v: (Point3, Uv)| v.1)
}

pub open spec fn planes_of(vs: Seq<(Point3, Uv)>) -> Seq<(i32, i32)> {
    vs.map_values(|v: (Point3, Uv)| plane_point(v))
}

pub open spec fn repeat(n: Point3, len: int) -> Seq<Point3> {
    Seq::new(len as nat, |i: int| n)
}

/// Position and texture coordinates of one outline point of an opening.
fn aperture_point(s: Segment, t: Point3, p: Point, w: Point) -> (r: (Point3, Uv))
    requires
        segment_in_range(s),
        s.start != s.end,
        point_in_range(p),
        in_limit(t.x as int, COORD_LIMIT as int),
        in_limit(t.y as int, COORD_LIMIT as int),
        in_limit(t.z as int, COORD_LIMIT as int),
        small_vector(w),
    ensures
        r == aperture_vertex(s, t, p, w),
{
    let dx = (s.end.x - s.start.x) as i128;
    let dy = (s.end.y - s.start.y) as i128;
    let n = s.len_squared();
    let px = p.x as i128;
    proof {
        lemma_mul_bound(px as int, dx as int, 0x100000, 0x200000);
        lemma_mul_bound(px as int, dy as int, 0x100000, 0x200000);
        lemma_mul_bound((px * dx) as int, (px * dx) as int, 0x20000000000, 0x20000000000);
        lemma_mul_bound((px * dy) as int, (px * dy) as int, 0x20000000000, 0x20000000000);
        assert(n >= 1) by (nonlinear_arith)
            requires
                n == dx * dx + dy * dy,
                dx != 0 || dy != 0,
        ;
    }
    let ax = div_sqrt(px * dx, n as u128);
    let az = div_sqrt(px * dy, n as u128);
    proof {
        lemma_along_bound(px as int, dx as int, dy as int);
    }
    let x = ax as i64 + t.x + w.x;
    let z = az as i64 + t.z + w.y;
    let b = position_to_uv(s, Point { x, y: z });
    (Point3 { x, y: p.y + t.y, z }, Uv { u: b.u, v: b.v + p.y })
}

/// A length along the wall, carried onto the wall's direction, stays within
/// that length.
pub proof fn lemma_along_bound(px: int, dx: int, dy: int)
    requires
        in_limit(px, 0x100000),
        dx != 0 || dy != 0,
    ensures
        in_limit(div_sqrt_spec(px * dx, dx * dx + dy * dy), 0x100000),
        in_limit(div_sqrt_spec(px * dy, dx * dx + dy * dy), 0x100000),
{
    let n = dx * dx + dy * dy;
    let a = if px >= 0 { px } else { -px };
    assert(dx * dx <= n && dy * dy <= n && n >= 1) by (nonlinear_arith)
        requires
            n == dx * dx + dy * dy,
            dx != 0 || dy != 0,
    ;
    assert((px * dx) * (px * dx) == (a * a) * (dx * dx)) by (nonlinear_arith)
        requires
            a == px || a == -px,
    ;
    assert((px * dy) * (px * dy) == (a * a) * (dy * dy)) by (nonlinear_arith)
        requires
            a == px || a == -px,
    ;
    assert((a * a) * (dx * dx) <= (a * a) * n && (a * a) * (dy * dy) <= (a * a) * n) by (nonlinear_arith)
        requires
            dx * dx <= n,
            dy * dy <= n,
    ;
    assert(0 <= a * a <= 0x100000 * 0x100000) by (nonlinear_arith)
        requires
            0 <= a <= 0x100000,
    ;
    lemma_quotient_root(px * dx, n, a * a, 0x100000);
    lemma_quotient_root(px * dy, n, a * a, 0x100000);
}

impl WallMesh {
    fn push_side_vertex(&mut self, plane: &mut Vec<(i32, i32)>, fits: &mut bool, v: (Point3, Uv), n: Point3)
        ensures
            final(self).positions@ == old(self).positions@.push(v.0),
            final(self).uvs@ == old(self).uvs@.push(v.1),
            final(self).normals@ == old(self).normals@.push(n),
            final(self).indices@ == old(self).indices@,
            final(plane)@ == old(plane)@.push(plane_point(v)),
            *final(fits) == (*old(fits) && plane_fits(v)),
    {
        self.push_vertex(v.0, v.1, n);
        plane.push((v.1.u as i32, v.0.y as i32));
        let ok = -TRIANGULATION_LIMIT <= v.1.u && v.1.u <= TRIANGULATION_LIMIT && -TRIANGULATION_LIMIT
            <= v.0.y && v.0.y <= TRIANGULATION_LIMIT;
        *fits = *fits && ok;
    }

    /// Adds the outlines of the openings that are holes (`hole`) or that are
    /// not; for holes, registers where each starts, counting from `first`.
    fn push_apertures(
        &mut self,
        plane: &mut Vec<(i32, i32)>,
        fits: &mut bool,
        tri: &mut Triangulator,
        s: Segment,
        aps: &Vec<Aperture>,
        w: Point,
        hole: bool,
        first: u32,
    )
        requires
            segment_in_range(s),
            s.start != s.end,
            small_vector(w),
            apertures_ok(aps@),
            first as int + apertures_vertices(s, aps@, w, true).len() < 0x100000000,
        ensures
            final(self).positions@ == old(self).positions@ + positions_of(apertures_vertices(s, aps@, w, hole)),
            final(self).uvs@ == old(self).uvs@ + uvs_of(apertures_vertices(s, aps@, w, hole)),
            final(self).normals@ == old(self).normals@ + repeat(side_normal(w), apertures_vertices(s, aps@, w, hole).len() as int),
            final(self).indices@ == old(self).indices@,
            final(plane)@ == old(plane)@ + planes_of(apertures_vertices(s, aps@, w, hole)),
            *final(fits) == (*old(fits) && all_fit(apertures_vertices(s, aps@, w, hole))),
            hole ==> final(tri).hole_indices@ == old(tri).hole_indices@ + hole_starts(s, aps@, w, first as int),
            !hole ==> final(tri).hole_indices@ == old(tri).hole_indices@,
    {
        let normal = Point3 { x: w.x, y: 0, z: w.y };
        let mut last_index: u32 = first;
        let mut i: usize = 0;
        while i < aps.len()
            invariant
                segment_in_range(s),
                s.start != s.end,
                small_vector(w),
                apertures_ok(aps@),
                normal == side_normal(w),
                first as int + apertures_vertices(s, aps@, w, true).len() < 0x100000000,
                i <= aps@.len(),
                hole ==> last_index == first + apertures_vertices(s, aps@.subrange(0, i as int), w, true).len(),
                ({
                    let vs = apertures_vertices(s, aps@.subrange(0, i as int), w, hole);
                    &&& self.positions@ == old(self).positions@ + positions_of(vs)
                    &&& self.uvs@ == old(self).uvs@ + uvs_of(vs)
                    &&& self.normals@ == old(self).normals@ + repeat(normal, vs.len() as int)
                    &&& plane@ == old(plane)@ + planes_of(vs)
                    &&& *fits == (*old(fits) && all_fit(vs))
                }),
                self.indices@ == old(self).indices@,
                hole ==> tri.hole_indices@ == old(tri).hole_indices@ + hole_starts(s, aps@.subrange(0, i as int), w, first as int),
                !hole ==> tri.hole_indices@ == old(tri).hole_indices@,
            decreases aps.len() - i,
        {
            let a = &aps[i];
            let ghost pre = aps@.subrange(0, i as int);
            let ghost next = aps@.subrange(0, i + 1);
            proof {
                assert(next.drop_last() =~= pre);
                assert(next.last() == aps@[i as int]);
                assert(aperture_ok(aps@[i as int]));
                lemma_apertures_grow(s, aps@, w, i as int);
            }
            if a.hole == hole {
                if hole {
                    tri.add_hole(last_index);
                }
                let ghost vs0 = apertures_vertices(s, pre, w, hole);
                let ghost pos0 = self.positions@;
                let ghost uv0 = self.uvs@;
                let ghost nrm0 = self.normals@;
                let ghost plane0 = plane@;
                let ghost fits0 = *fits;
                let mut k: usize = 0;
                while k < a.cutout.len()
                    invariant
                        segment_in_range(s),
                        s.start != s.end,
                        small_vector(w),
                        aperture_ok(*a),
                        normal == side_normal(w),
                        k <= a.cutout@.len(),
                        ({
                            let vs = a.cutout@.subrange(0, k as int).map_values(
                                |p: Point| aperture_vertex(s, a.translation, p, w),
                            );
                            &&& self.positions@ == pos0 + positions_of(vs)
                            &&& self.uvs@ == uv0 + uvs_of(vs)
                            &&& self.normals@ == nrm0 + repeat(normal, vs.len() as int)
                            &&& plane@ == plane0 + planes_of(vs)
                            &&& *fits == (fits0 && all_fit(vs))
                        }),
                        self.indices@ == old(self).indices@,
                    decreases a.cutout.len() - k,
                {
                    let ghost vs = a.cutout@.subrange(0, k as int).map_values(
                        |p: Point| aperture_vertex(s, a.translation, p, w),
                    );
                    let v = aperture_point(s, a.translation, a.cutout[k], w);
                    self.push_side_vertex(plane, fits, v, normal);
                    k = k + 1;
                    proof {
                        let vs1 = a.cutout@.subrange(0, k as int).map_values(
                            |p: Point| aperture_vertex(s, a.translation, p, w),
                        );
                        assert(vs1 =~= vs.push(v));
                        assert(positions_of(vs1) =~= positions_of(vs).push(v.0));
                        assert(uvs_of(vs1) =~= uvs_of(vs).push(v.1));
                        assert(planes_of(vs1) =~= planes_of(vs).push(plane_point(v)));
                        assert(repeat(normal, vs1.len() as int) =~= repeat(normal, vs.len() as int).push(normal));
                        assert(all_fit(vs1) == (all_fit(vs) && plane_fits(v))) by {
                            if all_fit(vs) && plane_fits(v) {
                                assert forall|j: int| 0 <= j < vs1.len() implies plane_fits(#[trigger] vs1[j]) by {
                                    if j < vs.len() {
                                        assert(vs1[j] == vs[j]);
                                    }
                                }
                            }
                            if all_fit(vs1) {
                                assert(vs1[vs.len() as int] == v);
                                assert forall|j: int| 0 <= j < vs.len() implies plane_fits(#[trigger] vs[j]) by {
                                    assert(vs1[j] == vs[j]);
                                }
                            }
                        }
                        assert(self.positions@ =~= pos0 + positions_of(vs1));
                        assert(self.uvs@ =~= uv0 + uvs_of(vs1));
                        assert(self.normals@ =~= nrm0 + repeat(normal, vs1.len() as int));
                        assert(plane@ =~= plane0 + planes_of(vs1));
                    }
                }
                proof {
                    let cs = a.cutout@.map_values(|p: Point| aperture_vertex(s, a.translation, p, w));
                    assert(a.cutout@.subrange(0, a.cutout@.len() as int) =~= a.cutout@);
                    let vs1 = vs0 + cs;
                    assert(apertures_vertices(s, next, w, hole) == vs1);
                    assert(positions_of(vs1) =~= positions_of(vs0) + positions_of(cs));
                    assert(uvs_of(vs1) =~= uvs_of(vs0) + uvs_of(cs));
                    assert(planes_of(vs1) =~= planes_of(vs0) + planes_of(cs));
                    assert(repeat(normal, vs1.len() as int) =~= repeat(normal, vs0.len() as int) + repeat(normal, cs.len() as int));
                    assert(all_fit(vs1) == (all_fit(vs0) && all_fit(cs))) by {
                        if all_fit(vs0) && all_fit(cs) {
                            assert forall|j: int| 0 <= j < vs1.len() implies plane_fits(#[trigger] vs1[j]) by {
                                if j < vs0.len() {
                                    assert(vs1[j] == vs0[j]);
                                } else {
                                    assert(vs1[j] == cs[j - vs0.len()]);
                                }
                            }
                        }
                        if all_fit(vs1) {
                            assert forall|j: int| 0 <= j < vs0.len() implies plane_fits(#[trigger] vs0[j]) by {
                                assert(vs1[j] == vs0[j]);
                            }
                            assert forall|j: int| 0 <= j < cs.len() implies plane_fits(#[trigger] cs[j]) by {
                                assert(vs1[j + vs0.len()] == cs[j]);
                            }
                        }
                    }
                    assert(self.positions@ =~= old(self).positions@ + positions_of(vs1));
                    assert(self.uvs@ =~= old(self).uvs@ + uvs_of(vs1));
                    assert(self.normals@ =~= old(self).normals@ + repeat(normal, vs1.len() as int));
                    assert(plane@ =~= old(plane)@ + planes_of(vs1));
                    if hole {
                        assert(tri.hole_indices@ =~= old(tri).hole_indices@ + hole_starts(s, next, w, first as int));
                    }
                }
                if hole {
                    last_index = last_index + a.cutout.len() as u32;
                }
            } else {
                proof {
                    assert(apertures_vertices(s, next, w, hole) =~= apertures_vertices(s, pre, w, hole));
                    if hole {
                        assert(hole_starts(s, next, w, first as int) =~= hole_starts(s, pre, w, first as int));
                    }
                }
            }
            i = i + 1;
        }
        proof {
            assert(aps@.subrange(0, aps@.len() as int) =~= aps@);
        }
    }
}

/// The outlines of the first `i + 1` openings hold those of the first `i`,
/// and all of them fit in the count of all outlines.
proof fn lemma_apertures_grow(s: Segment, aps: Seq<Aperture>, w: Point, i: int)
    requires
        0 <= i < aps.len(),
        apertures_ok(aps),
    ensures
        apertures_vertices(s, aps.subrange(0, i + 1), w, true).len() <= apertures_vertices(s, aps, w, true).len(),
        aps[i].hole ==> apertures_vertices(s, aps.subrange(0, i + 1), w, true).len()
            == apertures_vertices(s, aps.subrange(0, i), w, true).len() + aps[i].cutout@.len(),
    decreases aps.len() - i,
{
    assert(aps.subrange(0, i + 1).drop_last() =~= aps.subrange(0, i));
    if i + 1 < aps.len() {
        lemma_apertures_grow(s, aps, w, i + 1);
        assert(aps.subrange(0, i + 2).drop_last() =~= aps.subrange(0, i + 1));
    } else {
        assert(aps.subrange(0, i + 1) =~= aps);
    }
}

pub proof fn lemma_all_fit_append(a: Seq<(Point3, Uv)>, b: Seq<(Point3, Uv)>)
    ensures
        all_fit(a + b) == (all_fit(a) && all_fit(b)),
{
    if all_fit(a) && all_fit(b) {
        assert forall|j: int| 0 <= j < (a + b).len() implies plane_fits(#[trigger] (a + b)[j]) by {
            if j < a.len() {
                assert((a + b)[j] == a[j]);
            } else {
                assert((a + b)[j] == b[j - a.len()]);
            }
        }
    }
    if all_fit(a + b) {
        assert forall|j: int| 0 <= j < a.len() implies plane_fits(#[trigger] a[j]) by {
            assert((a + b)[j] == a[j]);
        }
        assert forall|j: int| 0 <= j < b.len() implies plane_fits(#[trigger] b[j]) by {
            assert((a + b)[j + a.len()] == b[j]);
        }
    }
}

impl WallMesh {
    #[verifier::rlimit(100)]
    /// One side face: its outline, with openings cut from the bottom edge and
    /// holes inside, triangulated by ear clipping in the face's own plane.
    fn generate_side(
        &mut self,
        s: Segment,
        aps: &Vec<Aperture>,
        tri: &mut Triangulator,
        start_side: Point,
        end_side: Point,
        w: Point,
        inverse_winding: bool,
    )
        requires
            segment_in_range(s),
            s.start != s.end,
            corner_ok(start_side),
            corner_ok(end_side),
            small_vector(w),
            apertures_ok(aps@),
            old(tri).hole_indices@.len() == 0,
            old(self).positions@.len() <= 0x400000,
        ensures
            final(self).positions@ == old(self).positions@ + positions_of(side_vertices(s, aps@, start_side, end_side, w)),
            final(self).uvs@ == old(self).uvs@ + uvs_of(side_vertices(s, aps@, start_side, end_side, w)),
            final(self).normals@ == old(self).normals@ + repeat(
                side_normal(w),
                side_vertices(s, aps@, start_side, end_side, w).len() as int,
            ),
            final(self).indices@ == old(self).indices@ + side_indices(
                s,
                aps@,
                start_side,
                end_side,
                w,
                inverse_winding,
                old(self).positions@.len() as int,
            ),
            side_vertices(s, aps@, start_side, end_side, w).len() <= 0x200004,
            final(tri).hole_indices@.len() == 0,
    {
        proof {
            lemma_apertures_vertices_len(s, aps@, w, true);
            lemma_apertures_vertices_len(s, aps@, w, false);
        }
        let ghost nonholes = apertures_vertices(s, aps@, w, false);
        let ghost holes = apertures_vertices(s, aps@, w, true);
        let base = self.vertices_count();
        let normal = Point3 { x: w.x, y: 0, z: w.y };
        let mut plane: Vec<(i32, i32)> = Vec::new();
        let mut fits = true;
        let su = position_to_uv(s, start_side);
        let eu = position_to_uv(s, end_side);
        let ghost v0 = (at_height(start_side, 0), su);
        self.push_side_vertex(&mut plane, &mut fits, (Point3 { x: start_side.x, y: 0, z: start_side.y }, su), normal);
        self.push_apertures(&mut plane, &mut fits, tri, s, aps, w, false, 0);
        let ghost v1 = (at_height(end_side, 0), eu);
        let ghost v2 = (at_height(end_side, HEIGHT as int), Uv { u: eu.u, v: (eu.v + HEIGHT) as i64 });
        let ghost v3 = (at_height(start_side, HEIGHT as int), Uv { u: su.u, v: (su.v + HEIGHT) as i64 });
        self.push_side_vertex(&mut plane, &mut fits, (Point3 { x: end_side.x, y: 0, z: end_side.y }, eu), normal);
        self.push_side_vertex(
            &mut plane,
            &mut fits,
            (Point3 { x: end_side.x, y: HEIGHT, z: end_side.y }, Uv { u: eu.u, v: eu.v + HEIGHT }),
            normal,
        );
        self.push_side_vertex(
            &mut plane,
            &mut fits,
            (Point3 { x: start_side.x, y: HEIGHT, z: start_side.y }, Uv { u: su.u, v: su.v + HEIGHT }),
            normal,
        );
        let first = (self.positions.len() - base as usize) as u32;
        assert(first == 4 + nonholes.len());
        self.push_apertures(&mut plane, &mut fits, tri, s, aps, w, true, first);
        let ghost vs = side_vertices(s, aps@, start_side, end_side, w);
        proof {
            let a = seq![v0] + nonholes;
            let b = a + seq![v1, v2, v3];
            assert(vs == b + holes);
            assert(positions_of(vs) =~= seq![v0.0] + positions_of(nonholes) + seq![v1.0, v2.0, v3.0] + positions_of(holes));
            assert(uvs_of(vs) =~= seq![v0.1] + uvs_of(nonholes) + seq![v1.1, v2.1, v3.1] + uvs_of(holes));
            assert(planes_of(vs) =~= seq![plane_point(v0)] + planes_of(nonholes) + seq![plane_point(v1), plane_point(v2), plane_point(v3)] + planes_of(holes));
            assert(self.positions@ =~= old(self).positions@ + positions_of(vs));
            assert(self.uvs@ =~= old(self).uvs@ + uvs_of(vs));
            assert(self.normals@ =~= old(self).normals@ + repeat(normal, vs.len() as int));
            assert(plane@ =~= planes_of(vs));
            lemma_all_fit_append(seq![v0], nonholes);
            lemma_all_fit_append(a, seq![v1, v2, v3]);
            lemma_all_fit_append(b, holes);
            assert(all_fit(seq![v0]) == plane_fits(v0)) by {
                if plane_fits(v0) {
                    assert forall|j: int| 0 <= j < 1 implies plane_fits(#[trigger] seq![v0][j]) by {}
                }
                if all_fit(seq![v0]) {
                    assert(seq![v0][0] == v0);
                }
            }
            assert(all_fit(seq![v1, v2, v3]) == (plane_fits(v1) && plane_fits(v2) && plane_fits(v3))) by {
                let t = seq![v1, v2, v3];
                if plane_fits(v1) && plane_fits(v2) && plane_fits(v3) {
                    assert forall|j: int| 0 <= j < 3 implies plane_fits(#[trigger] t[j]) by {}
                }
                if all_fit(t) {
                    assert(t[0] == v1 && t[1] == v2 && t[2] == v3);
                }
            }
            assert(fits == all_fit(vs));
            assert(tri.hole_indices@ =~= side_holes(s, aps@, w));
        }
        if fits {
            proof {
                lemma_hole_starts(s, aps@, w, first as int);
                assert forall|i: int| 0 <= i < plane@.len() implies -TRIANGULATION_LIMIT <= (#[trigger] plane@[i]).0
                    <= TRIANGULATION_LIMIT && -TRIANGULATION_LIMIT <= plane@[i].1 <= TRIANGULATION_LIMIT by {
                    assert(plane_fits(vs[i]));
                    assert(plane@[i] == plane_point(vs[i]));
                }
            }
            let tris = tri.triangulate(&plane, inverse_winding);
            let ghost ind0 = self.indices@;
            let mut k: usize = 0;
            while k < tris.len()
                invariant
                    k <= tris@.len(),
                    forall|i: int| 0 <= i < tris@.len() ==> #[trigger] tris@[i] < plane@.len(),
                    plane@.len() == vs.len(),
                    vs.len() <= 0x200004,
                    base as int + vs.len() <= 0x800000,
                    self.indices@ == ind0 + tris@.subrange(0, k as int).map_values(|i: u32| (base + i) as u32),
                    self.positions@ == old(self).positions@ + positions_of(vs),
                    self.uvs@ == old(self).uvs@ + uvs_of(vs),
                    self.normals@ == old(self).normals@ + repeat(normal, vs.len() as int),
                decreases tris.len() - k,
            {
                let idx = tris[k];
                self.indices.push(base + idx);
                k = k + 1;
                assert(tris@.subrange(0, k as int).map_values(|i: u32| (base + i) as u32) =~= tris@.subrange(
                    0,
                    k - 1,
                ).map_values(|i: u32| (base + i) as u32).push((base + idx) as u32));
            }
            proof {
                assert(tris@.subrange(0, tris@.len() as int) =~= tris@);
            }
        } else {
            tri.hole_indices.clear();
        }
    }
}

// ---------------------------------------------------------------------------
// The whole wall.

/// What the end of a wall adds: a rectangle at a free end, nothing where one
/// neighbour continues the wall, and a triangle to the joint itself where
/// several walls meet.
pub open spec fn cap_part(
    c: MinMaxResult,
    left: Point,
    right: Point,
    disp: Point,
    front: bool,
    base: int,
    joint: Point,
    joint_uv: Uv,
    first: u32,
    last: u32,
) -> (Seq<Point3>, Seq<Uv>, Seq<Point3>, Seq<u32>) {
    match c {
        MinMaxResult::NoElements => (cap_positions(left, right), cap_uvs(), cap_normals(disp, front), cap_indices(base, front)),
        MinMaxResult::OneElement(_) => (Seq::empty(), Seq::empty(), Seq::empty(), Seq::empty()),
        MinMaxResult::MinMax(_, _) => (
            seq![at_height(joint, HEIGHT as int)],
            seq![joint_uv],
            seq![up()],
            seq![first, base as u32, last],
        ),
    }
}

pub open spec fn disp_of(s: Segment) -> Point {
    Point { x: disp_x(s) as i64, y: disp_y(s) as i64 }
}

pub open spec fn wall_width_spec(s: Segment) -> Point {
    width_vector_spec(disp_x(s), disp_y(s), HALF_WIDTH as int)
}

/// The mesh of a wall whose joints hold the neighbours `sc` (at its start)
/// and `ec` (at its end): positions, texture coordinates, normals, and
/// triangle corners. The top comes first, then the right and the left side,
/// then the start and the end.
pub open spec fn mesh_of(s: Segment, sc: MinMaxResult, ec: MinMaxResult, aps: Seq<Aperture>) -> (
    Seq<Point3>,
    Seq<Uv>,
    Seq<Point3>,
    Seq<u32>,
) {
    let w = wall_width_spec(s);
    let sl = offset_points_spec(s, sc, w).0;
    let sr = offset_points_spec(s, sc, w).1;
    let er = offset_points_spec(inverse_spec(s), ec, neg_point(w)).0;
    let el = offset_points_spec(inverse_spec(s), ec, neg_point(w)).1;
    let right = side_vertices(s, aps, sr, er, neg_point(w));
    let left = side_vertices(s, aps, sl, el, w);
    let b_left = 4 + right.len() as int;
    let b_caps = b_left + left.len() as int;
    let start = cap_part(sc, sl, sr, disp_of(s), true, b_caps, s.start, Uv { u: 0, v: 0 }, 1, 0);
    let end = cap_part(ec, el, er, disp_of(s), false, b_caps + start.0.len() as int, s.end, uv_spec(s, s.end), 3, 2);
    (
        top_positions(sl, sr, el, er) + positions_of(right) + positions_of(left) + start.0 + end.0,
        top_uvs(s, sl, sr, el, er) + uvs_of(right) + uvs_of(left) + start.1 + end.1,
        seq![up(), up(), up(), up()] + repeat(side_normal(neg_point(w)), right.len() as int) + repeat(
            side_normal(w),
            left.len() as int,
        ) + start.2 + end.2,
        seq![0u32, 3, 1, 1, 3, 2] + side_indices(s, aps, sr, er, neg_point(w), true, 4) + side_indices(
            s,
            aps,
            sl,
            el,
            w,
            false,
            b_left,
        ) + start.3 + end.3,
    )
}

pub open spec fn connections_in_range(c: SegmentConnections) -> bool {
    &&& forall|i: int| 0 <= i < c.start@.len() ==> segment_in_range(#[trigger] c.start@[i].segment)
    &&& forall|i: int| 0 <= i < c.end@.len() ==> segment_in_range(#[trigger] c.end@[i].segment)
}

/// The buffers of `m` are those of [`mesh_of`].
pub open spec fn mesh_matches(m: WallMesh, model: (Seq<Point3>, Seq<Uv>, Seq<Point3>, Seq<u32>)) -> bool {
    m.positions@ == model.0 && m.uvs@ == model.1 && m.normals@ == model.2 && m.indices@ == model.3
}

proof fn lemma_side_result_in_range(list: Seq<crate::connections::SegmentConnection>, d: Point, r: MinMaxResult)
    requires
        forall|i: int| 0 <= i < list.len() ==> segment_in_range(#[trigger] list[i].segment),
        side_segments_spec(list, d, r),
    ensures
        minmax_in_range(r),
{
    if list.len() == 1 {
        assert(segment_in_range(list[0].segment));
    } else if list.len() > 1 {
        let (i, j) = choose|i: int, j: int|
            crate::connections::is_first_min(crate::connections::angle_keys(list, d), i)
                && crate::connections::is_last_max(crate::connections::angle_keys(list, d), j)
                && r == MinMaxResult::MinMax(
                crate::connections::unified_spec(#[trigger] list[i]),
                crate::connections::unified_spec(#[trigger] list[j]),
            );
        assert(segment_in_range(list[i].segment));
        assert(segment_in_range(list[j].segment));
    }
}

proof fn lemma_side_indices_bounded(
    s: Segment,
    aps: Seq<Aperture>,
    ss: Point,
    es: Point,
    w: Point,
    inverse: bool,
    base: int,
)
    requires
        0 <= base,
        base + side_vertices(s, aps, ss, es, w).len() < 0x100000000,
    ensures
        forall|i: int| 0 <= i < side_indices(s, aps, ss, es, w, inverse, base).len()
            ==> #[trigger] side_indices(s, aps, ss, es, w, inverse, base)[i] < base + side_vertices(s, aps, ss, es, w).len(),
{
    let vs = side_vertices(s, aps, ss, es, w);
    if all_fit(vs) {
        let pts = vs.map_values(|v: (Point3, Uv)| plane_point(v));
        let raw = crate::triangulator::earcut_of(pts, side_holes(s, aps, w));
        crate::triangulator::lemma_kept_triangles_bounded(raw, pts.len() as int, inverse, (raw.len() / 3) as int);
        let t = triangulation(pts, side_holes(s, aps, w), inverse);
        assert forall|i: int| 0 <= i < side_indices(s, aps, ss, es, w, inverse, base).len()
            implies #[trigger] side_indices(s, aps, ss, es, w, inverse, base)[i] < base + vs.len() by {
            assert(t[i] < pts.len());
        }
    }
}

impl WallMesh {
    #[verifier::rlimit(100)]
    /// Rebuilds the mesh of a wall from scratch: the top, both sides with
    /// their openings, and a cap at each end chosen by how many neighbours
    /// meet there. A zero-length wall has an empty mesh.
    pub fn generate(
        &mut self,
        segment: Segment,
        connections: &SegmentConnections,
        apertures: &Vec<Aperture>,
        triangulator: &mut Triangulator,
    )
        requires
            segment_in_range(segment),
            connections_in_range(*connections),
            apertures_ok(apertures@),
            old(triangulator).hole_indices@.len() == 0,
        ensures
            final(self).consistent(),
            final(triangulator).hole_indices@.len() == 0,
            segment.start == segment.end ==> mesh_matches(*final(self), (Seq::empty(), Seq::empty(), Seq::empty(), Seq::empty())),
            segment.start != segment.end ==> exists|sc: MinMaxResult, ec: MinMaxResult|
                side_segments_spec(connections.start@, disp_of(segment), sc) && side_segments_spec(
                    connections.end@,
                    neg_point(disp_of(segment)),
                    ec,
                ) && mesh_matches(*final(self), #[trigger] mesh_of(segment, sc, ec, apertures@)),
    {
        self.clear();
        if segment.start == segment.end {
            assert(self.positions@ =~= Seq::empty());
            assert(self.uvs@ =~= Seq::empty());
            assert(self.normals@ =~= Seq::empty());
            assert(self.indices@ =~= Seq::empty());
            return;
        }
        let disp = segment.displacement();
        let back = Point { x: -disp.x, y: -disp.y };
        let width = width_vector(disp, HALF_WIDTH);
        let narrow = Point { x: -width.x, y: -width.y };
        proof {
            assert(connections_near(connections.start@)) by {
                assert forall|i: int| 0 <= i < connections.start@.len() implies segment_near(#[trigger] connections.start@[i].segment) by {
                    assert(segment_in_range(connections.start@[i].segment));
                }
            }
            assert(connections_near(connections.end@)) by {
                assert forall|i: int| 0 <= i < connections.end@.len() implies segment_near(#[trigger] connections.end@[i].segment) by {
                    assert(segment_in_range(connections.end@[i].segment));
                }
            }
        }
        let start_c = connections.side_segments(PointKind::Start, disp);
        let end_c = connections.side_segments(PointKind::End, back);
        proof {
            assert(connections.get_spec(PointKind::Start) == connections.start@);
            assert(connections.get_spec(PointKind::End) == connections.end@);
            assert(disp == disp_of(segment));
            assert(back == neg_point(disp_of(segment)));
            lemma_side_result_in_range(connections.start@, disp, start_c);
            lemma_side_result_in_range(connections.end@, back, end_c);
        }
        let (start_left, start_right) = offset_points(segment, start_c, width);
        let (end_right, end_left) = offset_points(segment.inverse(), end_c, narrow);
        let ghost model = mesh_of(segment, start_c, end_c, apertures@);
        self.generate_top(segment, start_left, start_right, end_left, end_right);
        // Ear clipping winds its triangles so that, laid out in the face's own
        // frame (along the wall, up), they face the wall's left; the right
        // side turns every triangle around.
        self.generate_side(segment, apertures, triangulator, start_right, end_right, narrow, true);
        self.generate_side(segment, apertures, triangulator, start_left, end_left, width, false);
        let ghost right = side_vertices(segment, apertures@, start_right, end_right, narrow);
        let ghost left = side_vertices(segment, apertures@, start_left, end_left, width);
        proof {
            assert(seq![up(), up(), up(), up()] =~= seq![up(), up(), up(), up()]);
            lemma_side_indices_bounded(segment, apertures@, start_right, end_right, narrow, true, 4);
            lemma_side_indices_bounded(segment, apertures@, start_left, end_left, width, false, 4 + right.len() as int);
        }
        match start_c {
            MinMaxResult::OneElement(_) => {},
            MinMaxResult::NoElements => self.generate_cap(start_left, start_right, disp, true),
            MinMaxResult::MinMax(_, _) => self.generate_joint(segment.start, Uv { u: 0, v: 0 }, 1, 0),
        }
        match end_c {
            MinMaxResult::OneElement(_) => {},
            MinMaxResult::NoElements => self.generate_cap(end_left, end_right, disp, false),
            MinMaxResult::MinMax(_, _) => {
                let uv = position_to_uv(segment, segment.end);
                self.generate_joint(segment.end, uv, 3, 2);
            },
        }
        proof {
            let e = Seq::<Point3>::empty();
            assert(self.positions@ =~= model.0);
            assert(self.uvs@ =~= model.1);
            assert(self.normals@ =~= model.2);
            assert(self.indices@ =~= model.3);
            assert forall|i: int| 0 <= i < self.indices@.len() implies #[trigger] self.indices@[i] < self.positions@.len() by {
                let top = seq![0u32, 3, 1, 1, 3, 2];
                let ri = side_indices(segment, apertures@, start_right, end_right, narrow, true, 4);
                let li = side_indices(segment, apertures@, start_left, end_left, width, false, 4 + right.len() as int);
                if i < 6 {
                } else if i < 6 + ri.len() {
                    assert(self.indices@[i] == ri[i - 6]);
                } else if i < 6 + ri.len() + li.len() {
                    assert(self.indices@[i] == li[i - 6 - ri.len()]);
                }
            }
        }
    }
}

/// Generating a wall's mesh depends on its inputs alone: two meshes
/// generated from the same wall, joints and openings are equal, buffer for
/// buffer, whatever the buffers held before.
pub proof fn lemma_generate_deterministic(
    a: WallMesh,
    b: WallMesh,
    s: Segment,
    sc: MinMaxResult,
    ec: MinMaxResult,
    aps: Seq<Aperture>,
)
    requires
        mesh_matches(a, mesh_of(s, sc, ec, aps)),
        mesh_matches(b, mesh_of(s, sc, ec, aps)),
    ensures
        a.positions@ == b.positions@,
        a.uvs@ == b.uvs@,
        a.normals@ == b.normals@,
        a.indices@ == b.indices@,
{
}

/// Vertices that an end of a wall with `n` neighbours adds.
pub open spec fn cap_vertex_count(n: int) -> int {
    if n == 0 {
        4
    } else if n == 1 {
        0
    } else {
        1
    }
}

/// Triangle corners that an end of a wall with `n` neighbours adds.
pub open spec fn cap_index_count(n: int) -> int {
    if n == 0 {
        6
    } else if n == 1 {
        0
    } else {
        3
    }
}

/// How the ends of a wall are closed: a free end adds a rectangle (four
/// vertices, two triangles), an end with exactly one neighbour adds nothing,
/// and an end where three or more walls meet adds a single triangle to the
/// joint. The rest of the mesh is the top quad and the two sides.
pub proof fn lemma_end_cap_branching(
    s: Segment,
    connections: SegmentConnections,
    aps: Seq<Aperture>,
    sc: MinMaxResult,
    ec: MinMaxResult,
)
    requires
        side_segments_spec(connections.start@, disp_of(s), sc),
        side_segments_spec(connections.end@, neg_point(disp_of(s)), ec),
    ensures
        ({
            let m = mesh_of(s, sc, ec, aps);
            let w = wall_width_spec(s);
            let sl = offset_points_spec(s, sc, w).0;
            let sr = offset_points_spec(s, sc, w).1;
            let er = offset_points_spec(inverse_spec(s), ec, neg_point(w)).0;
            let el = offset_points_spec(inverse_spec(s), ec, neg_point(w)).1;
            let right = side_vertices(s, aps, sr, er, neg_point(w));
            let left = side_vertices(s, aps, sl, el, w);
            &&& m.0.len() == 4 + right.len() + left.len() + cap_vertex_count(connections.start@.len() as int)
                + cap_vertex_count(connections.end@.len() as int)
            &&& m.0.len() == m.1.len() && m.0.len() == m.2.len()
            &&& m.3.len() == 6 + side_indices(s, aps, sr, er, neg_point(w), true, 4).len() + side_indices(
                s,
                aps,
                sl,
                el,
                w,
                false,
                4 + right.len() as int,
            ).len() + cap_index_count(connections.start@.len() as int) + cap_index_count(
                connections.end@.len() as int,
            )
        }),
{
    if connections.start@.len() > 1 {
        let (i, j) = choose|i: int, j: int|
            crate::connections::is_first_min(crate::connections::angle_keys(connections.start@, disp_of(s)), i)
                && crate::connections::is_last_max(crate::connections::angle_keys(connections.start@, disp_of(s)), j)
                && sc == MinMaxResult::MinMax(
                crate::connections::unified_spec(#[trigger] connections.start@[i]),
                crate::connections::unified_spec(#[trigger] connections.start@[j]),
            );
    }
    if connections.end@.len() > 1 {
        let (i, j) = choose|i: int, j: int|
            crate::connections::is_first_min(crate::connections::angle_keys(connections.end@, neg_point(disp_of(s))), i)
                && crate::connections::is_last_max(crate::connections::angle_keys(connections.end@, neg_point(disp_of(s))), j)
                && ec == MinMaxResult::MinMax(
                crate::connections::unified_spec(#[trigger] connections.end@[i]),
                crate::connections::unified_spec(#[trigger] connections.end@[j]),
            );
    }
}

} // verus!
