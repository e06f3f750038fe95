use vstd::prelude::*;

use crate::geometry::{
    disp_x, disp_y, div_sqrt, div_sqrt_spec, in_limit, len_sq, lemma_mul_bound, segment_in_range,
    width_vector, width_vector_spec, Point, Segment,
};
use crate::mesh::{add_point, apertures_ok, at_height, lemma_along_bound, Aperture, Point3, HALF_WIDTH, HEIGHT};

verus! {

/// An opening that splits the collider: one that reaches the bottom edge and
/// is not a preview of an object being placed.
pub open spec fn splits(a: Aperture) -> bool {
    !a.hole && !a.placing_object
}

/// The point `x` along the wall from an opening's position.
pub open spec fn along(s: Segment, t: Point3, x: int) -> Point {
    Point {
        x: (t.x + div_sqrt_spec(x * disp_x(s), len_sq(s))) as i64,
        y: (t.z + div_sqrt_spec(x * disp_y(s), len_sq(s))) as i64,
    }
}

/// Where the solid stretch after the splitting openings among `aps` begins.
pub open spec fn span_start(s: Segment, aps: Seq<Aperture>) -> Point
    decreases aps.len(),
{
    if aps.len() == 0 {
        s.start
    } else if splits(aps.last()) {
        along(s, aps.last().translation, aps.last().cutout@.last().x as int)
    } else {
        span_start(s, aps.drop_last())
    }
}

/// The solid stretches closed by the splitting openings among `aps`: each
/// runs from the end of the previous opening to the start of the next.
pub open spec fn closed_spans(s: Segment, aps: Seq<Aperture>) -> Seq<(Point, Point)>
    decreases aps.len(),
{
    if aps.len() == 0 {
        Seq::empty()
    } else {
        closed_spans(s, aps.drop_last()) + if splits(aps.last()) {
            seq![(span_start(s, aps.drop_last()), along(s, aps.last().translation, aps.last().cutout@[0].x as int))]
        } else {
            Seq::empty()
        }
    }
}

/// All solid stretches of the wall, the last one ending at the wall's end.
pub open spec fn spans(s: Segment, aps: Seq<Aperture>) -> Seq<(Point, Point)> {
    closed_spans(s, aps).push((span_start(s, aps), s.end))
}

pub open spec fn cuboid_vertices(a: Point, b: Point) -> Seq<Point3> {
    let w = width_vector_spec(b.x - a.x, b.y - a.y, HALF_WIDTH as int);
    let ls = add_point(a, w);
    let rs = add_point(a, Point { x: -w.x as i64, y: -w.y as i64 });
    let le = add_point(b, w);
    let re = add_point(b, Point { x: -w.x as i64, y: -w.y as i64 });
    seq![
        at_height(ls, 0), at_height(rs, 0), at_height(re, 0), at_height(le, 0),
        at_height(ls, HEIGHT as int), at_height(rs, HEIGHT as int), at_height(re, HEIGHT as int), at_height(le, HEIGHT as int),
    ]
}

/// Top, left, right, back and front faces of a cuboid whose first vertex is
/// `base`; the bottom is never seen.
pub open spec fn cuboid_triangles(base: int) -> Seq<(u32, u32, u32)> {
    let i = |k: int| (base + k) as u32;
    seq![
        (i(5), i(4), i(6)), (i(4), i(7), i(6)),
        (i(3), i(4), i(0)), (i(3), i(7), i(4)),
        (i(1), i(5), i(2)), (i(5), i(6), i(2)),
        (i(0), i(5), i(1)), (i(0), i(4), i(5)),
        (i(2), i(6), i(3)), (i(6), i(7), i(3)),
    ]
}

pub open spec fn collider_vertices(sp: Seq<(Point, Point)>) -> Seq<Point3>
    decreases sp.len(),
{
    if sp.len() == 0 {
        Seq::empty()
    } else {
        collider_vertices(sp.drop_last()) + cuboid_vertices(sp.last().0, sp.last().1)
    }
}

pub open spec fn collider_triangles(sp: Seq<(Point, Point)>) -> Seq<(u32, u32, u32)>
    decreases sp.len(),
{
    if sp.len() == 0 {
        Seq::empty()
    } else {
        collider_triangles(sp.drop_last()) + cuboid_triangles(8 * (sp.len() - 1))
    }
}

pub open spec fn splitting_outlines_ok(aps: Seq<Aperture>) -> bool {
    forall|i: int| 0 <= i < aps.len() && splits(#[trigger] aps[i]) ==> aps[i].cutout@.len() > 0
}

/// A simplified collider for a wall: triangles over one solid cuboid for each
/// stretch between the openings that split it.
pub struct TriMesh {
    pub vertices: Vec<Point3>,
    pub triangles: Vec<(u32, u32, u32)>,
}

pub open spec fn span_ok(p: Point) -> bool {
    in_limit(p.x as int, 0x300000) && in_limit(p.y as int, 0x300000)
}

/// Adds one cuboid between two points of the ground plane.
fn generate_cuboid(vertices: &mut Vec<Point3>, triangles: &mut Vec<(u32, u32, u32)>, start: Point, end: Point)
    requires
        span_ok(start),
        span_ok(end),
        old(vertices)@.len() <= 0x100000,
    ensures
        final(vertices)@ == old(vertices)@ + cuboid_vertices(start, end),
        final(triangles)@ == old(triangles)@ + cuboid_triangles(old(vertices)@.len() as int),
{
    let base = vertices.len() as u32;
    let w = width_vector(Point { x: end.x - start.x, y: end.y - start.y }, HALF_WIDTH);
    let ls = Point { x: start.x + w.x, y: start.y + w.y };
    let rs = Point { x: start.x - w.x, y: start.y - w.y };
    let le = Point { x: end.x + w.x, y: end.y + w.y };
    let re = Point { x: end.x - w.x, y: end.y - w.y };
    vertices.push(Point3 { x: ls.x, y: 0, z: ls.y });
    vertices.push(Point3 { x: rs.x, y: 0, z: rs.y });
    vertices.push(Point3 { x: re.x, y: 0, z: re.y });
    vertices.push(Point3 { x: le.x, y: 0, z: le.y });
    vertices.push(Point3 { x: ls.x, y: HEIGHT, z: ls.y });
    vertices.push(Point3 { x: rs.x, y: HEIGHT, z: rs.y });
    vertices.push(Point3 { x: re.x, y: HEIGHT, z: re.y });
    vertices.push(Point3 { x: le.x, y: HEIGHT, z: le.y });
    // Top
    triangles.push((base + 5, base + 4, base + 6));
    triangles.push((base + 4, base + 7, base + 6));
    // Left
    triangles.push((base + 3, base + 4, base));
    triangles.push((base + 3, base + 7, base + 4));
    // Right
    triangles.push((base + 1, base + 5, base + 2));
    triangles.push((base + 5, base + 6, base + 2));
    // Back
    triangles.push((base, base + 5, base + 1));
    triangles.push((base, base + 4, base + 5));
    // Front
    triangles.push((base + 2, base + 6, base + 3));
    triangles.push((base + 6, base + 7, base + 3));
    assert(vertices@ =~= old(vertices)@ + cuboid_vertices(start, end));
    assert(triangles@ =~= old(triangles)@ + cuboid_triangles(old(vertices)@.len() as int));
}

/// The point `x` along the wall from `t`.
fn along_point(s: Segment, t: Point3, x: i64) -> (r: Point)
    requires
        segment_in_range(s),
        s.start != s.end,
        in_limit(x as int, 0x100000),
        in_limit(t.x as int, 0x100000),
        in_limit(t.z as int, 0x100000),
    ensures
        r == along(s, t, x as int),
        span_ok(r),
{
    let dx = (s.end.x - s.start.x) as i128;
    let dy = (s.end.y - s.start.y) as i128;
    let n = s.len_squared();
    proof {
        lemma_mul_bound(x as int, dx as int, 0x100000, 0x200000);
        lemma_mul_bound(x as int, dy as int, 0x100000, 0x200000);
        lemma_mul_bound((x * dx) as int, (x * dx) as int, 0x20000000000, 0x20000000000);
        lemma_mul_bound((x * dy) as int, (x * dy) as int, 0x20000000000, 0x20000000000);
        assert(n >= 1) by (nonlinear_arith)
            requires
                n == dx * dx + dy * dy,
                dx != 0 || dy != 0,
        ;
        lemma_along_bound(x as int, dx as int, dy as int);
    }
    let ax = div_sqrt(x as i128 * dx, n as u128);
    let az = div_sqrt(x as i128 * dy, n as u128);
    Point { x: t.x + ax as i64, y: t.z + az as i64 }
}

/// Generates a simplified collider made of cuboids: the openings that reach
/// the bottom edge split the wall into solid stretches, one cuboid each. A
/// zero-length wall has none.
pub fn generate_collider(s: Segment, apertures: &Vec<Aperture>) -> (r: TriMesh)
    requires
        segment_in_range(s),
        apertures_ok(apertures@),
        splitting_outlines_ok(apertures@),
    ensures
        s.start == s.end ==> r.vertices@.len() == 0 && r.triangles@.len() == 0,
        s.start != s.end ==> r.vertices@ == collider_vertices(spans(s, apertures@)),
        s.start != s.end ==> r.triangles@ == collider_triangles(spans(s, apertures@)),
{
    let mut vertices: Vec<Point3> = Vec::new();
    let mut triangles: Vec<(u32, u32, u32)> = Vec::new();
    if s.start == s.end {
        return TriMesh { vertices, triangles };
    }
    let mut start = s.start;
    let mut i: usize = 0;
    while i < apertures.len()
        invariant
            segment_in_range(s),
            s.start != s.end,
            apertures_ok(apertures@),
            splitting_outlines_ok(apertures@),
            i <= apertures@.len(),
            start == span_start(s, apertures@.subrange(0, i as int)),
            span_ok(start),
            vertices@ == collider_vertices(closed_spans(s, apertures@.subrange(0, i as int))),
            triangles@ == collider_triangles(closed_spans(s, apertures@.subrange(0, i as int))),
            closed_spans(s, apertures@.subrange(0, i as int)).len() <= i,
            vertices@.len() == 8 * closed_spans(s, apertures@.subrange(0, i as int)).len(),
        decreases apertures.len() - i,
    {
        let a = &apertures[i];
        let ghost pre = apertures@.subrange(0, i as int);
        let ghost next = apertures@.subrange(0, i + 1);
        proof {
            assert(next.drop_last() =~= pre);
            assert(next.last() == apertures@[i as int]);
            assert(crate::mesh::aperture_ok(apertures@[i as int]));
        }
        if !a.hole && !a.placing_object {
            assert(splits(apertures@[i as int]));
            let first = a.cutout[0];
            let last = a.cutout[a.cutout.len() - 1];
            assert(crate::geometry::point_in_range(a.cutout@[0]));
            assert(crate::geometry::point_in_range(a.cutout@[a.cutout@.len() - 1]));
            let end = along_point(s, a.translation, first.x);
            let ghost sp = closed_spans(s, pre);
            generate_cuboid(&mut vertices, &mut triangles, start, end);
            start = along_point(s, a.translation, last.x);
            proof {
                assert(closed_spans(s, next) == sp.push((span_start(s, pre), end)));
                let sp1 = sp.push((span_start(s, pre), end));
                assert(sp1.drop_last() =~= sp);
                assert(vertices@ == collider_vertices(sp1));
                assert(triangles@ == collider_triangles(sp1));
                assert(a.cutout@.last() == a.cutout@[a.cutout@.len() - 1]);
            }
        } else {
            proof {
                assert(closed_spans(s, next) =~= closed_spans(s, pre));
            }
        }
        i = i + 1;
    }
    proof {
        assert(apertures@.subrange(0, apertures@.len() as int) =~= apertures@);
    }
    let ghost sp = closed_spans(s, apertures@);
    generate_cuboid(&mut vertices, &mut triangles, start, s.end);
    proof {
        let all = spans(s, apertures@);
        assert(all.drop_last() =~= sp);
        assert(all.last() == (span_start(s, apertures@), s.end));
    }
    TriMesh { vertices, triangles }
}

} // verus!
