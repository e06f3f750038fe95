use vstd::prelude::*;

verus! {

/// Largest absolute coordinate the ear-clipping routine accepts.
pub const TRIANGULATION_LIMIT: i64 = 524288;

/// The flat list of triangle corners that ear clipping gives for a polygon
/// (outer ring, then the holes starting at the given indices).
pub uninterp spec fn earcut_of(points: Seq<(i32, i32)>, holes: Seq<u32>) -> Seq<u32>;

/// The ear-clipping routine accepts these points and hole starts.
pub open spec fn triangulation_input_ok(points: Seq<(i32, i32)>, holes: Seq<u32>) -> bool {
    &&& points.len() <= 0x400000
    &&& forall|i: int|
        0 <= i < points.len() ==> -TRIANGULATION_LIMIT <= (#[trigger] points[i]).0 <= TRIANGULATION_LIMIT
            && -TRIANGULATION_LIMIT <= points[i].1 <= TRIANGULATION_LIMIT
    &&& forall|i: int| 0 <= i < holes.len() ==> #[trigger] holes[i] <= points.len()
    &&& forall|i: int, j: int| 0 <= i <= j < holes.len() ==> holes[i] <= holes[j]
}

/// Relies on `earcut::int::EarcutI32::earcut`: ear clipping with exact
/// integer arithmetic. It panics on coordinates outside `[-2^19, 2^19]`, on
/// hole starts past the end or out of order, and when its node storage
/// outgrows 32-bit byte offsets (hundreds of millions of points; at most
/// 2^22 are passed here). The result depends on the points and hole starts
/// alone.
#[verifier::external_body]
fn earcut_i32(points: &Vec<(i32, i32)>, holes: &Vec<u32>) -> (r: Vec<u32>)
    requires
        triangulation_input_ok(points@, holes@),
    ensures
        r@ == earcut_of(points@, holes@),
{
    let mut out: Vec<u32> = Vec::new();
    earcut::int::EarcutI32::new().earcut(points.iter().map(|&(x, y)| [x, y]), holes, &mut out);
    out
}

/// The `t`-th triangle of `raw` names only corners below `n`.
pub open spec fn triangle_valid(raw: Seq<u32>, t: int, n: int) -> bool {
    raw[3 * t] < n && raw[3 * t + 1] < n && raw[3 * t + 2] < n
}

/// The `t`-th triangle of `raw`, with its first and last corner swapped when
/// `inverse` is set.
pub open spec fn oriented_triangle(raw: Seq<u32>, t: int, inverse: bool) -> Seq<u32> {
    if inverse {
        seq![raw[3 * t + 2], raw[3 * t + 1], raw[3 * t]]
    } else {
        seq![raw[3 * t], raw[3 * t + 1], raw[3 * t + 2]]
    }
}

/// The first `m` complete triangles of `raw` that name only corners below
/// `n`, each oriented.
pub open spec fn kept_triangles(raw: Seq<u32>, n: int, inverse: bool, m: int) -> Seq<u32>
    decreases m,
{
    if m <= 0 {
        Seq::empty()
    } else {
        kept_triangles(raw, n, inverse, m - 1) + if triangle_valid(raw, m - 1, n) {
            oriented_triangle(raw, m - 1, inverse)
        } else {
            Seq::empty()
        }
    }
}

/// What [`Triangulator::triangulate`] returns.
pub open spec fn triangulation(
    points: Seq<(i32, i32)>,
    holes: Seq<u32>,
    inverse: bool,
) -> Seq<u32> {
    let raw = earcut_of(points, holes);
    kept_triangles(raw, points.len() as int, inverse, (raw.len() / 3) as int)
}

pub proof fn lemma_kept_triangles_bounded(raw: Seq<u32>, n: int, inverse: bool, m: int)
    requires
        m <= raw.len() / 3,
    ensures
        kept_triangles(raw, n, inverse, m).len() % 3 == 0,
        forall|i: int|
            0 <= i < kept_triangles(raw, n, inverse, m).len() ==> #[trigger] kept_triangles(
                raw,
                n,
                inverse,
                m,
            )[i] < n,
    decreases m,
{
    if m > 0 {
        lemma_kept_triangles_bounded(raw, n, inverse, m - 1);
        let a = kept_triangles(raw, n, inverse, m - 1);
        let b = if triangle_valid(raw, m - 1, n) {
            oriented_triangle(raw, m - 1, inverse)
        } else {
            Seq::empty()
        };
        assert forall|i: int| 0 <= i < (a + b).len() implies #[trigger] (a + b)[i] < n by {
            if i >= a.len() {
                assert((a + b)[i] == b[i - a.len()]);
            }
        }
    }
}

/// Ear clipping with hole support, with buffers kept across calls.
pub struct Triangulator {
    pub hole_indices: Vec<u32>,
    pub indices: Vec<u32>,
}

impl Triangulator {
    pub fn new() -> (r: Triangulator)
        ensures
            r.hole_indices@.len() == 0,
            r.indices@.len() == 0,
    {
        Triangulator { hole_indices: Vec::new(), indices: Vec::new() }
    }

    /// Registers the index at which the next hole starts in the points of
    /// the coming call to `triangulate`.
    pub fn add_hole(&mut self, index: u32)
        ensures
            final(self).hole_indices@ == old(self).hole_indices@.push(index),
            final(self).indices@ == old(self).indices@,
    {
        self.hole_indices.push(index);
    }

    /// Triangulates a polygon with the registered holes and forgets the
    /// holes. Every triangle has its first and last corner swapped when
    /// `inverse_winding` is set; a triangle that names a missing point is
    /// dropped.
    pub fn triangulate(&mut self, points: &Vec<(i32, i32)>, inverse_winding: bool) -> (r: &Vec<u32>)
        requires
            triangulation_input_ok(points@, old(self).hole_indices@),
        ensures
            final(self).hole_indices@.len() == 0,
            r@ == triangulation(points@, old(self).hole_indices@, inverse_winding),
            final(self).indices@ == r@,
            r@.len() % 3 == 0,
            forall|i: int| 0 <= i < r@.len() ==> #[trigger] r@[i] < points@.len(),
    {
        let ghost holes = self.hole_indices@;
        let raw = earcut_i32(points, &self.hole_indices);
        self.hole_indices.clear();
        self.indices.clear();
        let n = points.len();
        let len = raw.len();
        let m = len / 3;
        let mut t: usize = 0;
        while t < m
            invariant
                m == raw@.len() / 3,
                len == raw@.len(),
                n == points@.len(),
                raw@ == earcut_of(points@, holes),
                t <= m,
                self.indices@ == kept_triangles(raw@, n as int, inverse_winding, t as int),
                self.hole_indices@.len() == 0,
            decreases m - t,
        {
            assert(3 * t + 2 < len) by (nonlinear_arith)
                requires
                    t < m,
                    m == len / 3,
            ;
            let a = raw[3 * t];
            let b = raw[3 * t + 1];
            let c = raw[3 * t + 2];
            if (a as usize) < n && (b as usize) < n && (c as usize) < n {
                if inverse_winding {
                    self.indices.push(c);
                    self.indices.push(b);
                    self.indices.push(a);
                } else {
                    self.indices.push(a);
                    self.indices.push(b);
                    self.indices.push(c);
                }
            }
            t = t + 1;
            assert(self.indices@ =~= kept_triangles(raw@, n as int, inverse_winding, t as int));
        }
        proof {
            lemma_kept_triangles_bounded(raw@, n as int, inverse_winding, m as int);
        }
        &self.indices
    }
}

} // verus!
