use vstd::prelude::*;

use crate::geometry::{lemma_mul_bound, point_in_range, Point};

verus! {

/// The outline of a lot, as a chain of points.
pub struct LotVertices(pub Vec<Point>);

/// The edge from `a` to `b` crosses the horizontal ray from `p` towards
/// growing `x`: the edge spans `p`'s height and passes to the right of `p`.
pub open spec fn crosses(a: Point, b: Point, p: Point) -> bool {
    let dy = b.y - a.y;
    let lhs = (p.x - a.x) * dy;
    let rhs = (b.x - a.x) * (p.y - a.y);
    &&& (a.y > p.y) != (b.y > p.y)
    &&& if dy > 0 {
        lhs < rhs
    } else {
        lhs > rhs
    }
}

/// Whether the ray from `p` crossed the first `k` edges of the chain an odd
/// number of times.
pub open spec fn inside_after(vs: Seq<Point>, p: Point, k: int) -> bool
    decreases k,
{
    if k <= 0 {
        false
    } else {
        inside_after(vs, p, k - 1) != crosses(vs[k - 1], vs[k], p)
    }
}

impl LotVertices {
    /// Returns `true` if the point lies inside the outline, by the parity of
    /// the edges that a ray from it crosses.
    pub fn contains_point(&self, point: Point) -> (r: bool)
        requires
            forall|i: int| 0 <= i < self.0@.len() ==> point_in_range(#[trigger] self.0@[i]),
            point_in_range(point),
        ensures
            r == inside_after(self.0@, point, self.0@.len() - 1),
    {
        let vs = &self.0;
        let mut inside = false;
        if vs.len() < 2 {
            return false;
        }
        let mut k: usize = 1;
        while k < vs.len()
            invariant
                1 <= k <= vs@.len(),
                forall|i: int| 0 <= i < vs@.len() ==> point_in_range(#[trigger] vs@[i]),
                point_in_range(point),
                inside == inside_after(vs@, point, k - 1),
            decreases vs.len() - k,
        {
            let a = vs[k - 1];
            let b = vs[k];
            assert(point_in_range(vs@[k - 1]) && point_in_range(vs@[k as int]));
            let dy = b.y as i128 - a.y as i128;
            let ex = b.x as i128 - a.x as i128;
            let px = point.x as i128 - a.x as i128;
            let py = point.y as i128 - a.y as i128;
            proof {
                lemma_mul_bound(px as int, dy as int, 0x200000, 0x200000);
                lemma_mul_bound(ex as int, py as int, 0x200000, 0x200000);
            }
            let lhs = px * dy;
            let rhs = ex * py;
            let crossing = ((a.y > point.y) != (b.y > point.y)) && if dy > 0 {
                lhs < rhs
            } else {
                lhs > rhs
            };
            if crossing {
                inside = !inside;
            }
            k = k + 1;
        }
        inside
    }
}

} // verus!
