use vstd::prelude::*;

use crate::angle::{angle_less, lemma_angle_cotrans, lemma_angle_irreflexive, lemma_angle_trans};
use crate::geometry::{
    cross, disp_x, disp_y, dot, in_limit, inverse_spec, lemma_mul_bound, segment_near, Point,
    PointKind, Segment,
};

verus! {

/// A link from one segment's endpoint to another segment.
#[derive(Clone, Copy, PartialEq, Eq, Structural, Debug)]
pub struct SegmentConnection {
    /// Index of the connected segment.
    pub entity: usize,
    /// The connected segment, as it was when the link was made.
    pub segment: Segment,
    /// The endpoint of the connected segment that touches.
    pub kind: PointKind,
}

/// Connected segments for each endpoint of a segment.
#[derive(Clone, Debug)]
pub struct SegmentConnections {
    pub start: Vec<SegmentConnection>,
    pub end: Vec<SegmentConnection>,
}

/// The neighbours at a joint with the smallest and the largest angle.
#[derive(Clone, Copy, PartialEq, Eq, Structural, Debug)]
pub enum MinMaxResult {
    NoElements,
    OneElement(Segment),
    MinMax(Segment, Segment),
}

/// The connected segment, turned so that it points away from the joint.
pub open spec fn unified_spec(c: SegmentConnection) -> Segment {
    match c.kind {
        PointKind::Start => c.segment,
        PointKind::End => inverse_spec(c.segment),
    }
}

/// Frame coordinates of the connected segment's direction against `d`.
pub open spec fn angle_key(c: SegmentConnection, d: Point) -> (int, int) {
    let s = unified_spec(c);
    (dot(disp_x(s), disp_y(s), d.x as int, d.y as int), cross(disp_x(s), disp_y(s), d.x as int, d.y as int))
}

pub open spec fn angle_keys(list: Seq<SegmentConnection>, d: Point) -> Seq<(int, int)> {
    list.map_values(|c: SegmentConnection| angle_key(c, d))
}

/// `i` is the first of the smallest keys.
pub open spec fn is_first_min(keys: Seq<(int, int)>, i: int) -> bool {
    &&& 0 <= i < keys.len()
    &&& forall|j: int| 0 <= j < keys.len() ==> !angle_less(#[trigger] keys[j], keys[i])
    &&& forall|j: int| 0 <= j < i ==> angle_less(keys[i], #[trigger] keys[j])
}

/// `i` is the last of the largest keys.
pub open spec fn is_last_max(keys: Seq<(int, int)>, i: int) -> bool {
    &&& 0 <= i < keys.len()
    &&& forall|j: int| 0 <= j < keys.len() ==> !angle_less(keys[i], #[trigger] keys[j])
    &&& forall|j: int| i < j < keys.len() ==> angle_less(#[trigger] keys[j], keys[i])
}

/// What `side_segments` returns for a list of connections and a reference direction.
pub open spec fn side_segments_spec(
    list: Seq<SegmentConnection>,
    d: Point,
    r: MinMaxResult,
) -> bool {
    let keys = angle_keys(list, d);
    if list.len() == 0 {
        r == MinMaxResult::NoElements
    } else if list.len() == 1 {
        r == MinMaxResult::OneElement(unified_spec(list[0]))
    } else {
        exists|i: int, j: int|
            is_first_min(keys, i) && is_last_max(keys, j) && r == MinMaxResult::MinMax(
                unified_spec(#[trigger] list[i]),
                unified_spec(#[trigger] list[j]),
            )
    }
}

pub open spec fn connections_near(list: Seq<SegmentConnection>) -> bool {
    forall|i: int| 0 <= i < list.len() ==> segment_near(#[trigger] list[i].segment)
}

/// The first minimum and the last maximum of a list are each unique.
pub proof fn lemma_min_max_unique(keys: Seq<(int, int)>, i1: int, i2: int, j1: int, j2: int)
    requires
        is_first_min(keys, i1),
        is_first_min(keys, i2),
        is_last_max(keys, j1),
        is_last_max(keys, j2),
    ensures
        i1 == i2,
        j1 == j2,
{
    if i1 < i2 {
        assert(angle_less(keys[i2], keys[i1]));
    } else if i2 < i1 {
        assert(angle_less(keys[i1], keys[i2]));
    }
    if j1 < j2 {
        assert(angle_less(keys[j2], keys[j1]));
    } else if j2 < j1 {
        assert(angle_less(keys[j1], keys[j2]));
    }
}

/// Indices of the first smallest and the last largest key.
pub fn minmax_indices(keys: &Vec<(i128, i128)>) -> (r: (usize, usize))
    requires
        keys.len() > 0,
        forall|j: int|
            0 <= j < keys.len() ==> in_limit((#[trigger] keys@[j]).0 as int, 0x1000000000000)
                && in_limit(keys@[j].1 as int, 0x1000000000000),
    ensures
        is_first_min(keys@.map_values(|k: (i128, i128)| (k.0 as int, k.1 as int)), r.0 as int),
        is_last_max(keys@.map_values(|k: (i128, i128)| (k.0 as int, k.1 as int)), r.1 as int),
{
    let ghost ks = keys@.map_values(|k: (i128, i128)| (k.0 as int, k.1 as int));
    let mut min: usize = 0;
    let mut max: usize = 0;
    let mut i: usize = 1;
    proof {
        lemma_angle_irreflexive(ks[0]);
    }
    while i < keys.len()
        invariant
            ks == keys@.map_values(|k: (i128, i128)| (k.0 as int, k.1 as int)),
            1 <= i <= keys.len(),
            forall|j: int|
                0 <= j < keys.len() ==> in_limit((#[trigger] keys@[j]).0 as int, 0x1000000000000)
                    && in_limit(keys@[j].1 as int, 0x1000000000000),
            min < i,
            max < i,
            forall|j: int| 0 <= j < i ==> !angle_less(#[trigger] ks[j], ks[min as int]),
            forall|j: int| 0 <= j < min ==> angle_less(ks[min as int], #[trigger] ks[j]),
            forall|j: int| 0 <= j < i ==> !angle_less(ks[max as int], #[trigger] ks[j]),
            forall|j: int| max < j < i ==> angle_less(#[trigger] ks[j], ks[max as int]),
        decreases keys.len() - i,
    {
        let k = keys[i];
        let m = keys[min];
        let ghost ki = ks[i as int];
        assert(ki == (k.0 as int, k.1 as int));
        assert(ks[min as int] == (m.0 as int, m.1 as int));
        if key_less(k, m) {
            proof {
                assert forall|j: int| 0 <= j < i + 1 implies !angle_less(
                    #[trigger] ks[j],
                    ki,
                ) by {
                    if j < i && angle_less(ks[j], ki) {
                        lemma_angle_trans(ks[j], ki, ks[min as int]);
                    }
                    if j == i {
                        lemma_angle_irreflexive(ki);
                    }
                }
                assert forall|j: int| 0 <= j < i implies angle_less(ki, #[trigger] ks[j]) by {
                    lemma_angle_cotrans(ki, ks[min as int], ks[j]);
                }
            }
            min = i;
        }
        let x = keys[max];
        assert(ks[max as int] == (x.0 as int, x.1 as int));
        if !key_less(k, x) {
            proof {
                assert forall|j: int| 0 <= j < i + 1 implies !angle_less(
                    ki,
                    #[trigger] ks[j],
                ) by {
                    if j < i && angle_less(ki, ks[j]) {
                        lemma_angle_cotrans(ki, ks[j], ks[max as int]);
                    }
                    if j == i {
                        lemma_angle_irreflexive(ki);
                    }
                }
            }
            max = i;
        } else {
            proof {
                if angle_less(ks[max as int], ki) {
                    lemma_angle_trans(ks[max as int], ki, ks[max as int]);
                    lemma_angle_irreflexive(ks[max as int]);
                }
            }
        }
        i = i + 1;
    }
    (min, max)
}

/// Exact angular comparison of two frame vectors.
pub fn key_less(a: (i128, i128), b: (i128, i128)) -> (r: bool)
    requires
        in_limit(a.0 as int, 0x1000000000000),
        in_limit(a.1 as int, 0x1000000000000),
        in_limit(b.0 as int, 0x1000000000000),
        in_limit(b.1 as int, 0x1000000000000),
    ensures
        r == angle_less((a.0 as int, a.1 as int), (b.0 as int, b.1 as int)),
{
    let ha: u8 = if a.1 > 0 || (a.1 == 0 && a.0 > 0) {
        0
    } else if a.1 < 0 || (a.1 == 0 && a.0 < 0) {
        1
    } else {
        2
    };
    let hb: u8 = if b.1 > 0 || (b.1 == 0 && b.0 > 0) {
        0
    } else if b.1 < 0 || (b.1 == 0 && b.0 < 0) {
        1
    } else {
        2
    };
    proof {
        lemma_mul_bound(a.0 as int, b.1 as int, 0x1000000000000, 0x1000000000000);
        lemma_mul_bound(a.1 as int, b.0 as int, 0x1000000000000, 0x1000000000000);
    }
    ha < hb || (ha == hb && ha < 2 && a.0 * b.1 - a.1 * b.0 > 0)
}

impl SegmentConnections {
    pub fn new() -> (r: SegmentConnections)
        ensures
            r.start@.len() == 0,
            r.end@.len() == 0,
    {
        SegmentConnections { start: Vec::new(), end: Vec::new() }
    }

    pub open spec fn get_spec(&self, kind: PointKind) -> Seq<SegmentConnection> {
        match kind {
            PointKind::Start => self.start@,
            PointKind::End => self.end@,
        }
    }

    /// The connections at one endpoint.
    pub fn get(&self, kind: PointKind) -> (r: &Vec<SegmentConnection>)
        ensures
            r@ == self.get_spec(kind),
    {
        match kind {
            PointKind::Start => &self.start,
            PointKind::End => &self.end,
        }
    }

    /// The connected segments at one endpoint, each turned to point away from it.
    pub fn get_unified(&self, kind: PointKind) -> (r: Vec<Segment>)
        ensures
            r@ == self.get_spec(kind).map_values(|c: SegmentConnection| unified_spec(c)),
    {
        let list = self.get(kind);
        let mut r: Vec<Segment> = Vec::new();
        let mut i: usize = 0;
        while i < list.len()
            invariant
                list@ == self.get_spec(kind),
                i <= list.len(),
                r@ == list@.subrange(0, i as int).map_values(|c: SegmentConnection| unified_spec(c)),
            decreases list.len() - i,
        {
            let c = list[i];
            let s = match c.kind {
                PointKind::Start => c.segment,
                PointKind::End => c.segment.inverse(),
            };
            r.push(s);
            i = i + 1;
            assert(list@.subrange(0, i as int) =~= list@.subrange(0, i - 1).push(c));
            assert(r@ =~= list@.subrange(0, i as int).map_values(|c: SegmentConnection| unified_spec(c)));
        }
        assert(list@.subrange(0, list@.len() as int) =~= list@);
        r
    }

    /// Returns the neighbours with the smallest and the largest
    /// counter-clockwise angle to `disp`, angles taken in `[0, 2π)`.
    ///
    /// Of equal smallest angles the first connection is taken, of equal
    /// largest the last.
    pub fn side_segments(&self, kind: PointKind, disp: Point) -> (r: MinMaxResult)
        requires
            connections_near(self.get_spec(kind)),
            in_limit(disp.x as int, 0x800000),
            in_limit(disp.y as int, 0x800000),
        ensures
            side_segments_spec(self.get_spec(kind), disp, r),
    {
        let list = self.get(kind);
        if list.len() == 0 {
            return MinMaxResult::NoElements;
        }
        let unified = self.get_unified(kind);
        if list.len() == 1 {
            return MinMaxResult::OneElement(unified[0]);
        }
        let mut keys: Vec<(i128, i128)> = Vec::new();
        let mut i: usize = 0;
        while i < unified.len()
            invariant
                list@ == self.get_spec(kind),
                connections_near(list@),
                unified@ == list@.map_values(|c: SegmentConnection| unified_spec(c)),
                in_limit(disp.x as int, 0x800000),
                in_limit(disp.y as int, 0x800000),
                i <= unified.len(),
                keys@.len() == i,
                forall|j: int|
                    0 <= j < i ==> (#[trigger] keys@[j]).0 == angle_key(list@[j], disp).0
                        && keys@[j].1 == angle_key(list@[j], disp).1,
                forall|j: int|
                    0 <= j < i ==> in_limit((#[trigger] keys@[j]).0 as int, 0x1000000000000)
                        && in_limit(keys@[j].1 as int, 0x1000000000000),
            decreases unified.len() - i,
        {
            let s = unified[i];
            assert(segment_near(list@[i as int].segment));
            let v = s.displacement();
            let (vx, vy) = (v.x as i128, v.y as i128);
            let (dx, dy) = (disp.x as i128, disp.y as i128);
            proof {
                lemma_mul_bound(vx as int, dx as int, 0x800000, 0x800000);
                lemma_mul_bound(vy as int, dy as int, 0x800000, 0x800000);
                lemma_mul_bound(vx as int, dy as int, 0x800000, 0x800000);
                lemma_mul_bound(vy as int, dx as int, 0x800000, 0x800000);
            }
            keys.push((vx * dx + vy * dy, vx * dy - vy * dx));
            i = i + 1;
        }
        let (min, max) = minmax_indices(&keys);
        proof {
            let ks = keys@.map_values(|k: (i128, i128)| (k.0 as int, k.1 as int));
            assert(ks =~= angle_keys(list@, disp));
            assert(list@[min as int] == list@[min as int]);
            assert(list@[max as int] == list@[max as int]);
        }
        MinMaxResult::MinMax(unified[min], unified[max])
    }
}

} // verus!
