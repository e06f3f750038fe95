use vstd::prelude::*;

use crate::connections::{SegmentConnection, SegmentConnections};
use crate::geometry::{segment_in_range, PointKind, Segment};

verus! {

// ---------------------------------------------------------------------------
// The connectivity graph as a mathematical object: for each segment, the
// connection lists of its start and of its end.

pub open spec fn lst(
    g: Seq<(Seq<SegmentConnection>, Seq<SegmentConnection>)>,
    i: int,
    k: PointKind,
) -> Seq<SegmentConnection> {
    match k {
        PointKind::Start => g[i].0,
        PointKind::End => g[i].1,
    }
}

/// Number of records in `s` that point at endpoint `k` of segment `j`.
pub open spec fn count_links(s: Seq<SegmentConnection>, j: int, k: PointKind) -> nat
    decreases s.len(),
{
    if s.len() == 0 {
        0
    } else {
        count_links(s.drop_last(), j, k) + if s.last().entity == j && s.last().kind == k {
            1nat
        } else {
            0nat
        }
    }
}

/// Number of links from endpoint `ki` of `i` to endpoint `kj` of `j`.
pub open spec fn links(
    g: Seq<(Seq<SegmentConnection>, Seq<SegmentConnection>)>,
    i: int,
    ki: PointKind,
    j: int,
    kj: PointKind,
) -> nat {
    count_links(lst(g, i, ki), j, kj)
}

/// Number of links from any endpoint of `i` to any endpoint of `j`.
pub open spec fn total_links(
    g: Seq<(Seq<SegmentConnection>, Seq<SegmentConnection>)>,
    i: int,
    j: int,
) -> nat {
    links(g, i, PointKind::Start, j, PointKind::Start) + links(
        g,
        i,
        PointKind::Start,
        j,
        PointKind::End,
    ) + links(g, i, PointKind::End, j, PointKind::Start) + links(
        g,
        i,
        PointKind::End,
        j,
        PointKind::End,
    )
}

/// Every record names another segment of the graph, links come in matching
/// pairs, and two segments share at most one link.
pub open spec fn symmetric(g: Seq<(Seq<SegmentConnection>, Seq<SegmentConnection>)>) -> bool {
    &&& forall|i: int, k: PointKind, p: int|
        0 <= i < g.len() && 0 <= p < lst(g, i, k).len() ==> {
            let r = #[trigger] lst(g, i, k)[p];
            &&& 0 <= r.entity < g.len()
            &&& r.entity != i
            &&& segment_in_range(r.segment)
        }
    &&& forall|i: int, ki: PointKind, j: int, kj: PointKind|
        0 <= i < g.len() && 0 <= j < g.len() ==> #[trigger] links(g, i, ki, j, kj) == links(
            g,
            j,
            kj,
            i,
            ki,
        )
    &&& forall|i: int, j: int|
        0 <= i < g.len() && 0 <= j < g.len() ==> #[trigger] total_links(g, i, j) <= 1
}

/// `g` with the list of endpoint `k` of segment `i` replaced.
pub open spec fn with_list(
    g: Seq<(Seq<SegmentConnection>, Seq<SegmentConnection>)>,
    i: int,
    k: PointKind,
    s: Seq<SegmentConnection>,
) -> Seq<(Seq<SegmentConnection>, Seq<SegmentConnection>)> {
    match k {
        PointKind::Start => g.update(i, (s, g[i].1)),
        PointKind::End => g.update(i, (g[i].0, s)),
    }
}

pub open spec fn matches(r: SegmentConnection, j: int, k: PointKind) -> bool {
    r.entity == j && r.kind == k
}

// ---------------------------------------------------------------------------
// Counting lemmas.

pub proof fn lemma_count_push(s: Seq<SegmentConnection>, x: SegmentConnection, j: int, k: PointKind)
    ensures
        count_links(s.push(x), j, k) == count_links(s, j, k) + if matches(x, j, k) {
            1nat
        } else {
            0nat
        },
{
    assert(s.push(x).drop_last() =~= s);
}

pub proof fn lemma_count_remove(s: Seq<SegmentConnection>, p: int, j: int, k: PointKind)
    requires
        0 <= p < s.len(),
    ensures
        count_links(s.remove(p), j, k) + if matches(s[p], j, k) {
            1nat
        } else {
            0nat
        } == count_links(s, j, k),
    decreases s.len(),
{
    if p == s.len() - 1 {
        assert(s.remove(p) =~= s.drop_last());
    } else {
        let t = s.drop_last();
        lemma_count_remove(t, p, j, k);
        assert(s.remove(p) =~= t.remove(p).push(s.last()));
        lemma_count_push(t.remove(p), s.last(), j, k);
    }
}

pub proof fn lemma_count_positive(s: Seq<SegmentConnection>, p: int, j: int, k: PointKind)
    requires
        0 <= p < s.len(),
        matches(s[p], j, k),
    ensures
        count_links(s, j, k) >= 1,
{
    lemma_count_remove(s, p, j, k);
}

/// Dropping the first record.
pub proof fn lemma_count_tail(s: Seq<SegmentConnection>, j: int, k: PointKind)
    requires
        s.len() > 0,
    ensures
        count_links(s.subrange(1, s.len() as int), j, k) + if matches(s[0], j, k) {
            1nat
        } else {
            0nat
        } == count_links(s, j, k),
{
    assert(s.subrange(1, s.len() as int) =~= s.remove(0));
    lemma_count_remove(s, 0, j, k);
}

/// Removing the pair of records between endpoint `ka` of `a` (its first
/// record, pointing at `b`) and endpoint `kb` of `b` (at position `p`) keeps
/// the graph symmetric.
pub proof fn lemma_unlink(
    g: Seq<(Seq<SegmentConnection>, Seq<SegmentConnection>)>,
    a: int,
    ka: PointKind,
    b: int,
    kb: PointKind,
    p: int,
)
    requires
        symmetric(g),
        0 <= a < g.len(),
        lst(g, a, ka).len() > 0,
        lst(g, a, ka)[0].entity == b,
        lst(g, a, ka)[0].kind == kb,
        0 <= p < lst(g, b, kb).len(),
        lst(g, b, kb)[p].entity == a,
    ensures
        lst(g, b, kb)[p].kind == ka,
        ({
            let s = lst(g, a, ka);
            let g1 = with_list(g, a, ka, s.subrange(1, s.len() as int));
            let g2 = with_list(g1, b, kb, lst(g, b, kb).remove(p));
            &&& symmetric(g2)
            &&& g2.len() == g.len()
            &&& forall|i: int, ki: PointKind, j: int, kj: PointKind|
                0 <= i < g.len() && 0 <= j < g.len() && i != a && i != b ==> #[trigger] links(g2, i, ki, j, kj) == links(g, i, ki, j, kj)
        }),
{
    let s = lst(g, a, ka);
    let t = lst(g, b, kb);
    let g1 = with_list(g, a, ka, s.subrange(1, s.len() as int));
    let g2 = with_list(g1, b, kb, t.remove(p));
    let kr = t[p].kind;
    assert(b != a);
    assert(0 <= b < g.len());
    lemma_count_positive(s, 0, b, kb);
    lemma_count_positive(t, p, a, kr);
    assert(links(g, a, ka, b, kb) >= 1);
    assert(links(g, b, kb, a, kr) >= 1);
    assert(links(g, a, kr, b, kb) >= 1);
    assert(total_links(g, a, b) <= 1);
    assert(kr == ka);
    assert(g2.len() == g.len());
    assert forall|i: int, k: PointKind| 0 <= i < g.len() implies lst(g2, i, k) == if i == a
        && k == ka {
        s.subrange(1, s.len() as int)
    } else if i == b && k == kb {
        t.remove(p)
    } else {
        lst(g, i, k)
    } by {}
    assert forall|i: int, k: PointKind, q: int|
        0 <= i < g2.len() && 0 <= q < lst(g2, i, k).len() implies {
        let r = #[trigger] lst(g2, i, k)[q];
        &&& 0 <= r.entity < g2.len()
        &&& r.entity != i
        &&& segment_in_range(r.segment)
    } by {
        if i == a && k == ka {
            assert(lst(g2, i, k)[q] == lst(g, i, k)[q + 1]);
        } else if i == b && k == kb {
            if q < p {
                assert(lst(g2, i, k)[q] == lst(g, i, k)[q]);
            } else {
                assert(lst(g2, i, k)[q] == lst(g, i, k)[q + 1]);
            }
        } else {
            assert(lst(g2, i, k)[q] == lst(g, i, k)[q]);
        }
    }
    assert forall|i: int, ki: PointKind, j: int, kj: PointKind|
        0 <= i < g.len() && 0 <= j < g.len() implies links(g2, i, ki, j, kj) == links(
        g,
        i,
        ki,
        j,
        kj,
    ) - (if (i == a && ki == ka && j == b && kj == kb) || (i == b && ki == kb && j == a && kj
        == ka) {
        1int
    } else {
        0int
    }) by {
        if i == a && ki == ka {
            lemma_count_tail(s, j, kj);
        } else if i == b && ki == kb {
            lemma_count_remove(t, p, j, kj);
        }
    }
    assert forall|i: int, ki: PointKind, j: int, kj: PointKind|
        0 <= i < g2.len() && 0 <= j < g2.len() implies #[trigger] links(g2, i, ki, j, kj)
        == links(g2, j, kj, i, ki) by {
        assert(links(g, i, ki, j, kj) == links(g, j, kj, i, ki));
    }
    assert forall|i: int, j: int| 0 <= i < g2.len() && 0 <= j < g2.len() implies #[trigger] total_links(
        g2,
        i,
        j,
    ) <= 1 by {
        assert(total_links(g, i, j) <= 1);
        assert(links(g2, i, PointKind::Start, j, PointKind::Start) <= links(g, i, PointKind::Start, j, PointKind::Start));
        assert(links(g2, i, PointKind::Start, j, PointKind::End) <= links(g, i, PointKind::Start, j, PointKind::End));
        assert(links(g2, i, PointKind::End, j, PointKind::Start) <= links(g, i, PointKind::End, j, PointKind::Start));
        assert(links(g2, i, PointKind::End, j, PointKind::End) <= links(g, i, PointKind::End, j, PointKind::End));
    }
}

/// Adding a matching pair of records between two segments that share no link
/// keeps the graph symmetric.
pub proof fn lemma_link(
    g: Seq<(Seq<SegmentConnection>, Seq<SegmentConnection>)>,
    a: int,
    ka: PointKind,
    b: int,
    kb: PointKind,
    ra: SegmentConnection,
    rb: SegmentConnection,
)
    requires
        symmetric(g),
        0 <= a < g.len(),
        0 <= b < g.len(),
        a != b,
        total_links(g, a, b) == 0,
        ra.entity == b && ra.kind == kb && segment_in_range(ra.segment),
        rb.entity == a && rb.kind == ka && segment_in_range(rb.segment),
    ensures
        ({
            let g1 = with_list(g, a, ka, lst(g, a, ka).push(ra));
            let g2 = with_list(g1, b, kb, lst(g, b, kb).push(rb));
            &&& symmetric(g2)
            &&& g2.len() == g.len()
            &&& total_links(g2, a, b) == 1
            &&& forall|i: int, ki: PointKind, j: int, kj: PointKind|
                0 <= i < g.len() && 0 <= j < g.len() ==> #[trigger] links(g2, i, ki, j, kj) == links(g, i, ki, j, kj)
                    + (if (i == a && ki == ka && j == b && kj == kb) || (i == b && ki == kb && j == a && kj == ka) {
                    1int
                } else {
                    0int
                })
            &&& forall|i: int, j: int|
                0 <= i < g.len() && 0 <= j < g.len() && !(i == a && j == b) && !(i == b && j == a)
                    ==> #[trigger] total_links(g2, i, j) == total_links(g, i, j)
        }),
{
    let g1 = with_list(g, a, ka, lst(g, a, ka).push(ra));
    let g2 = with_list(g1, b, kb, lst(g, b, kb).push(rb));
    assert forall|i: int, k: PointKind| 0 <= i < g.len() implies lst(g2, i, k) == if i == a
        && k == ka {
        lst(g, a, ka).push(ra)
    } else if i == b && k == kb {
        lst(g, b, kb).push(rb)
    } else {
        lst(g, i, k)
    } by {}
    assert forall|i: int, k: PointKind, q: int|
        0 <= i < g2.len() && 0 <= q < lst(g2, i, k).len() implies {
        let r = #[trigger] lst(g2, i, k)[q];
        &&& 0 <= r.entity < g2.len()
        &&& r.entity != i
        &&& segment_in_range(r.segment)
    } by {
        if !((i == a && k == ka) || (i == b && k == kb)) || q < lst(g, i, k).len() {
            assert(lst(g2, i, k)[q] == lst(g, i, k)[q]);
        }
    }
    assert forall|i: int, ki: PointKind, j: int, kj: PointKind|
        0 <= i < g.len() && 0 <= j < g.len() implies links(g2, i, ki, j, kj) == links(
        g,
        i,
        ki,
        j,
        kj,
    ) + (if (i == a && ki == ka && j == b && kj == kb) || (i == b && ki == kb && j == a && kj
        == ka) {
        1int
    } else {
        0int
    }) by {
        if i == a && ki == ka {
            lemma_count_push(lst(g, a, ka), ra, j, kj);
        } else if i == b && ki == kb {
            lemma_count_push(lst(g, b, kb), rb, j, kj);
        }
    }
    assert forall|i: int, ki: PointKind, j: int, kj: PointKind|
        0 <= i < g2.len() && 0 <= j < g2.len() implies #[trigger] links(g2, i, ki, j, kj)
        == links(g2, j, kj, i, ki) by {
        assert(links(g, i, ki, j, kj) == links(g, j, kj, i, ki));
    }
    assert(total_links(g, b, a) == 0) by {
        assert(links(g, b, PointKind::Start, a, PointKind::Start) == links(g, a, PointKind::Start, b, PointKind::Start));
        assert(links(g, b, PointKind::Start, a, PointKind::End) == links(g, a, PointKind::End, b, PointKind::Start));
        assert(links(g, b, PointKind::End, a, PointKind::Start) == links(g, a, PointKind::Start, b, PointKind::End));
        assert(links(g, b, PointKind::End, a, PointKind::End) == links(g, a, PointKind::End, b, PointKind::End));
    }
    assert forall|i: int, j: int| 0 <= i < g2.len() && 0 <= j < g2.len() implies #[trigger] total_links(
        g2,
        i,
        j,
    ) <= 1 by {
        assert(total_links(g, i, j) <= 1);
        assert(links(g2, i, PointKind::Start, j, PointKind::Start) == links(g, i, PointKind::Start, j, PointKind::Start) + (if (i == a && PointKind::Start == ka && j == b && PointKind::Start == kb) || (i == b && PointKind::Start == kb && j == a && PointKind::Start == ka) { 1int } else { 0int }));
        assert(links(g2, i, PointKind::Start, j, PointKind::End) == links(g, i, PointKind::Start, j, PointKind::End) + (if (i == a && PointKind::Start == ka && j == b && PointKind::End == kb) || (i == b && PointKind::Start == kb && j == a && PointKind::End == ka) { 1int } else { 0int }));
        assert(links(g2, i, PointKind::End, j, PointKind::Start) == links(g, i, PointKind::End, j, PointKind::Start) + (if (i == a && PointKind::End == ka && j == b && PointKind::Start == kb) || (i == b && PointKind::End == kb && j == a && PointKind::Start == ka) { 1int } else { 0int }));
        assert(links(g2, i, PointKind::End, j, PointKind::End) == links(g, i, PointKind::End, j, PointKind::End) + (if (i == a && PointKind::End == ka && j == b && PointKind::End == kb) || (i == b && PointKind::End == kb && j == a && PointKind::End == ka) { 1int } else { 0int }));
    }
}

pub proof fn lemma_count_exists(s: Seq<SegmentConnection>, j: int, k: PointKind)
    requires
        count_links(s, j, k) >= 1,
    ensures
        exists|p: int| 0 <= p < s.len() && matches(#[trigger] s[p], j, k),
    decreases s.len(),
{
    if matches(s.last(), j, k) {
        assert(matches(s[s.len() - 1], j, k));
    } else {
        lemma_count_exists(s.drop_last(), j, k);
        let p = choose|p: int| 0 <= p < s.drop_last().len() && matches(#[trigger] s.drop_last()[p], j, k);
        assert(s[p] == s.drop_last()[p]);
    }
}

/// A list holds a record naming `j` only if it counts a link to `j`.
pub proof fn lemma_no_record(s: Seq<SegmentConnection>, j: int)
    requires
        count_links(s, j, PointKind::Start) == 0,
        count_links(s, j, PointKind::End) == 0,
    ensures
        forall|p: int| 0 <= p < s.len() ==> (#[trigger] s[p]).entity != j,
{
    assert forall|p: int| 0 <= p < s.len() implies (#[trigger] s[p]).entity != j by {
        if s[p].entity == j {
            lemma_count_positive(s, p, j, s[p].kind);
        }
    }
}

// ---------------------------------------------------------------------------
// The network.

/// One segment of the network with its connections.
#[derive(Clone, Debug)]
pub struct SegmentEntry {
    pub segment: Segment,
    pub visible: bool,
    /// The group (a lot, a building) the segment belongs to; only segments
    /// of one group connect.
    pub parent: u64,
    /// `false` once the segment was removed.
    pub alive: bool,
    pub connections: SegmentConnections,
}

/// Segments, indexed by their position, with the connections between them.
pub struct SegmentNetwork {
    pub entries: Vec<SegmentEntry>,
    /// Segments changed since the last update.
    pub dirty: Vec<usize>,
}

pub open spec fn graph_of(entries: Seq<SegmentEntry>) -> Seq<(Seq<SegmentConnection>, Seq<SegmentConnection>)> {
    entries.map_values(|e: SegmentEntry| (e.connections.start@, e.connections.end@))
}

/// Two entries agree on everything but their connections.
pub open spec fn same_segment(a: SegmentEntry, b: SegmentEntry) -> bool {
    a.segment == b.segment && a.visible == b.visible && a.parent == b.parent && a.alive == b.alive
}

impl SegmentNetwork {
    pub open spec fn graph(&self) -> Seq<(Seq<SegmentConnection>, Seq<SegmentConnection>)> {
        graph_of(self.entries@)
    }

    pub open spec fn wf(&self) -> bool {
        &&& symmetric(self.graph())
        &&& forall|i: int| 0 <= i < self.entries@.len() ==> segment_in_range(#[trigger] self.entries@[i].segment)
        &&& forall|i: int| 0 <= i < self.dirty@.len() ==> #[trigger] self.dirty@[i] < self.entries@.len()
    }

    /// Removes the record naming `id` from the lists of `other`: first in its
    /// start list, else in its end list.
    fn remove_back_link(&mut self, other: usize, id: usize, Ghost(kb): Ghost<PointKind>, Ghost(p): Ghost<int>)
        requires
            other < old(self).entries.len(),
            0 <= p < lst(old(self).graph(), other as int, kb).len(),
            lst(old(self).graph(), other as int, kb)[p].entity == id,
            forall|q: int| 0 <= q < p ==> (#[trigger] lst(old(self).graph(), other as int, kb)[q]).entity != id,
            kb == PointKind::End ==> forall|q: int| 0 <= q < lst(old(self).graph(), other as int, PointKind::Start).len()
                ==> (#[trigger] lst(old(self).graph(), other as int, PointKind::Start)[q]).entity != id,
        ensures
            final(self).graph() =~~= with_list(old(self).graph(), other as int, kb, lst(old(self).graph(), other as int, kb).remove(p)),
            final(self).entries@.len() == old(self).entries@.len(),
            forall|i: int| 0 <= i < old(self).entries@.len() ==> same_segment(#[trigger] final(self).entries@[i], old(self).entries@[i]),
            final(self).dirty == old(self).dirty,
    {
        let ghost g = self.graph();
        let ghost t = lst(g, other as int, kb);
        assert(t[p].entity == id);
        assert(forall|q: int| 0 <= q < p ==> (#[trigger] t[q]).entity != id);
        assert(kb == PointKind::End ==> forall|q: int| 0 <= q < lst(g, other as int, PointKind::Start).len()
            ==> (#[trigger] lst(g, other as int, PointKind::Start)[q]).entity != id);
        assert(lst(g, other as int, PointKind::Start) == self.entries@[other as int].connections.start@);
        assert(lst(g, other as int, PointKind::End) == self.entries@[other as int].connections.end@);
        let n = self.entries[other].connections.start.len();
        let mut q: usize = 0;
        while q < n
            invariant
                *self == *old(self),
                g == self.graph(),
                n == lst(g, other as int, PointKind::Start).len(),
                other < self.entries.len(),
                q <= n,
                kb == PointKind::Start ==> q <= p,
                kb == PointKind::End ==> forall|q: int| 0 <= q < lst(g, other as int, PointKind::Start).len()
                    ==> (#[trigger] lst(g, other as int, PointKind::Start)[q]).entity != id,
                lst(g, other as int, PointKind::Start) == self.entries@[other as int].connections.start@,
                t == lst(g, other as int, kb),
                0 <= p < t.len(),
                t[p].entity == id,
                forall|q: int| 0 <= q < p ==> (#[trigger] t[q]).entity != id,
                forall|r: int| 0 <= r < q ==> (#[trigger] lst(g, other as int, PointKind::Start)[r]).entity != id,
            decreases n - q,
        {
            if self.entries[other].connections.start[q].entity == id {
                assert(lst(g, other as int, PointKind::Start)[q as int].entity == id);
                assert(kb == PointKind::Start);
                assert(q as int == p);
                self.entries[other].connections.start.remove(q);
                assert(self.graph() =~~= with_list(g, other as int, kb, lst(g, other as int, kb).remove(p)));
                return;
            }
            q = q + 1;
        }
        let n = self.entries[other].connections.end.len();
        let mut q: usize = 0;
        while q < n
            invariant
                *self == *old(self),
                g == self.graph(),
                kb == PointKind::End,
                n == lst(g, other as int, PointKind::End).len(),
                other < self.entries.len(),
                q <= p,
                lst(g, other as int, PointKind::End) == self.entries@[other as int].connections.end@,
                t == lst(g, other as int, kb),
                0 <= p < t.len(),
                t[p].entity == id,
                forall|q: int| 0 <= q < p ==> (#[trigger] t[q]).entity != id,
                forall|r: int| 0 <= r < q ==> (#[trigger] lst(g, other as int, PointKind::End)[r]).entity != id,
            decreases n - q,
        {
            if self.entries[other].connections.end[q].entity == id {
                assert(q as int == p);
                self.entries[other].connections.end.remove(q);
                assert(self.graph() =~~= with_list(g, other as int, kb, lst(g, other as int, kb).remove(p)));
                return;
            }
            q = q + 1;
        }
    }
}

pub proof fn lemma_count_two(s: Seq<SegmentConnection>, p1: int, p2: int, j: int, k1: PointKind, k2: PointKind)
    requires
        0 <= p1 < s.len(),
        0 <= p2 < s.len(),
        p1 != p2,
        matches(s[p1], j, k1),
        matches(s[p2], j, k2),
    ensures
        k1 == k2 ==> count_links(s, j, k1) >= 2,
        k1 != k2 ==> count_links(s, j, k1) + count_links(s, j, k2) >= 2,
{
    lemma_count_remove(s, p1, j, k2);
    let t = s.remove(p1);
    let q = if p2 < p1 { p2 } else { p2 - 1 };
    assert(t[q] == s[p2]);
    lemma_count_positive(t, q, j, k2);
    lemma_count_positive(s, p1, j, k1);
}

/// The graph as it would be with the lists of `id` replaced: `l` at endpoint
/// `k`, `o` at the other endpoint.
pub open spec fn virt(
    g: Seq<(Seq<SegmentConnection>, Seq<SegmentConnection>)>,
    id: int,
    k: PointKind,
    l: Seq<SegmentConnection>,
    o: Seq<SegmentConnection>,
) -> Seq<(Seq<SegmentConnection>, Seq<SegmentConnection>)> {
    with_list(with_list(g, id, k, l), id, k.inverse_spec(), o)
}

impl SegmentNetwork {
    /// Removes, for each record of `list` (the former list of endpoint `ka`
    /// of `id`), the matching record of the neighbour.
    fn unlink_list(&mut self, id: usize, ka: PointKind, list: &Vec<SegmentConnection>, Ghost(o): Ghost<Seq<SegmentConnection>>)
        requires
            id < old(self).entries.len(),
            old(self).graph()[id as int].0.len() == 0,
            old(self).graph()[id as int].1.len() == 0,
            symmetric(virt(old(self).graph(), id as int, ka, list@, o)),
        ensures
            final(self).entries@.len() == old(self).entries@.len(),
            final(self).graph()[id as int].0.len() == 0,
            final(self).graph()[id as int].1.len() == 0,
            symmetric(virt(final(self).graph(), id as int, ka, Seq::empty(), o)),
            forall|i: int| 0 <= i < old(self).entries@.len() ==> same_segment(#[trigger] final(self).entries@[i], old(self).entries@[i]),
            final(self).dirty == old(self).dirty,
            forall|i: int, ki: PointKind, j: int, kj: PointKind|
                0 <= i < old(self).entries@.len() && 0 <= j < old(self).entries@.len() && i != id && j != id
                    ==> #[trigger] links(final(self).graph(), i, ki, j, kj) == links(old(self).graph(), i, ki, j, kj),
    {
        let n = list.len();
        let mut q: usize = 0;
        assert(list@.subrange(0, n as int) =~= list@);
        while q < n
            invariant
                n == list.len(),
                q <= n,
                id < self.entries.len(),
                self.entries@.len() == old(self).entries@.len(),
                self.graph()[id as int].0.len() == 0,
                self.graph()[id as int].1.len() == 0,
                symmetric(virt(self.graph(), id as int, ka, list@.subrange(q as int, n as int), o)),
                forall|i: int| 0 <= i < old(self).entries@.len() ==> same_segment(#[trigger] self.entries@[i], old(self).entries@[i]),
                self.dirty == old(self).dirty,
                forall|i: int, ki: PointKind, j: int, kj: PointKind|
                    0 <= i < old(self).entries@.len() && 0 <= j < old(self).entries@.len() && i != id && j != id
                        ==> #[trigger] links(self.graph(), i, ki, j, kj) == links(old(self).graph(), i, ki, j, kj),
            decreases n - q,
        {
            let r = list[q];
            let ghost g = self.graph();
            let ghost l = list@.subrange(q as int, n as int);
            let ghost v = virt(g, id as int, ka, l, o);
            let y = r.entity;
            let ghost ky = r.kind;
            proof {
                assert(lst(v, id as int, ka) == l);
                assert(l[0] == r);
                assert(0 <= y < v.len() && y != id);
                lemma_count_positive(l, 0, y as int, ky);
                assert(links(v, id as int, ka, y as int, ky) >= 1);
                assert(links(v, y as int, ky, id as int, ka) >= 1);
                lemma_count_exists(lst(v, y as int, ky), id as int, ka);
            }
            let ghost p = choose|p: int| 0 <= p < lst(v, y as int, ky).len() && matches(#[trigger] lst(v, y as int, ky)[p], id as int, ka);
            proof {
                assert(lst(v, y as int, ky) == lst(g, y as int, ky));
                assert(lst(v, y as int, ky.inverse_spec()) == lst(g, y as int, ky.inverse_spec()));
                assert(total_links(v, y as int, id as int) <= 1);
                assert forall|q2: int| 0 <= q2 < p implies (#[trigger] lst(g, y as int, ky)[q2]).entity != id by {
                    if lst(g, y as int, ky)[q2].entity == id {
                        lemma_count_two(lst(g, y as int, ky), p, q2, id as int, ka, lst(g, y as int, ky)[q2].kind);
                    }
                }
                if ky == PointKind::End {
                    assert forall|q2: int| 0 <= q2 < lst(g, y as int, PointKind::Start).len() implies (#[trigger] lst(g, y as int, PointKind::Start)[q2]).entity != id by {
                        let s2 = lst(g, y as int, PointKind::Start);
                        if s2[q2].entity == id {
                            lemma_count_positive(s2, q2, id as int, s2[q2].kind);
                            lemma_count_positive(lst(g, y as int, ky), p, id as int, ka);
                        }
                    }
                }
                lemma_unlink(v, id as int, ka, y as int, ky, p);
            }
            self.remove_back_link(y, id, Ghost(ky), Ghost(p));
            proof {
                let g1 = with_list(v, id as int, ka, l.subrange(1, l.len() as int));
                let g2 = with_list(g1, y as int, ky, lst(v, y as int, ky).remove(p));
                assert(list@.subrange(q + 1, n as int) =~= l.subrange(1, l.len() as int));
                assert(virt(self.graph(), id as int, ka, list@.subrange(q + 1, n as int), o) =~~= g2);
                assert forall|i: int, ki: PointKind, j: int, kj: PointKind|
                    0 <= i < old(self).entries@.len() && 0 <= j < old(self).entries@.len() && i != id && j != id
                        implies #[trigger] links(self.graph(), i, ki, j, kj) == links(old(self).graph(), i, ki, j, kj) by {
                    assert(lst(virt(self.graph(), id as int, ka, list@.subrange(q + 1, n as int), o), i, ki) == lst(self.graph(), i, ki));
                    assert(lst(self.graph(), i, ki) == lst(g2, i, ki));
                    assert(lst(g, i, ki) == lst(v, i, ki));
                    assert(links(g, i, ki, j, kj) == links(old(self).graph(), i, ki, j, kj));
                    if i != y {
                        assert(links(g2, i, ki, j, kj) == links(v, i, ki, j, kj));
                    } else {
                        assert(links(g2, i, ki, j, kj) == links(v, i, ki, j, kj) - (if ki == ky && j == id && kj == ka { 1int } else { 0int })) by {
                            if ki == ky {
                                lemma_count_remove(lst(v, y as int, ky), p, j, kj);
                            }
                        }
                    }
                }
            }
            q = q + 1;
        }
        assert(list@.subrange(n as int, n as int) =~= Seq::<SegmentConnection>::empty());
    }

    /// Removes all connections of a segment, together with the records of its
    /// neighbours that point back at it.
    pub fn disconnect_all(&mut self, id: usize)
        requires
            old(self).wf(),
            id < old(self).entries.len(),
        ensures
            final(self).wf(),
            final(self).entries@.len() == old(self).entries@.len(),
            forall|i: int| 0 <= i < old(self).entries@.len() ==> same_segment(#[trigger] final(self).entries@[i], old(self).entries@[i]),
            final(self).dirty == old(self).dirty,
            final(self).graph()[id as int].0.len() == 0,
            final(self).graph()[id as int].1.len() == 0,
            forall|i: int, ki: PointKind, kj: PointKind|
                0 <= i < old(self).entries@.len() ==> #[trigger] links(final(self).graph(), i, ki, id as int, kj) == 0,
            forall|i: int, ki: PointKind, j: int, kj: PointKind|
                0 <= i < old(self).entries@.len() && 0 <= j < old(self).entries@.len() && i != id && j != id
                    ==> #[trigger] links(final(self).graph(), i, ki, j, kj) == links(old(self).graph(), i, ki, j, kj),
    {
        let ghost g0 = self.graph();
        let mut taken = SegmentConnections::new();
        std::mem::swap(&mut taken, &mut self.entries[id].connections);
        proof {
            assert(virt(self.graph(), id as int, PointKind::Start, taken.start@, taken.end@) =~~= g0);
        }
        self.unlink_list(id, PointKind::Start, &taken.start, Ghost(taken.end@));
        proof {
            let g = self.graph();
            assert(virt(g, id as int, PointKind::End, taken.end@, Seq::empty()) =~~= virt(g, id as int, PointKind::Start, Seq::empty(), taken.end@));
        }
        self.unlink_list(id, PointKind::End, &taken.end, Ghost(Seq::empty()));
        proof {
            let g = self.graph();
            assert(virt(g, id as int, PointKind::End, Seq::empty(), Seq::empty()) =~~= g);
            assert forall|i: int, ki: PointKind, kj: PointKind|
                0 <= i < old(self).entries@.len() implies #[trigger] links(g, i, ki, id as int, kj) == 0 by {
                assert(links(g, id as int, kj, i, ki) == 0);
            }
        }
    }
}

/// Which endpoints of two segments touch, tried in the order start-start,
/// start-end, end-end, end-start; only the first match counts.
pub open spec fn pairing(a: Segment, b: Segment) -> Option<(PointKind, PointKind)> {
    if a.start == b.start {
        Some((PointKind::Start, PointKind::Start))
    } else if a.start == b.end {
        Some((PointKind::Start, PointKind::End))
    } else if a.end == b.end {
        Some((PointKind::End, PointKind::End))
    } else if a.end == b.start {
        Some((PointKind::End, PointKind::Start))
    } else {
        None
    }
}

/// A live, visible segment of non-zero length.
pub open spec fn connectable(e: SegmentEntry) -> bool {
    e.alive && e.visible && e.segment.start != e.segment.end
}

/// Segment `j` is linked to segment `i` by an update of `i`: both can
/// connect, they share a group and an endpoint.
pub open spec fn may_connect(entries: Seq<SegmentEntry>, i: int, j: int) -> bool {
    &&& i != j
    &&& connectable(entries[i])
    &&& connectable(entries[j])
    &&& entries[i].parent == entries[j].parent
}

/// The number of links that an update of `i` leaves from endpoint `ki` of
/// `i` to endpoint `kj` of `j`.
pub open spec fn expected_links(entries: Seq<SegmentEntry>, i: int, ki: PointKind, j: int, kj: PointKind) -> nat {
    if may_connect(entries, i, j) && pairing(entries[i].segment, entries[j].segment) == Some((ki, kj)) {
        1
    } else {
        0
    }
}

impl SegmentNetwork {
    /// Rebuilds the connections of one segment: drops its old links, then
    /// links it to every other live, visible segment of its group that shares
    /// an endpoint with it.
    pub fn update_connections(&mut self, id: usize)
        requires
            old(self).wf(),
            id < old(self).entries.len(),
        ensures
            final(self).wf(),
            final(self).entries@.len() == old(self).entries@.len(),
            forall|i: int| 0 <= i < old(self).entries@.len() ==> same_segment(#[trigger] final(self).entries@[i], old(self).entries@[i]),
            final(self).dirty == old(self).dirty,
            forall|ki: PointKind, j: int, kj: PointKind|
                0 <= j < old(self).entries@.len() ==> #[trigger] links(final(self).graph(), id as int, ki, j, kj)
                    == expected_links(old(self).entries@, id as int, ki, j, kj),
            forall|i: int, ki: PointKind, j: int, kj: PointKind|
                0 <= i < old(self).entries@.len() && 0 <= j < old(self).entries@.len() && i != id && j != id
                    ==> #[trigger] links(final(self).graph(), i, ki, j, kj) == links(old(self).graph(), i, ki, j, kj),
            forall|k: PointKind, p: int|
                0 <= p < lst(final(self).graph(), id as int, k).len() ==> (#[trigger] lst(final(self).graph(), id as int, k)[p]).segment
                    == final(self).entries@[lst(final(self).graph(), id as int, k)[p].entity as int].segment,
    {
        self.disconnect_all(id);
        let n = self.entries.len();
        let ghost e0 = old(self).entries@;
        let segment = self.entries[id].segment;
        let linkable = self.entries[id].alive && self.entries[id].visible && segment.start
            != segment.end;
        let parent = self.entries[id].parent;
        let mut j: usize = 0;
        while j < n
            invariant
                n == self.entries.len(),
                n == e0.len(),
                id < n,
                j <= n,
                self.wf(),
                segment == e0[id as int].segment,
                linkable == connectable(e0[id as int]),
                parent == e0[id as int].parent,
                forall|i: int| 0 <= i < n ==> same_segment(#[trigger] self.entries@[i], e0[i]),
                self.dirty == old(self).dirty,
                forall|ki: PointKind, j2: int, kj: PointKind|
                    0 <= j2 < j ==> #[trigger] links(self.graph(), id as int, ki, j2, kj)
                        == expected_links(e0, id as int, ki, j2, kj),
                forall|ki: PointKind, j2: int, kj: PointKind|
                    j <= j2 < n ==> #[trigger] links(self.graph(), id as int, ki, j2, kj) == 0,
                forall|i: int, ki: PointKind, j2: int, kj: PointKind|
                    0 <= i < n && 0 <= j2 < n && i != id && j2 != id
                        ==> #[trigger] links(self.graph(), i, ki, j2, kj) == links(old(self).graph(), i, ki, j2, kj),
                forall|k: PointKind, p: int|
                    0 <= p < lst(self.graph(), id as int, k).len() ==> (#[trigger] lst(self.graph(), id as int, k)[p]).segment
                        == self.entries@[lst(self.graph(), id as int, k)[p].entity as int].segment,
            decreases n - j,
        {
            let other = self.entries[j].segment;
            let other_ok = j != id && linkable && self.entries[j].alive && self.entries[j].visible
                && other.start != other.end && self.entries[j].parent == parent;
            let pair: Option<(PointKind, PointKind)> = if !other_ok {
                None
            } else if segment.start == other.start {
                Some((PointKind::Start, PointKind::Start))
            } else if segment.start == other.end {
                Some((PointKind::Start, PointKind::End))
            } else if segment.end == other.end {
                Some((PointKind::End, PointKind::End))
            } else if segment.end == other.start {
                Some((PointKind::End, PointKind::Start))
            } else {
                None
            };
            assert(other_ok == may_connect(e0, id as int, j as int));
            let ghost g = self.graph();
            match pair {
                None => {
                    assert forall|ki: PointKind, j2: int, kj: PointKind|
                        0 <= j2 < j + 1 implies #[trigger] links(self.graph(), id as int, ki, j2, kj)
                            == expected_links(e0, id as int, ki, j2, kj) by {
                        if j2 == j {
                            assert(links(self.graph(), id as int, ki, j2, kj) == 0);
                        }
                    }
                },
                Some((ka, kb)) => {
                    let ra = SegmentConnection { entity: j, segment: other, kind: kb };
                    let rb = SegmentConnection { entity: id, segment, kind: ka };
                    proof {
                        assert(total_links(g, id as int, j as int) == 0) by {
                            assert(links(g, id as int, PointKind::Start, j as int, PointKind::Start) == 0);
                            assert(links(g, id as int, PointKind::Start, j as int, PointKind::End) == 0);
                            assert(links(g, id as int, PointKind::End, j as int, PointKind::Start) == 0);
                            assert(links(g, id as int, PointKind::End, j as int, PointKind::End) == 0);
                        }
                    }
                    self.link_pair(id, ka, j, kb, ra, rb);
                    proof {
                        assert forall|ki: PointKind, j2: int, kj: PointKind|
                            0 <= j2 < j + 1 implies #[trigger] links(self.graph(), id as int, ki, j2, kj)
                                == expected_links(e0, id as int, ki, j2, kj) by {
                            assert(links(g, id as int, ki, j2, kj) == links(g, id as int, ki, j2, kj));
                        }
                        assert forall|ki: PointKind, j2: int, kj: PointKind|
                            j + 1 <= j2 < n implies #[trigger] links(self.graph(), id as int, ki, j2, kj) == 0 by {
                            assert(links(g, id as int, ki, j2, kj) == 0);
                        }
                        assert forall|i: int, ki: PointKind, j2: int, kj: PointKind|
                            0 <= i < n && 0 <= j2 < n && i != id && j2 != id
                                implies #[trigger] links(self.graph(), i, ki, j2, kj) == links(old(self).graph(), i, ki, j2, kj) by {
                            assert(links(g, i, ki, j2, kj) == links(old(self).graph(), i, ki, j2, kj));
                        }
                        assert forall|k: PointKind, p: int|
                            0 <= p < lst(self.graph(), id as int, k).len() implies (#[trigger] lst(self.graph(), id as int, k)[p]).segment
                                == self.entries@[lst(self.graph(), id as int, k)[p].entity as int].segment by {
                            if k == ka && p == lst(g, id as int, k).len() {
                                assert(lst(self.graph(), id as int, k)[p] == ra);
                            } else {
                                assert(lst(self.graph(), id as int, k)[p] == lst(g, id as int, k)[p]);
                            }
                        }
                    }
                },
            }
            j = j + 1;
        }
    }
}

impl SegmentNetwork {
    /// Adds the record `ra` to endpoint `ka` of `a` and `rb` to endpoint `kb` of `b`.
    fn link_pair(&mut self, a: usize, ka: PointKind, b: usize, kb: PointKind, ra: SegmentConnection, rb: SegmentConnection)
        requires
            symmetric(old(self).graph()),
            a < old(self).entries.len(),
            b < old(self).entries.len(),
            a != b,
            total_links(old(self).graph(), a as int, b as int) == 0,
            ra.entity == b && ra.kind == kb && segment_in_range(ra.segment),
            rb.entity == a && rb.kind == ka && segment_in_range(rb.segment),
        ensures
            final(self).graph() =~~= with_list(
                with_list(old(self).graph(), a as int, ka, lst(old(self).graph(), a as int, ka).push(ra)),
                b as int,
                kb,
                lst(old(self).graph(), b as int, kb).push(rb),
            ),
            symmetric(final(self).graph()),
            final(self).entries@.len() == old(self).entries@.len(),
            forall|i: int| 0 <= i < old(self).entries@.len() ==> same_segment(#[trigger] final(self).entries@[i], old(self).entries@[i]),
            final(self).dirty == old(self).dirty,
            forall|i: int, ki: PointKind, j: int, kj: PointKind|
                0 <= i < old(self).entries@.len() && 0 <= j < old(self).entries@.len() ==> #[trigger] links(final(self).graph(), i, ki, j, kj)
                    == links(old(self).graph(), i, ki, j, kj) + (if (i == a && ki == ka && j == b && kj == kb) || (i == b && ki == kb && j == a && kj == ka) {
                    1int
                } else {
                    0int
                }),
    {
        let ghost g = self.graph();
        proof {
            lemma_link(g, a as int, ka, b as int, kb, ra, rb);
        }
        match ka {
            PointKind::Start => self.entries[a].connections.start.push(ra),
            PointKind::End => self.entries[a].connections.end.push(ra),
        }
        match kb {
            PointKind::Start => self.entries[b].connections.start.push(rb),
            PointKind::End => self.entries[b].connections.end.push(rb),
        }
        proof {
            let g1 = with_list(g, a as int, ka, lst(g, a as int, ka).push(ra));
            let g2 = with_list(g1, b as int, kb, lst(g, b as int, kb).push(rb));
            assert(self.graph() =~~= g2);
        }
    }
}

/// Connections come in pairs: when endpoint `ka` of segment `a` holds a
/// record naming endpoint `kb` of segment `b`, then endpoint `kb` of `b` holds
/// exactly one record naming endpoint `ka` of `a`, and no other record of `b`
/// names `a`.
pub proof fn lemma_connections_symmetric(net: &SegmentNetwork, a: int, ka: PointKind, p: int)
    requires
        net.wf(),
        0 <= a < net.entries@.len(),
        0 <= p < lst(net.graph(), a, ka).len(),
    ensures
        ({
            let r = lst(net.graph(), a, ka)[p];
            &&& 0 <= r.entity < net.entries@.len()
            &&& r.entity != a
            &&& links(net.graph(), r.entity as int, r.kind, a, ka) == 1
            &&& total_links(net.graph(), r.entity as int, a) == 1
        }),
{
    let g = net.graph();
    let r = lst(g, a, ka)[p];
    let b = r.entity as int;
    lemma_count_positive(lst(g, a, ka), p, b, r.kind);
    assert(links(g, a, ka, b, r.kind) == links(g, b, r.kind, a, ka));
    assert(total_links(g, b, a) <= 1);
}

/// A graph of symmetric links stays so when a segment without links is added.
pub proof fn lemma_push_unlinked(g: Seq<(Seq<SegmentConnection>, Seq<SegmentConnection>)>)
    requires
        symmetric(g),
    ensures
        symmetric(g.push((Seq::empty(), Seq::empty()))),
        forall|i: int, ki: PointKind, j: int, kj: PointKind|
            0 <= i < g.len() && 0 <= j < g.len() ==> #[trigger] links(g.push((Seq::empty(), Seq::empty())), i, ki, j, kj) == links(g, i, ki, j, kj),
{
    let h = g.push((Seq::empty(), Seq::empty()));
    let n = g.len() as int;
    assert forall|i: int, k: PointKind| 0 <= i < g.len() implies lst(h, i, k) == lst(g, i, k) by {}
    assert forall|i: int, k: PointKind, kj: PointKind| 0 <= i < h.len() implies #[trigger] links(h, i, k, n, kj) == 0 by {
        if i < n && links(h, i, k, n, kj) > 0 {
            lemma_count_exists(lst(g, i, k), n, kj);
        }
    }
    assert forall|i: int, ki: PointKind, j: int, kj: PointKind|
        0 <= i < h.len() && 0 <= j < h.len() implies #[trigger] links(h, i, ki, j, kj) == links(h, j, kj, i, ki) by {
        if i < n && j < n {
            assert(links(g, i, ki, j, kj) == links(g, j, kj, i, ki));
        }
    }
    assert forall|i: int, j: int| 0 <= i < h.len() && 0 <= j < h.len() implies #[trigger] total_links(h, i, j) <= 1 by {
        if i < n && j < n {
            assert(total_links(g, i, j) <= 1);
        }
    }
}

impl SegmentNetwork {
    /// An empty network.
    pub fn new() -> (r: SegmentNetwork)
        ensures
            r.wf(),
            r.entries@.len() == 0,
            r.dirty@.len() == 0,
    {
        let r = SegmentNetwork { entries: Vec::new(), dirty: Vec::new() };
        assert(r.graph() =~~= Seq::empty());
        r
    }

    /// Number of segments ever inserted.
    pub fn len(&self) -> (r: usize)
        ensures
            r == self.entries@.len(),
    {
        self.entries.len()
    }

    /// Adds a segment without connections; the next update connects it.
    pub fn insert(&mut self, segment: Segment, visible: bool, parent: u64) -> (id: usize)
        requires
            old(self).wf(),
            segment_in_range(segment),
            old(self).entries@.len() < usize::MAX,
        ensures
            final(self).wf(),
            id == old(self).entries@.len(),
            final(self).entries@.len() == id + 1,
            forall|i: int| 0 <= i < id ==> same_segment(#[trigger] final(self).entries@[i], old(self).entries@[i]),
            final(self).entries@[id as int].segment == segment,
            final(self).entries@[id as int].visible == visible,
            final(self).entries@[id as int].parent == parent,
            final(self).entries@[id as int].alive,
            final(self).graph() =~~= old(self).graph().push((Seq::empty(), Seq::empty())),
            final(self).dirty@ == old(self).dirty@.push(id),
    {
        let id = self.entries.len();
        let ghost g = self.graph();
        self.entries.push(
            SegmentEntry { segment, visible, parent, alive: true, connections: SegmentConnections::new() },
        );
        self.dirty.push(id);
        proof {
            assert(self.graph() =~~= g.push((Seq::empty(), Seq::empty())));
            lemma_push_unlinked(g);
        }
        id
    }

    /// The segment at `id`.
    pub fn segment(&self, id: usize) -> (r: Segment)
        requires
            id < self.entries@.len(),
        ensures
            r == self.entries@[id as int].segment,
    {
        self.entries[id].segment
    }

    /// The connections of the segment at `id`.
    pub fn connections(&self, id: usize) -> (r: &SegmentConnections)
        requires
            id < self.entries@.len(),
        ensures
            r == self.entries@[id as int].connections,
    {
        &self.entries[id].connections
    }

    /// Moves a segment; its connections are rebuilt by the next update.
    pub fn set_segment(&mut self, id: usize, segment: Segment)
        requires
            old(self).wf(),
            id < old(self).entries@.len(),
            segment_in_range(segment),
        ensures
            final(self).wf(),
            final(self).entries@.len() == old(self).entries@.len(),
            final(self).entries@[id as int].segment == segment,
            final(self).graph() =~~= old(self).graph(),
            final(self).dirty@ == old(self).dirty@.push(id),
    {
        let ghost g = self.graph();
        self.entries[id].segment = segment;
        self.dirty.push(id);
        assert(self.graph() =~~= g);
    }

    /// Shows or hides a segment; its connections are rebuilt by the next update.
    pub fn set_visible(&mut self, id: usize, visible: bool)
        requires
            old(self).wf(),
            id < old(self).entries@.len(),
        ensures
            final(self).wf(),
            final(self).entries@.len() == old(self).entries@.len(),
            final(self).entries@[id as int].visible == visible,
            final(self).graph() =~~= old(self).graph(),
            final(self).dirty@ == old(self).dirty@.push(id),
    {
        let ghost g = self.graph();
        self.entries[id].visible = visible;
        self.dirty.push(id);
        assert(self.graph() =~~= g);
    }

    /// Removes a segment: its links are torn down first, on both sides, and it
    /// never connects again.
    pub fn remove(&mut self, id: usize)
        requires
            old(self).wf(),
            id < old(self).entries@.len(),
        ensures
            final(self).wf(),
            final(self).entries@.len() == old(self).entries@.len(),
            !final(self).entries@[id as int].alive,
            final(self).graph()[id as int].0.len() == 0,
            final(self).graph()[id as int].1.len() == 0,
            forall|i: int, k: PointKind, p: int|
                0 <= i < final(self).entries@.len() && 0 <= p < lst(final(self).graph(), i, k).len()
                    ==> (#[trigger] lst(final(self).graph(), i, k)[p]).entity != id,
            forall|i: int, ki: PointKind, j: int, kj: PointKind|
                0 <= i < old(self).entries@.len() && 0 <= j < old(self).entries@.len() && i != id && j != id
                    ==> #[trigger] links(final(self).graph(), i, ki, j, kj) == links(old(self).graph(), i, ki, j, kj),
    {
        self.disconnect_all(id);
        let ghost g = self.graph();
        self.entries[id].alive = false;
        proof {
            assert(self.graph() =~~= g);
            assert forall|i: int, k: PointKind, p: int|
                0 <= i < self.entries@.len() && 0 <= p < lst(g, i, k).len()
                    implies (#[trigger] lst(g, i, k)[p]).entity != id by {
                assert(links(g, i, k, id as int, PointKind::Start) == 0);
                assert(links(g, i, k, id as int, PointKind::End) == 0);
                lemma_no_record(lst(g, i, k), id as int);
            }
        }
    }

    /// Rebuilds the connections of every segment changed since the last
    /// update, in the order of the changes, and returns those segments.
    /// Afterwards each of them is linked, once, to exactly the other live,
    /// visible segments of its group that share an endpoint with it.
    pub fn update(&mut self) -> (r: Vec<usize>)
        requires
            old(self).wf(),
        ensures
            final(self).wf(),
            final(self).dirty@.len() == 0,
            r@ == old(self).dirty@,
            final(self).entries@.len() == old(self).entries@.len(),
            forall|i: int| 0 <= i < old(self).entries@.len() ==> same_segment(#[trigger] final(self).entries@[i], old(self).entries@[i]),
            forall|p: int, j: int|
                0 <= p < r@.len() && 0 <= j < old(self).entries@.len() ==> #[trigger] total_links(final(self).graph(), r@[p] as int, j)
                    == expected_total(old(self).entries@, r@[p] as int, j),
    {
        let mut changed: Vec<usize> = Vec::new();
        std::mem::swap(&mut changed, &mut self.dirty);
        let mut i: usize = 0;
        while i < changed.len()
            invariant
                self.wf(),
                self.dirty@.len() == 0,
                changed@ == old(self).dirty@,
                forall|k: int| 0 <= k < changed@.len() ==> #[trigger] changed@[k] < self.entries@.len(),
                self.entries@.len() == old(self).entries@.len(),
                forall|k: int| 0 <= k < old(self).entries@.len() ==> same_segment(#[trigger] self.entries@[k], old(self).entries@[k]),
                i <= changed@.len(),
                forall|p: int, j: int|
                    0 <= p < i && 0 <= j < old(self).entries@.len() ==> #[trigger] total_links(self.graph(), changed@[p] as int, j)
                        == expected_total(old(self).entries@, changed@[p] as int, j),
            decreases changed.len() - i,
        {
            let id = changed[i];
            let ghost g = self.graph();
            let ghost e = self.entries@;
            let ghost n = e.len() as int;
            self.update_connections(id);
            proof {
                let g2 = self.graph();
                assert forall|a: int, b: int| 0 <= a < n && 0 <= b < n implies #[trigger] expected_total(e, a, b)
                    == expected_total(old(self).entries@, a, b) by {
                    assert(same_segment(e[a], old(self).entries@[a]));
                    assert(same_segment(e[b], old(self).entries@[b]));
                }
                assert forall|j: int| 0 <= j < n implies #[trigger] total_links(g2, id as int, j) == expected_total(e, id as int, j) by {
                    assert(links(g2, id as int, PointKind::Start, j, PointKind::Start) == expected_links(e, id as int, PointKind::Start, j, PointKind::Start));
                    assert(links(g2, id as int, PointKind::Start, j, PointKind::End) == expected_links(e, id as int, PointKind::Start, j, PointKind::End));
                    assert(links(g2, id as int, PointKind::End, j, PointKind::Start) == expected_links(e, id as int, PointKind::End, j, PointKind::Start));
                    assert(links(g2, id as int, PointKind::End, j, PointKind::End) == expected_links(e, id as int, PointKind::End, j, PointKind::End));
                    lemma_expected_total(e, id as int, j);
                }
                assert forall|p: int, j: int|
                    0 <= p < i + 1 && 0 <= j < n implies #[trigger] total_links(g2, changed@[p] as int, j)
                        == expected_total(old(self).entries@, changed@[p] as int, j) by {
                    let c = changed@[p] as int;
                    assert(0 <= c < n);
                    if c == id {
                    } else if j == id {
                        lemma_total_symmetric(g2, c, j);
                        lemma_expected_total(e, c, j);
                        assert(total_links(g2, j, c) == expected_total(e, j, c));
                    } else {
                        assert(links(g2, c, PointKind::Start, j, PointKind::Start) == links(g, c, PointKind::Start, j, PointKind::Start));
                        assert(links(g2, c, PointKind::Start, j, PointKind::End) == links(g, c, PointKind::Start, j, PointKind::End));
                        assert(links(g2, c, PointKind::End, j, PointKind::Start) == links(g, c, PointKind::End, j, PointKind::Start));
                        assert(links(g2, c, PointKind::End, j, PointKind::End) == links(g, c, PointKind::End, j, PointKind::End));
                        assert(total_links(g, c, j) == expected_total(old(self).entries@, c, j));
                    }
                }
            }
            i = i + 1;
        }
        changed
    }
}

/// Whether segment `i` is linked to `j` once either of them is updated: both
/// can connect, share a group, and share an endpoint.
pub open spec fn expected_total(entries: Seq<SegmentEntry>, i: int, j: int) -> nat {
    if may_connect(entries, i, j) && pairing(entries[i].segment, entries[j].segment) is Some {
        1
    } else {
        0
    }
}

proof fn lemma_expected_total(entries: Seq<SegmentEntry>, i: int, j: int)
    ensures
        expected_links(entries, i, PointKind::Start, j, PointKind::Start) + expected_links(
            entries,
            i,
            PointKind::Start,
            j,
            PointKind::End,
        ) + expected_links(entries, i, PointKind::End, j, PointKind::Start) + expected_links(
            entries,
            i,
            PointKind::End,
            j,
            PointKind::End,
        ) == expected_total(entries, i, j),
        expected_total(entries, i, j) == expected_total(entries, j, i),
{
}

proof fn lemma_total_symmetric(g: Seq<(Seq<SegmentConnection>, Seq<SegmentConnection>)>, i: int, j: int)
    requires
        symmetric(g),
        0 <= i < g.len(),
        0 <= j < g.len(),
    ensures
        total_links(g, i, j) == total_links(g, j, i),
{
    assert(links(g, i, PointKind::Start, j, PointKind::Start) == links(g, j, PointKind::Start, i, PointKind::Start));
    assert(links(g, i, PointKind::Start, j, PointKind::End) == links(g, j, PointKind::End, i, PointKind::Start));
    assert(links(g, i, PointKind::End, j, PointKind::Start) == links(g, j, PointKind::Start, i, PointKind::End));
    assert(links(g, i, PointKind::End, j, PointKind::End) == links(g, j, PointKind::End, i, PointKind::End));
}

} // verus!
