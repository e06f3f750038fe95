use vstd::prelude::*;

use crate::connections::{side_segments_spec, MinMaxResult};
use crate::geometry::{neg_point, PointKind};
use crate::mesh::{
    apertures_ok, connections_in_range, disp_of, mesh_matches, mesh_of, Aperture, WallMesh,
};
use crate::network::{lst, same_segment, SegmentNetwork};
use crate::triangulator::Triangulator;

verus! {

/// The mesh `m` is the one that segment `id` of the network, with its
/// connections and openings `aps`, generates.
pub open spec fn mesh_current(net: SegmentNetwork, m: WallMesh, aps: Seq<Aperture>, id: int) -> bool {
    let e = net.entries@[id];
    if e.segment.start == e.segment.end {
        mesh_matches(m, (Seq::empty(), Seq::empty(), Seq::empty(), Seq::empty()))
    } else {
        exists|sc: MinMaxResult, ec: MinMaxResult|
            side_segments_spec(e.connections.start@, disp_of(e.segment), sc) && side_segments_spec(
                e.connections.end@,
                neg_point(disp_of(e.segment)),
                ec,
            ) && mesh_matches(m, #[trigger] mesh_of(e.segment, sc, ec, aps))
    }
}

pub open spec fn all_below(v: Seq<usize>, n: int) -> bool {
    forall|i: int| 0 <= i < v.len() ==> #[trigger] v[i] < n
}

impl SegmentNetwork {
    /// Appends the segments linked to `id`.
    fn push_neighbours(&self, id: usize, out: &mut Vec<usize>)
        requires
            self.wf(),
            id < self.entries@.len(),
            all_below(old(out)@, self.entries@.len() as int),
        ensures
            all_below(final(out)@, self.entries@.len() as int),
            final(out)@.len() >= old(out)@.len(),
            final(out)@.subrange(0, old(out)@.len() as int) == old(out)@,
    {
        let ghost n = self.entries@.len() as int;
        let c = &self.entries[id].connections;
        assert(lst(self.graph(), id as int, PointKind::Start) == c.start@);
        assert(lst(self.graph(), id as int, PointKind::End) == c.end@);
        let mut i: usize = 0;
        while i < c.start.len()
            invariant
                self.wf(),
                n == self.entries@.len(),
                id < n,
                c == self.entries@[id as int].connections,
                lst(self.graph(), id as int, PointKind::Start) == c.start@,
                all_below(out@, n),
                out@.len() >= old(out)@.len(),
                out@.subrange(0, old(out)@.len() as int) == old(out)@,
            decreases c.start.len() - i,
        {
            assert(c.start@[i as int] == lst(self.graph(), id as int, PointKind::Start)[i as int]);
            let ghost before = out@;
            out.push(c.start[i].entity);
            assert(out@.subrange(0, old(out)@.len() as int) =~= before.subrange(0, old(out)@.len() as int));
            i = i + 1;
        }
        let mut i: usize = 0;
        while i < c.end.len()
            invariant
                self.wf(),
                n == self.entries@.len(),
                id < n,
                c == self.entries@[id as int].connections,
                lst(self.graph(), id as int, PointKind::End) == c.end@,
                all_below(out@, n),
                out@.len() >= old(out)@.len(),
                out@.subrange(0, old(out)@.len() as int) == old(out)@,
            decreases c.end.len() - i,
        {
            assert(c.end@[i as int] == lst(self.graph(), id as int, PointKind::End)[i as int]);
            let ghost before = out@;
            out.push(c.end[i].entity);
            assert(out@.subrange(0, old(out)@.len() as int) =~= before.subrange(0, old(out)@.len() as int));
            i = i + 1;
        }
    }

    /// One reconciliation pass: rebuilds the connections of every segment
    /// changed since the last pass, then regenerates the meshes of the
    /// segments whose connections may have changed: the changed segments and
    /// their neighbours before and after. Returns those segments; each of
    /// their meshes is then current.
    pub fn update_meshes(
        &mut self,
        meshes: &mut Vec<WallMesh>,
        apertures: &Vec<Vec<Aperture>>,
        triangulator: &mut Triangulator,
    ) -> (r: Vec<usize>)
        requires
            old(self).wf(),
            old(meshes)@.len() == old(self).entries@.len(),
            apertures@.len() == old(self).entries@.len(),
            forall|i: int| 0 <= i < apertures@.len() ==> apertures_ok(#[trigger] apertures@[i]@),
            old(triangulator).hole_indices@.len() == 0,
        ensures
            final(self).wf(),
            final(self).dirty@.len() == 0,
            final(self).entries@.len() == old(self).entries@.len(),
            forall|i: int| 0 <= i < old(self).entries@.len() ==> same_segment(#[trigger] final(self).entries@[i], old(self).entries@[i]),
            final(meshes)@.len() == old(meshes)@.len(),
            final(triangulator).hole_indices@.len() == 0,
            r@.subrange(0, old(self).dirty@.len() as int) == old(self).dirty@,
            forall|k: int| 0 <= k < r@.len() ==> #[trigger] r@[k] < final(self).entries@.len() && mesh_current(
                *final(self),
                final(meshes)@[r@[k] as int],
                apertures@[r@[k] as int]@,
                r@[k] as int,
            ),
    {
        let n = self.entries.len();
        let mut touched: Vec<usize> = Vec::new();
        let mut i: usize = 0;
        while i < self.dirty.len()
            invariant
                *self == *old(self),
                self.wf(),
                n == self.entries@.len(),
                i <= self.dirty@.len(),
                all_below(touched@, n as int),
                touched@ == self.dirty@.subrange(0, i as int),
            decreases self.dirty.len() - i,
        {
            let d = self.dirty[i];
            touched.push(d);
            assert(touched@ =~= self.dirty@.subrange(0, i + 1));
            i = i + 1;
        }
        assert(touched@ =~= self.dirty@);
        let ghost dirty = self.dirty@;
        let mut i: usize = 0;
        while i < self.dirty.len()
            invariant
                *self == *old(self),
                self.wf(),
                dirty == self.dirty@,
                n == self.entries@.len(),
                all_below(touched@, n as int),
                touched@.len() >= dirty.len(),
                touched@.subrange(0, dirty.len() as int) == dirty,
            decreases self.dirty.len() - i,
        {
            let ghost before = touched@;
            self.push_neighbours(self.dirty[i], &mut touched);
            assert(touched@.subrange(0, dirty.len() as int) =~= before.subrange(0, dirty.len() as int));
            i = i + 1;
        }
        let changed = self.update();
        let mut i: usize = 0;
        while i < changed.len()
            invariant
                self.wf(),
                changed@ == dirty,
                n == self.entries@.len(),
                all_below(touched@, n as int),
                touched@.len() >= dirty.len(),
                touched@.subrange(0, dirty.len() as int) == dirty,
            decreases changed.len() - i,
        {
            let ghost before = touched@;
            assert(dirty[i as int] < n);
            self.push_neighbours(changed[i], &mut touched);
            assert(touched@.subrange(0, dirty.len() as int) =~= before.subrange(0, dirty.len() as int));
            i = i + 1;
        }
        let mut k: usize = 0;
        while k < touched.len()
            invariant
                self.wf(),
                n == self.entries@.len(),
                meshes@.len() == n,
                apertures@.len() == n,
                forall|i: int| 0 <= i < apertures@.len() ==> apertures_ok(#[trigger] apertures@[i]@),
                all_below(touched@, n as int),
                triangulator.hole_indices@.len() == 0,
                forall|j: int| 0 <= j < k ==> mesh_current(
                    *self,
                    meshes@[#[trigger] touched@[j] as int],
                    apertures@[touched@[j] as int]@,
                    touched@[j] as int,
                ),
            decreases touched.len() - k,
        {
            let id = touched[k];
            assert(touched@[k as int] < n);
            let segment = self.entries[id].segment;
            let connections = &self.entries[id].connections;
            proof {
                assert(crate::geometry::segment_in_range(self.entries@[id as int].segment));
                assert forall|p: int| 0 <= p < connections.start@.len() implies crate::geometry::segment_in_range(
                    #[trigger] connections.start@[p].segment,
                ) by {
                    assert(connections.start@[p] == lst(self.graph(), id as int, PointKind::Start)[p]);
                }
                assert forall|p: int| 0 <= p < connections.end@.len() implies crate::geometry::segment_in_range(
                    #[trigger] connections.end@[p].segment,
                ) by {
                    assert(connections.end@[p] == lst(self.graph(), id as int, PointKind::End)[p]);
                }
                assert(connections_in_range(*connections));
                assert(apertures_ok(apertures@[id as int]@));
            }
            let ghost before = meshes@;
            meshes[id].generate(segment, connections, &apertures[id], triangulator);
            proof {
                assert forall|j: int| 0 <= j < k + 1 implies mesh_current(
                    *self,
                    meshes@[#[trigger] touched@[j] as int],
                    apertures@[touched@[j] as int]@,
                    touched@[j] as int,
                ) by {
                    if touched@[j] != id {
                        assert(meshes@[touched@[j] as int] == before[touched@[j] as int]);
                    }
                }
            }
            k = k + 1;
        }
        touched
    }
}

} // verus!
