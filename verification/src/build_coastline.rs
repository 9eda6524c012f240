//! Build the `Coastline` index: precomputed global coastline ring assembly,
//! classified land or water and sorted by area.

use crate::build_multipolygons::ring_nodes;
use crate::coastline::{
    area_key, assemble_coastline, coastline_rings, coastline_rings_keep_their_nodes, encloses_land,
    measures_area, node_first,
};
use crate::ext::{lemma_append_run, run, Coastline, CoastlineRingEntry};
use crate::geometry::Point;
use crate::multipolygon::{names_nodes_of, node_points, of_node, positions};
use crate::order::{cuts, lemma_run_of};
use crate::osm::Osm;
use crate::rings::{each, measures, Vertex};
use vstd::prelude::*;

verus! {

impl Coastline {
    /// The index holds the coastline rings of `parent`.
    pub open spec fn describes<F: Fn(Vertex, Vertex) -> u64, A: Fn(&Vec<Point>) -> u64>(
        &self,
        parent: &Osm,
        dist: F,
        area: A,
    ) -> bool {
        let list = coastline_rings(parent, dist, area);
        &&& self.shaped()
        &&& self.n_rings() == list.len()
        &&& forall|k: int| 0 <= k < list.len() ==> #[trigger] self.ring_at(k) == ring_nodes(list[k])
        &&& forall|k: int|
            0 <= k < list.len() ==> (#[trigger] self.rings@[k]).is_land == encloses_land(
                positions(list[k]),
            )
    }
}

/// Build the `Coastline` index of `parent`.
pub fn build<F: Fn(Vertex, Vertex) -> u64, A: Fn(&Vec<Point>) -> u64>(
    parent: &Osm,
    dist: &F,
    area: &A,
) -> (out: Coastline)
    requires
        parent.wf(),
        measures(*dist),
        measures_area(*area),
    ensures
        out.describes(parent, *dist, *area),
{
    let found = assemble_coastline(parent, dist, area);
    let ghost list = coastline_rings(parent, *dist, *area);
    let mut rings: Vec<CoastlineRingEntry> = Vec::new();
    let mut nodes: Vec<u64> = Vec::new();
    let ghost mut first: Seq<u64> = seq![0u64];
    let mut k: usize = 0;
    while k < found.len()
        invariant
            k <= found@.len(),
            found@.len() == list.len(),
            forall|j: int|
                0 <= j < found@.len() ==> (#[trigger] found@[j]).vertices@ == list[j]
                    && found@[j].is_land == encloses_land(positions(list[j])),
            rings@.len() == k,
            cuts(first, k as int, nodes@.len() as int),
            forall|j: int|
                0 <= j < k ==> (#[trigger] rings@[j]).is_land == encloses_land(positions(list[j]))
                    && rings@[j].node_first_idx == first[j],
            forall|j: int| 0 <= j < k ==> #[trigger] run(nodes@, first, j) == ring_nodes(list[j]),
        decreases found@.len() - k,
    {
        let ring = &found[k];
        rings.push(CoastlineRingEntry { is_land: ring.is_land, node_first_idx: nodes.len() as u64 });
        let ghost before = nodes@;
        let ghost first0 = first;
        let ghost more = ring_nodes(ring.vertices@);
        let mut i: usize = 0;
        while i < ring.vertices.len()
            invariant
                i <= ring.vertices@.len(),
                more == ring_nodes(ring.vertices@),
                nodes@ == before + more.take(i as int),
            decreases ring.vertices@.len() - i,
        {
            nodes.push(ring.vertices[i].node_idx);
            proof {
                assert(nodes@ =~= before + more.take(i + 1));
            }
            i = i + 1;
        }
        proof {
            assert(more.take(i as int) =~= more);
            assert(nodes.len() == nodes@.len());
            first = first.push(nodes@.len() as u64);
            lemma_append_run(before, first0, more, k as int, nodes@, first);
        }
        k = k + 1;
    }
    rings.push(CoastlineRingEntry { is_land: false, node_first_idx: nodes.len() as u64 });
    let out = Coastline { rings, nodes };
    proof {
        assert(node_first(out.rings@) =~= first);
    }
    out
}

/// What is read back of a coastline is what its live assembly gives: the same
/// rings in the same order, at the same positions and on the same side.
pub proof fn precomputed_coastline_matches_live_assembly<
    F: Fn(Vertex, Vertex) -> u64,
    A: Fn(&Vec<Point>) -> u64,
>(parent: &Osm, dist: F, area: A, coastline: &Coastline, k: int)
    requires
        parent.wf(),
        coastline.describes(parent, dist, area),
        0 <= k < coastline.n_rings(),
    ensures
        node_points(parent, coastline.ring_at(k)) == positions(
            coastline_rings(parent, dist, area)[k],
        ),
        coastline.rings@[k].is_land == encloses_land(
            positions(coastline_rings(parent, dist, area)[k]),
        ),
        area_key(area, node_points(parent, coastline.ring_at(k))) == area_key(
            area,
            positions(coastline_rings(parent, dist, area)[k]),
        ),
{
    let list = coastline_rings(parent, dist, area);
    assert(list.len() == coastline.rings.len() - 1);
    coastline_rings_keep_their_nodes(parent, dist, area);
    assert(coastline.ring_at(k) == ring_nodes(list[k]));
    assert(each(list[k], of_node(parent)));
    assert forall|i: int| 0 <= i < list[k].len() implies node_points(
        parent,
        ring_nodes(list[k]),
    )[i] == positions(list[k])[i] by {
        assert(of_node(parent)(list[k][i]));
    }
    assert(node_points(parent, coastline.ring_at(k)) =~= positions(list[k]));
}

/// The index names nodes of its parent only, so it can be queried.
pub proof fn a_precomputed_coastline_can_be_read<
    F: Fn(Vertex, Vertex) -> u64,
    A: Fn(&Vec<Point>) -> u64,
>(parent: &Osm, dist: F, area: A, coastline: &Coastline)
    requires
        parent.wf(),
        coastline.describes(parent, dist, area),
    ensures
        names_nodes_of(coastline.nodes@, parent),
{
    let list = coastline_rings(parent, dist, area);
    assert(list.len() == coastline.rings.len() - 1);
    coastline_rings_keep_their_nodes(parent, dist, area);
    assert forall|i: int| 0 <= i < coastline.nodes@.len() implies (#[trigger] coastline.nodes@[i])
        < parent.nodes.len() by {
        let f = node_first(coastline.rings@);
        let k = lemma_run_of(f, coastline.n_rings(), coastline.nodes.len() as int, i);
        assert(coastline.ring_at(k) == ring_nodes(list[k]));
        assert(f[k + 1] <= f[coastline.n_rings()]);
        assert(coastline.ring_at(k)[i - f[k]] == coastline.nodes@[i]);
        assert(each(list[k], of_node(parent)));
        assert(of_node(parent)(list[k][i - f[k]]));
    }
}

} // verus!
