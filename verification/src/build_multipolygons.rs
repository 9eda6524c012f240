//! Build the `Multipolygons` index: precomputed relation ring assembly.
//!
//! Each relation's assembled polygons are known as soon as that relation is
//! visited, and relations are visited in ascending index order, so this is a
//! single forward pass that grows three nested range vectors.

use crate::ext::{lemma_append_run, run, Multipolygons};
use crate::multipolygon::{
    assemble_multipolygon, assembled_relation, is_area, is_area_relation, polygon_contents, Vertex,
};
use crate::order::cuts;
use crate::osm::Osm;
use crate::rings::{contents, measures};
use vstd::prelude::*;

verus! {

/// The nodes of a ring.
pub open spec fn ring_nodes(ring: Seq<Vertex>) -> Seq<u64> {
    ring.map_values(|v: Vertex| v.node_idx)
}

/// The nodes of a polygon's rings.
pub open spec fn polygon_nodes(polygon: Seq<Seq<Vertex>>) -> Seq<Seq<u64>> {
    polygon.map_values(|ring: Seq<Vertex>| ring_nodes(ring))
}

/// The nodes of the rings of a list of polygons.
pub open spec fn polygons_nodes(polygons: Seq<Seq<Seq<Vertex>>>) -> Seq<Seq<Seq<u64>>> {
    polygons.map_values(|polygon: Seq<Seq<Vertex>>| polygon_nodes(polygon))
}

impl Multipolygons {
    /// How many rings are stored.
    pub open spec fn n_rings(&self) -> int {
        self.ring_node_range.len() - 1
    }

    /// How many polygons are stored.
    pub open spec fn n_polygons(&self) -> int {
        self.polygon_ring_range.len() - 1
    }

    /// How many relations are stored.
    pub open spec fn n_relations(&self) -> int {
        self.rel_polygon_range.len() - 1
    }

    /// The rings and the nodes fit together.
    pub open spec fn rings_shaped(&self) -> bool {
        cuts(self.ring_node_range@, self.n_rings(), self.nodes.len() as int)
    }

    /// The polygons and the rings fit together.
    pub open spec fn polygons_shaped(&self) -> bool {
        self.rings_shaped() && cuts(self.polygon_ring_range@, self.n_polygons(), self.n_rings())
    }

    /// The levels fit together.
    pub open spec fn shaped(&self) -> bool {
        self.polygons_shaped() && cuts(
            self.rel_polygon_range@,
            self.n_relations(),
            self.n_polygons(),
        )
    }

    /// Ring `q`.
    pub open spec fn ring_at(&self, q: int) -> Seq<u64> {
        run(self.nodes@, self.ring_node_range@, q)
    }

    /// Polygon `p`.
    pub open spec fn polygon_at(&self, p: int) -> Seq<Seq<u64>> {
        let first = self.polygon_ring_range@;
        Seq::new((first[p + 1] - first[p]) as nat, |i: int| self.ring_at(first[p] + i))
    }

    /// The polygons of relation `r`.
    pub open spec fn polygons_at(&self, r: int) -> Seq<Seq<Seq<u64>>> {
        let first = self.rel_polygon_range@;
        Seq::new((first[r + 1] - first[r]) as nat, |i: int| self.polygon_at(first[r] + i))
    }

    /// The index holds what every area relation of `parent` assembles to.
    pub open spec fn describes<F: Fn(Vertex, Vertex) -> u64>(&self, parent: &Osm, dist: F) -> bool {
        &&& self.shaped()
        &&& self.n_relations() == parent.relations.len()
        &&& forall|r: int|
            0 <= r < parent.relations.len() ==> #[trigger] self.polygons_at(r) == stored_polygons(
                parent,
                dist,
                r,
            )
    }
}

/// What is stored of a relation: the nodes of its polygons, if it is an area.
pub open spec fn stored_polygons<F: Fn(Vertex, Vertex) -> u64>(
    parent: &Osm,
    dist: F,
    r: int,
) -> Seq<Seq<Seq<u64>>> {
    if is_area(parent, parent.relations@[r]) {
        polygons_nodes(assembled_relation(parent, dist, r).0)
    } else {
        Seq::empty()
    }
}

/// `later` holds the rings of `earlier`, and perhaps more.
spec fn keeps_rings(earlier: &Multipolygons, later: &Multipolygons) -> bool {
    &&& earlier.n_rings() <= later.n_rings()
    &&& forall|q: int|
        0 <= q < earlier.n_rings() ==> #[trigger] later.ring_at(q) == earlier.ring_at(q)
}

/// `later` holds the polygons of `earlier`, and perhaps more.
spec fn keeps_polygons(earlier: &Multipolygons, later: &Multipolygons) -> bool {
    &&& earlier.n_polygons() <= later.n_polygons()
    &&& forall|p: int|
        0 <= p < earlier.n_polygons() ==> #[trigger] later.polygon_at(p) == earlier.polygon_at(p)
}

/// Polygons stay as they are when rings are appended.
proof fn lemma_keeps_polygons(a: &Multipolygons, b: &Multipolygons)
    requires
        a.polygons_shaped(),
        keeps_rings(a, b),
        a.polygon_ring_range@.len() <= b.polygon_ring_range@.len(),
        forall|p: int|
            0 <= p < a.polygon_ring_range@.len() ==> #[trigger] b.polygon_ring_range@[p]
                == a.polygon_ring_range@[p],
    ensures
        keeps_polygons(a, b),
{
    assert forall|p: int| 0 <= p < a.n_polygons() implies #[trigger] b.polygon_at(p)
        == a.polygon_at(p) by {
        let first = a.polygon_ring_range@;
        assert(b.polygon_ring_range@[p] == first[p]);
        assert(b.polygon_ring_range@[p + 1] == first[p + 1]);
        assert(first[p] <= first[p + 1]);
        assert(first[p + 1] <= first[a.n_polygons()]);
        assert forall|i: int| 0 <= i < first[p + 1] - first[p] implies b.polygon_at(p)[i]
            == a.polygon_at(p)[i] by {
            assert(b.ring_at(first[p] + i) == a.ring_at(first[p] + i));
        }
        assert(b.polygon_at(p) =~= a.polygon_at(p));
    }
}

/// Append a ring.
fn store_ring(out: &mut Multipolygons, ring: &Vec<Vertex>)
    requires
        old(out).rings_shaped(),
    ensures
        final(out).rings_shaped(),
        final(out).polygon_ring_range == old(out).polygon_ring_range,
        final(out).rel_polygon_range == old(out).rel_polygon_range,
        final(out).n_rings() == old(out).n_rings() + 1,
        keeps_rings(old(out), final(out)),
        final(out).ring_at(old(out).n_rings()) == ring_nodes(ring@),
{
    let ghost before = *out;
    let ghost list = ring_nodes(ring@);
    let mut i: usize = 0;
    while i < ring.len()
        invariant
            i <= ring@.len(),
            list == ring_nodes(ring@),
            out.nodes@ == before.nodes@ + list.take(i as int),
            out.ring_node_range == before.ring_node_range,
            out.polygon_ring_range == before.polygon_ring_range,
            out.rel_polygon_range == before.rel_polygon_range,
        decreases ring@.len() - i,
    {
        out.nodes.push(ring[i].node_idx);
        proof {
            assert(out.nodes@ =~= before.nodes@ + list.take(i + 1));
        }
        i = i + 1;
    }
    let total: u64 = out.nodes.len() as u64;
    out.ring_node_range.push(total);
    proof {
        assert(list.take(i as int) =~= list);
        lemma_append_run(
            before.nodes@,
            before.ring_node_range@,
            list,
            before.n_rings(),
            out.nodes@,
            out.ring_node_range@,
        );
        assert forall|q: int| 0 <= q < before.n_rings() implies #[trigger] out.ring_at(q)
            == before.ring_at(q) by {
        }
    }
}

/// Append a polygon.
fn store_polygon(out: &mut Multipolygons, polygon: &Vec<Vec<Vertex>>)
    requires
        old(out).polygons_shaped(),
    ensures
        final(out).polygons_shaped(),
        final(out).rel_polygon_range == old(out).rel_polygon_range,
        final(out).n_polygons() == old(out).n_polygons() + 1,
        keeps_polygons(old(out), final(out)),
        final(out).polygon_at(old(out).n_polygons()) == polygon_nodes(contents(polygon@)),
{
    let ghost before = *out;
    let ghost goal = polygon_nodes(contents(polygon@));
    let ghost start = before.n_rings();
    let mut i: usize = 0;
    while i < polygon.len()
        invariant
            i <= polygon@.len(),
            before.polygons_shaped(),
            out.rings_shaped(),
            start == before.n_rings(),
            goal == polygon_nodes(contents(polygon@)),
            out.n_rings() == start + i,
            out.polygon_ring_range == before.polygon_ring_range,
            out.rel_polygon_range == before.rel_polygon_range,
            keeps_rings(&before, out),
            forall|k: int| 0 <= k < i ==> #[trigger] out.ring_at(start + k) == goal[k],
        decreases polygon@.len() - i,
    {
        let ghost mid = *out;
        store_ring(out, &polygon[i]);
        proof {
            assert(goal[i as int] == ring_nodes(polygon@[i as int]@));
            assert forall|q: int| 0 <= q < before.n_rings() implies #[trigger] out.ring_at(q)
                == before.ring_at(q) by {
                assert(mid.ring_at(q) == before.ring_at(q));
            }
            assert forall|k: int| 0 <= k < i + 1 implies #[trigger] out.ring_at(start + k)
                == goal[k] by {
                if k < i {
                    assert(mid.ring_at(start + k) == goal[k]);
                }
            }
        }
        i = i + 1;
    }
    let total: u64 = (out.ring_node_range.len() - 1) as u64;
    let ghost mid = *out;
    out.polygon_ring_range.push(total);
    proof {
        let (f, g) = (before.polygon_ring_range@, out.polygon_ring_range@);
        let n = before.n_polygons();
        assert forall|a: int, b: int| 0 <= a <= b <= n + 1 implies g[a] <= g[b] by {
            if b == n + 1 && a <= n {
                assert(f[a] <= f[n]);
            }
        }
        assert forall|q: int| 0 <= q < before.n_rings() implies #[trigger] out.ring_at(q)
            == before.ring_at(q) by {
            assert(mid.ring_at(q) == before.ring_at(q));
        }
        lemma_keeps_polygons(&before, out);
        assert(out.polygon_at(n) =~= goal) by {
            assert forall|k: int| 0 <= k < goal.len() implies out.polygon_at(n)[k] == goal[k] by {
                assert(mid.ring_at(start + k) == goal[k]);
                assert(out.ring_at(start + k) == mid.ring_at(start + k));
            }
        }
    }
}

/// Append the polygons of a relation.
fn store_relation(out: &mut Multipolygons, polygons: &Vec<Vec<Vec<Vertex>>>)
    requires
        old(out).shaped(),
    ensures
        final(out).shaped(),
        final(out).n_relations() == old(out).n_relations() + 1,
        forall|r: int|
            0 <= r < old(out).n_relations() ==> #[trigger] final(out).polygons_at(r) == old(
                out,
            ).polygons_at(r),
        final(out).polygons_at(old(out).n_relations()) == polygons_nodes(
            polygon_contents(polygons@),
        ),
{
    let ghost before = *out;
    let ghost goal = polygons_nodes(polygon_contents(polygons@));
    let ghost start = before.n_polygons();
    let mut i: usize = 0;
    while i < polygons.len()
        invariant
            i <= polygons@.len(),
            before.shaped(),
            out.polygons_shaped(),
            start == before.n_polygons(),
            goal == polygons_nodes(polygon_contents(polygons@)),
            out.n_polygons() == start + i,
            out.rel_polygon_range == before.rel_polygon_range,
            keeps_polygons(&before, out),
            forall|k: int| 0 <= k < i ==> #[trigger] out.polygon_at(start + k) == goal[k],
        decreases polygons@.len() - i,
    {
        let ghost mid = *out;
        store_polygon(out, &polygons[i]);
        proof {
            assert(goal[i as int] == polygon_nodes(contents(polygons@[i as int]@)));
            assert forall|p: int| 0 <= p < before.n_polygons() implies #[trigger] out.polygon_at(p)
                == before.polygon_at(p) by {
                assert(mid.polygon_at(p) == before.polygon_at(p));
            }
            assert forall|k: int| 0 <= k < i + 1 implies #[trigger] out.polygon_at(start + k)
                == goal[k] by {
                if k < i {
                    assert(mid.polygon_at(start + k) == goal[k]);
                }
            }
        }
        i = i + 1;
    }
    let total: u64 = (out.polygon_ring_range.len() - 1) as u64;
    let ghost mid = *out;
    out.rel_polygon_range.push(total);
    proof {
        let (f, g) = (before.rel_polygon_range@, out.rel_polygon_range@);
        let n = before.n_relations();
        assert forall|a: int, b: int| 0 <= a <= b <= n + 1 implies g[a] <= g[b] by {
            if b == n + 1 && a <= n {
                assert(f[a] <= f[n]);
            }
        }
        assert forall|p: int| #[trigger] out.polygon_at(p) == mid.polygon_at(p) by {
            assert(out.polygon_at(p) =~= mid.polygon_at(p)) by {
                assert forall|i: int| 0 <= i < mid.polygon_at(p).len() implies out.polygon_at(p)[i]
                    == mid.polygon_at(p)[i] by {
                    let at = mid.polygon_ring_range@[p] + i;
                    assert(out.ring_at(at) == mid.ring_at(at));
                }
            }
        }
        assert forall|r: int| 0 <= r < n implies #[trigger] out.polygons_at(r)
            == before.polygons_at(r) by {
            assert(f[r] <= f[r + 1] && f[r + 1] <= f[n]);
            assert(g[r] == f[r] && g[r + 1] == f[r + 1]);
            assert forall|i: int| 0 <= i < f[r + 1] - f[r] implies out.polygons_at(r)[i]
                == before.polygons_at(r)[i] by {
                assert(out.polygon_at(f[r] + i) == mid.polygon_at(f[r] + i));
                assert(mid.polygon_at(f[r] + i) == before.polygon_at(f[r] + i));
            }
            assert(out.polygons_at(r) =~= before.polygons_at(r));
        }
        assert(out.polygons_at(n) =~= goal) by {
            assert forall|k: int| 0 <= k < goal.len() implies out.polygons_at(n)[k] == goal[k] by {
                assert(mid.polygon_at(start + k) == goal[k]);
                assert(out.polygon_at(start + k) == mid.polygon_at(start + k));
            }
        }
    }
}

/// Build the `Multipolygons` index of `parent`.
pub fn build<F: Fn(Vertex, Vertex) -> u64>(parent: &Osm, dist: &F) -> (out: Multipolygons)
    requires
        parent.wf(),
        measures(*dist),
    ensures
        out.describes(parent, *dist),
{
    let mut out = Multipolygons {
        rel_polygon_range: Vec::new(),
        polygon_ring_range: Vec::new(),
        ring_node_range: Vec::new(),
        nodes: Vec::new(),
    };
    out.rel_polygon_range.push(0);
    out.polygon_ring_range.push(0);
    out.ring_node_range.push(0);
    let mut r: usize = 0;
    while r < parent.relations.len()
        invariant
            parent.wf(),
            measures(*dist),
            r <= parent.relations.len(),
            out.shaped(),
            out.n_relations() == r,
            forall|k: int|
                0 <= k < r ==> #[trigger] out.polygons_at(k) == stored_polygons(parent, *dist, k),
        decreases parent.relations.len() - r,
    {
        let ghost before = out;
        let polygons = if is_area_relation(parent, &parent.relations[r]) {
            assemble_multipolygon(parent, r, dist).0
        } else {
            Vec::new()
        };
        store_relation(&mut out, &polygons);
        proof {
            assert(polygons_nodes(polygon_contents(polygons@)) =~= stored_polygons(
                parent,
                *dist,
                r as int,
            ));
            assert forall|k: int| 0 <= k < r + 1 implies #[trigger] out.polygons_at(k)
                == stored_polygons(parent, *dist, k) by {
                if k < r {
                    assert(before.polygons_at(k) == stored_polygons(parent, *dist, k));
                }
            }
        }
        r = r + 1;
    }
    out
}

} // verus!
