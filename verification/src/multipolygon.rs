//! Shared multipolygon ring assembly: stitches a `type=multipolygon` or
//! `type=boundary` relation's outer and inner member ways into closed rings.
//!
//! Assembled rings keep their node indices, so they can be stored once (as
//! parent node indices, not duplicated coordinates) and reused at query time
//! without stitching again.

use crate::build_multipolygons::{polygon_nodes, ring_nodes, stored_polygons};
use crate::ext::{slice_range, sliced, Multipolygons};
use crate::geometry::{inside_ring, point_in_ring, Point};
use crate::order::lemma_run_of;
use crate::osm::{Member, Osm, Relation, Way};
use crate::query::{lemma_filter_member, EntityType};
pub use crate::rings::{
    assemble_rings, assemble_rings_and_open_chains, AssembledRings, Vertex, EXACT_EPS_M,
    RING_SNAP_TOLERANCE_M,
};
use crate::rings::{
    all_nonempty, assembled, assembly_invents_no_vertex, contents, each, each_all, measures,
    split_all,
};
use crate::strings::{same_bytes, string_at};
use crate::Ref;
use vstd::prelude::*;

verus! {

/// The string `type`.
pub open spec fn type_key() -> Seq<u8> {
    seq![0x74u8, 0x79, 0x70, 0x65]
}

/// The string `multipolygon`.
pub open spec fn multipolygon_value() -> Seq<u8> {
    seq![0x6du8, 0x75, 0x6c, 0x74, 0x69, 0x70, 0x6f, 0x6c, 0x79, 0x67, 0x6f, 0x6e]
}

/// The string `boundary`.
pub open spec fn boundary_value() -> Seq<u8> {
    seq![0x62u8, 0x6f, 0x75, 0x6e, 0x64, 0x61, 0x72, 0x79]
}

/// The string `inner`.
pub open spec fn inner_role() -> Seq<u8> {
    seq![0x69u8, 0x6e, 0x6e, 0x65, 0x72]
}

/// The relation's `type` says that its member ways enclose polygons.
pub open spec fn is_area(parent: &Osm, relation: Relation) -> bool {
    let slots = parent.tags_index@.subrange(relation.tags.start as int, relation.tags.end as int);
    parent.value_for(slots, type_key()) == Some(multipolygon_value()) || parent.value_for(
        slots,
        type_key(),
    ) == Some(boundary_value())
}

/// True if the relation is an area type whose member ways enclose polygons.
pub fn is_area_relation(archive: &Osm, relation: &Relation) -> (out: bool)
    requires
        archive.wf(),
        relation.tags.within(archive.tags_index.len() as nat),
    ensures
        out == is_area(archive, *relation),
{
    let key: [u8; 4] = [0x74, 0x79, 0x70, 0x65];
    let multipolygon: [u8; 12] = [
        0x6d, 0x75, 0x6c, 0x74, 0x69, 0x70, 0x6f, 0x6c, 0x79, 0x67, 0x6f, 0x6e,
    ];
    let boundary: [u8; 8] = [0x62, 0x6f, 0x75, 0x6e, 0x64, 0x61, 0x72, 0x79];
    proof {
        assert(key@ =~= type_key());
        assert(multipolygon@ =~= multipolygon_value());
        assert(boundary@ =~= boundary_value());
    }
    match archive.find_tag(relation.tags, key.as_slice()) {
        Some(value) => same_bytes(value, multipolygon.as_slice()) || same_bytes(
            value,
            boundary.as_slice(),
        ),
        None => false,
    }
}

/// The nodes that a run of references names, in order.
pub open spec fn named_nodes(refs: Seq<Option<u64>>) -> Seq<u64>
    decreases refs.len(),
{
    if refs.len() == 0 {
        Seq::empty()
    } else {
        match refs.last() {
            Some(n) => named_nodes(refs.drop_last()).push(n),
            None => named_nodes(refs.drop_last()),
        }
    }
}

/// The nodes of a way, in order.
pub open spec fn way_nodes(parent: &Osm, way: Way) -> Seq<u64> {
    named_nodes(parent.nodes_index@.subrange(way.refs.start as int, way.refs.end as int))
}

/// Resolve a way's node-index sequence (dropping unresolved references).
pub fn way_node_indices(archive: &Osm, way: &Way) -> (out: Vec<u64>)
    requires
        archive.wf(),
        way.refs.within(archive.nodes_index.len() as nat),
    ensures
        out@ == way_nodes(archive, *way),
        forall|k: int| 0 <= k < out@.len() ==> (#[trigger] out@[k]) < archive.nodes.len(),
{
    let ghost refs = archive.nodes_index@.subrange(way.refs.start as int, way.refs.end as int);
    let mut out: Vec<u64> = Vec::new();
    let mut j: u64 = way.refs.start;
    proof {
        assert(refs.take(0) =~= Seq::<Option<u64>>::empty());
    }
    while j < way.refs.end
        invariant
            archive.wf(),
            way.refs.within(archive.nodes_index.len() as nat),
            refs == archive.nodes_index@.subrange(way.refs.start as int, way.refs.end as int),
            way.refs.start <= j <= way.refs.end,
            out@ == named_nodes(refs.take(j - way.refs.start)),
            forall|k: int| 0 <= k < out@.len() ==> (#[trigger] out@[k]) < archive.nodes.len(),
        decreases way.refs.end - j,
    {
        let at = archive.nodes_index[j as usize];
        proof {
            let k = j - way.refs.start;
            assert(refs.take(k + 1).drop_last() =~= refs.take(k));
            assert(refs.take(k + 1).last() == at);
        }
        if let Some(n) = at {
            out.push(n);
        }
        j = j + 1;
    }
    proof {
        assert(refs.take(j - way.refs.start) =~= refs);
    }
    out
}

/// A node as a vertex.
pub open spec fn vertex(parent: &Osm, n: u64) -> Vertex {
    Vertex {
        node_idx: n,
        lon: parent.nodes@[n as int].lon,
        lat: parent.nodes@[n as int].lat,
    }
}

/// A node sequence as vertices.
pub open spec fn vertices(parent: &Osm, nodes: Seq<u64>) -> Seq<Vertex> {
    nodes.map_values(|n: u64| vertex(parent, n))
}

/// Resolve a node sequence to vertices.
pub(crate) fn to_vertices(parent: &Osm, nodes: &Vec<u64>) -> (out: Vec<Vertex>)
    requires
        forall|k: int| 0 <= k < nodes@.len() ==> (#[trigger] nodes@[k]) < parent.nodes.len(),
    ensures
        out@ == vertices(parent, nodes@),
{
    let mut out: Vec<Vertex> = Vec::new();
    let mut i: usize = 0;
    while i < nodes.len()
        invariant
            i <= nodes@.len(),
            forall|k: int| 0 <= k < nodes@.len() ==> (#[trigger] nodes@[k]) < parent.nodes.len(),
            out@.len() == i,
            forall|k: int| 0 <= k < i ==> out@[k] == vertex(parent, nodes@[k]),
        decreases nodes@.len() - i,
    {
        let n: u64 = nodes[i];
        let node = parent.nodes[n as usize];
        out.push(Vertex { node_idx: n, lon: node.lon, lat: node.lat });
        i = i + 1;
    }
    proof {
        assert(out@ =~= vertices(parent, nodes@));
    }
    out
}

/// Whether a member is a way with the role `inner` (or, where `inner` is false,
/// with any other role) that has at least two nodes.
pub open spec fn gives_segment(parent: &Osm, m: Member, inner: bool) -> bool {
    match m.idx {
        Some(w) => m.kind == EntityType::Way && way_nodes(parent, parent.ways@[w as int]).len() >= 2
            && (string_at(parent.stringtable@, m.role_idx as int) == inner_role()) == inner,
        None => false,
    }
}

/// The segments of a relation's members with (or without) the role `inner`.
pub open spec fn role_segments(parent: &Osm, members: Seq<Member>, inner: bool) -> Seq<Seq<Vertex>>
    decreases members.len(),
{
    if members.len() == 0 {
        Seq::empty()
    } else {
        let rest = role_segments(parent, members.drop_last(), inner);
        let m = members.last();
        if gives_segment(parent, m, inner) {
            rest.push(vertices(parent, way_nodes(parent, parent.ways@[m.idx->0 as int])))
        } else {
            rest
        }
    }
}

/// Collect the outer and inner segments of a relation.
fn collect_segments(parent: &Osm, rel_idx: usize) -> (out: (Vec<Vec<Vertex>>, Vec<Vec<Vertex>>))
    requires
        parent.wf(),
        rel_idx < parent.relations.len(),
    ensures
        contents(out.0@) == role_segments(
            parent,
            parent.relation_members@[rel_idx as int]@,
            false,
        ),
        contents(out.1@) == role_segments(parent, parent.relation_members@[rel_idx as int]@, true),
        forall|i: int| 0 <= i < out.0@.len() ==> (#[trigger] out.0@[i])@.len() > 0,
        forall|i: int| 0 <= i < out.1@.len() ==> (#[trigger] out.1@[i])@.len() > 0,
{
    let members = &parent.relation_members[rel_idx];
    let role: [u8; 5] = [0x69, 0x6e, 0x6e, 0x65, 0x72];
    proof {
        assert(role@ =~= inner_role());
        assert(members@.take(0) =~= Seq::<Member>::empty());
    }
    let mut outer: Vec<Vec<Vertex>> = Vec::new();
    let mut inner: Vec<Vec<Vertex>> = Vec::new();
    proof {
        assert(contents(outer@) =~= Seq::<Seq<Vertex>>::empty());
        assert(contents(inner@) =~= Seq::<Seq<Vertex>>::empty());
    }
    let mut m: usize = 0;
    while m < members.len()
        invariant
            parent.wf(),
            rel_idx < parent.relations.len(),
            members@ == parent.relation_members@[rel_idx as int]@,
            role@ == inner_role(),
            m <= members@.len(),
            contents(outer@) == role_segments(parent, members@.take(m as int), false),
            contents(inner@) == role_segments(parent, members@.take(m as int), true),
            forall|i: int| 0 <= i < outer@.len() ==> (#[trigger] outer@[i])@.len() > 0,
            forall|i: int| 0 <= i < inner@.len() ==> (#[trigger] inner@[i])@.len() > 0,
        decreases members@.len() - m,
    {
        let member = members[m];
        proof {
            assert(members@.take(m + 1).drop_last() =~= members@.take(m as int));
            assert(members@.take(m + 1).last() == member);
            assert(parent.member_ok(parent.relation_members@[rel_idx as int]@[m as int]));
        }
        if member.kind == EntityType::Way {
            if let Some(w) = member.idx {
                let nodes = way_node_indices(parent, &parent.ways[w as usize]);
                if nodes.len() >= 2 {
                    let seg = to_vertices(parent, &nodes);
                    let ghost piece = seg@;
                    // Role "inner" carves holes; everything else is exterior.
                    if same_bytes(parent.string(member.role_idx), role.as_slice()) {
                        let ghost before = inner@;
                        inner.push(seg);
                        proof {
                            assert(contents(inner@) =~= contents(before).push(piece));
                        }
                    } else {
                        let ghost before = outer@;
                        outer.push(seg);
                        proof {
                            assert(contents(outer@) =~= contents(before).push(piece));
                        }
                    }
                }
            }
        }
        m = m + 1;
    }
    proof {
        assert(members@.take(m as int) =~= members@);
    }
    (outer, inner)
}

/// The positions of a ring's vertices.
pub open spec fn positions(ring: Seq<Vertex>) -> Seq<Point> {
    ring.map_values(|v: Vertex| v.at())
}

/// The positions of a ring's vertices.
fn ring_points(ring: &Vec<Vertex>) -> (out: Vec<Point>)
    ensures
        out@ == positions(ring@),
{
    let mut out: Vec<Point> = Vec::new();
    let mut i: usize = 0;
    while i < ring.len()
        invariant
            i <= ring@.len(),
            out@.len() == i,
            forall|k: int| 0 <= k < i ==> out@[k] == ring@[k].at(),
        decreases ring@.len() - i,
    {
        out.push(ring[i].xy());
        i = i + 1;
    }
    proof {
        assert(out@ =~= positions(ring@));
    }
    out
}

/// Ring `i` is the first of `rings` that contains `p`.
pub open spec fn first_around(rings: Seq<Seq<Vertex>>, p: Point, i: int) -> bool {
    &&& 0 <= i < rings.len()
    &&& inside_ring(p, positions(rings[i]))
    &&& forall|j: int| 0 <= j < i ==> !inside_ring(p, positions(#[trigger] rings[j]))
}

/// A hole belongs to exterior `i`: it is the first that contains the hole's first
/// vertex.
pub open spec fn hole_of(outers: Seq<Seq<Vertex>>, i: int) -> spec_fn(Seq<Vertex>) -> bool {
    |hole: Seq<Vertex>| hole.len() > 0 && first_around(outers, hole[0].at(), i)
}

/// Polygon `i`: exterior `i`, then its holes.
pub open spec fn polygon(
    outers: Seq<Seq<Vertex>>,
    holes: Seq<Seq<Vertex>>,
    i: int,
) -> Seq<Seq<Vertex>> {
    seq![outers[i]] + holes.filter(hole_of(outers, i))
}

/// One polygon per exterior.
pub open spec fn polygons(
    outers: Seq<Seq<Vertex>>,
    holes: Seq<Seq<Vertex>>,
) -> Seq<Seq<Seq<Vertex>>> {
    Seq::new(outers.len(), |i: int| polygon(outers, holes, i))
}

/// The contents of a list of polygons.
pub open spec fn polygon_contents(list: Seq<Vec<Vec<Vertex>>>) -> Seq<Seq<Seq<Vertex>>> {
    list.map_values(|p: Vec<Vec<Vertex>>| contents(p@))
}

fn copied(ring: &Vec<Vertex>) -> (out: Vec<Vertex>)
    ensures
        out@ == ring@,
{
    let mut out: Vec<Vertex> = Vec::new();
    let mut i: usize = 0;
    while i < ring.len()
        invariant
            i <= ring@.len(),
            out@ == ring@.take(i as int),
        decreases ring@.len() - i,
    {
        out.push(ring[i]);
        proof {
            assert(out@ =~= ring@.take(i + 1));
        }
        i = i + 1;
    }
    proof {
        assert(out@ =~= ring@);
    }
    out
}

/// The first of the rings that contains `p`.
fn find_around(rings: &Vec<Vec<Point>>, p: Point, Ghost(outers): Ghost<Seq<Seq<Vertex>>>) -> (out:
    Option<usize>)
    requires
        rings@.len() == outers.len(),
        forall|i: int| 0 <= i < rings@.len() ==> (#[trigger] rings@[i])@ == positions(outers[i]),
    ensures
        match out {
            Some(i) => first_around(outers, p, i as int),
            None => forall|i: int| !#[trigger] first_around(outers, p, i),
        },
{
    let mut i: usize = 0;
    while i < rings.len()
        invariant
            i <= rings@.len(),
            rings@.len() == outers.len(),
            forall|k: int|
                0 <= k < rings@.len() ==> (#[trigger] rings@[k])@ == positions(outers[k]),
            forall|k: int| 0 <= k < i ==> !inside_ring(p, positions(#[trigger] outers[k])),
        decreases rings@.len() - i,
    {
        if point_in_ring(p, rings[i].as_slice()) {
            return Some(i);
        }
        i = i + 1;
    }
    None
}

/// Assign each hole to the exterior that contains its first vertex. A hole with
/// no containing exterior is dropped.
fn place_holes(outers: Vec<Vec<Vertex>>, holes: Vec<Vec<Vertex>>) -> (out: Vec<Vec<Vec<Vertex>>>)
    ensures
        polygon_contents(out@) == polygons(contents(outers@), contents(holes@)),
{
    let ghost rings = contents(outers@);
    let ghost all = contents(holes@);
    let mut points: Vec<Vec<Point>> = Vec::new();
    let mut out: Vec<Vec<Vec<Vertex>>> = Vec::new();
    let mut i: usize = 0;
    while i < outers.len()
        invariant
            i <= outers@.len(),
            rings == contents(outers@),
            points@.len() == i,
            out@.len() == i,
            forall|k: int| 0 <= k < i ==> (#[trigger] points@[k])@ == positions(rings[k]),
            forall|k: int| 0 <= k < i ==> contents((#[trigger] out@[k])@) == seq![rings[k]],
        decreases outers@.len() - i,
    {
        proof {
            assert(rings[i as int] == outers@[i as int]@);
        }
        points.push(ring_points(&outers[i]));
        let mut one: Vec<Vec<Vertex>> = Vec::new();
        one.push(copied(&outers[i]));
        proof {
            assert(contents(one@) =~= seq![rings[i as int]]);
        }
        out.push(one);
        i = i + 1;
    }
    proof {
        assert forall|p: int| 0 <= p < out@.len() implies contents((#[trigger] out@[p])@) == seq![
            rings[p],
        ] + all.take(0).filter(hole_of(rings, p)) by {
            reveal(Seq::filter);
            assert(all.take(0) =~= Seq::<Seq<Vertex>>::empty());
            assert(seq![rings[p]] + Seq::<Seq<Vertex>>::empty() =~= seq![rings[p]]);
        }
    }
    let mut h: usize = 0;
    while h < holes.len()
        invariant
            h <= holes@.len(),
            all == contents(holes@),
            out@.len() == rings.len(),
            points@.len() == rings.len(),
            forall|k: int|
                0 <= k < points@.len() ==> (#[trigger] points@[k])@ == positions(rings[k]),
            forall|p: int|
                0 <= p < out@.len() ==> contents((#[trigger] out@[p])@) == seq![rings[p]]
                    + all.take(h as int).filter(hole_of(rings, p)),
        decreases holes@.len() - h,
    {
        let ghost before = out@;
        let ghost hole = all[h as int];
        proof {
            assert(hole == holes@[h as int]@);
            assert(all.take(h + 1) =~= all.take(h as int).push(hole));
            assert forall|p: int| all.take(h + 1).filter(#[trigger] hole_of(rings, p)) == if hole_of(
                rings,
                p,
            )(hole) {
                all.take(h as int).filter(hole_of(rings, p)).push(hole)
            } else {
                all.take(h as int).filter(hole_of(rings, p))
            } by {
                reveal(Seq::filter);
                assert(all.take(h + 1).drop_last() =~= all.take(h as int));
                assert(all.take(h + 1).last() == hole);
            }
        }
        if holes[h].len() > 0 {
            let first = holes[h][0];
            let found = find_around(&points, first.xy(), Ghost(rings));
            match found {
                Some(o) => {
                    let ghost list0 = out@[o as int]@;
                    out[o].push(copied(&holes[h]));
                    proof {
                        assert(contents(out@[o as int]@) =~= contents(list0).push(hole));
                        assert forall|p: int| 0 <= p < out@.len() implies contents(
                            (#[trigger] out@[p])@,
                        ) == seq![rings[p]] + all.take(h + 1).filter(hole_of(rings, p)) by {
                            let kept = all.take(h as int).filter(hole_of(rings, p));
                            assert(contents(before[p]@) == seq![rings[p]] + kept);
                            if p == o {
                                assert(hole_of(rings, p)(hole));
                                assert((seq![rings[p]] + kept).push(hole) =~= seq![rings[p]]
                                    + kept.push(hole));
                            } else {
                                assert(out@[p] == before[p]);
                                assert(!hole_of(rings, p)(hole)) by {
                                    if first_around(rings, hole[0].at(), p) {
                                        if p < o {
                                            assert(!inside_ring(
                                                hole[0].at(),
                                                positions(rings[p]),
                                            ));
                                        } else {
                                            assert(!inside_ring(
                                                hole[0].at(),
                                                positions(rings[o as int]),
                                            ));
                                        }
                                    }
                                }
                            }
                        }
                    }
                },
                None => {
                    proof {
                        assert forall|p: int| 0 <= p < out@.len() implies contents(
                            (#[trigger] out@[p])@,
                        ) == seq![rings[p]] + all.take(h + 1).filter(hole_of(rings, p)) by {
                            assert(!first_around(rings, hole[0].at(), p));
                            assert(!hole_of(rings, p)(hole));
                        }
                    }
                },
            }
        } else {
            proof {
                assert forall|p: int| 0 <= p < out@.len() implies contents((#[trigger] out@[p])@)
                    == seq![rings[p]] + all.take(h + 1).filter(hole_of(rings, p)) by {
                    assert(!hole_of(rings, p)(hole));
                }
            }
        }
        h = h + 1;
    }
    proof {
        assert(all.take(h as int) =~= all);
        assert(polygon_contents(out@) =~= polygons(rings, all));
    }
    out
}

/// What a relation assembles to: its polygons and its open exterior chains.
pub open spec fn assembled_relation<F: Fn(Vertex, Vertex) -> u64>(
    parent: &Osm,
    dist: F,
    rel_idx: int,
) -> (Seq<Seq<Seq<Vertex>>>, Seq<Seq<Vertex>>) {
    let members = parent.relation_members@[rel_idx]@;
    let outer = assembled(dist, role_segments(parent, members, false));
    let inner = assembled(dist, role_segments(parent, members, true));
    (polygons(split_all(outer.0), split_all(inner.0)), outer.1)
}

/// Assemble a relation into polygons, each an exterior ring followed by the
/// holes it contains, plus any unclosed exterior chains. `polygons[p][r]` is ring
/// `r` of polygon `p` (ring 0 is the exterior); each vertex carries both its
/// parent node index and its position.
pub fn assemble_multipolygon<F: Fn(Vertex, Vertex) -> u64>(
    archive: &Osm,
    rel_idx: usize,
    dist: &F,
) -> (out: (Vec<Vec<Vec<Vertex>>>, Vec<Vec<Vertex>>))
    requires
        archive.wf(),
        rel_idx < archive.relations.len(),
        measures(*dist),
    ensures
        polygon_contents(out.0@) == assembled_relation(archive, *dist, rel_idx as int).0,
        contents(out.1@) == assembled_relation(archive, *dist, rel_idx as int).1,
{
    let (outer, inner) = collect_segments(archive, rel_idx);
    let outers = assemble_rings_and_open_chains(outer, dist);
    let holes = assemble_rings(inner, dist);
    (place_holes(outers.rings, holes), outers.open_chains)
}

/// Query interface over a precomputed `Multipolygons` index: reads the assembled
/// rings, with no stitching. An empty result means that nothing was precomputed
/// for the relation.
#[derive(Clone, Copy)]
pub struct MultipolygonsQuery<'a> {
    pub parent: &'a Osm,
    pub multipolygons: &'a Multipolygons,
}

/// Every node that the index names is a node of `parent`.
pub open spec fn names_nodes_of(nodes: Seq<u64>, parent: &Osm) -> bool {
    forall|i: int| 0 <= i < nodes.len() ==> (#[trigger] nodes[i]) < parent.nodes.len()
}

/// The positions of the nodes.
pub open spec fn node_points(parent: &Osm, nodes: Seq<u64>) -> Seq<Point> {
    nodes.map_values(
        |n: u64| Point { lon: parent.nodes@[n as int].lon, lat: parent.nodes@[n as int].lat },
    )
}

/// How many items a stored range spans.
pub open spec fn span_len(ranges: Seq<u64>, i: int) -> nat {
    if ranges[i] <= ranges[i + 1] {
        (ranges[i + 1] - ranges[i]) as nat
    } else {
        0
    }
}

/// The rings of polygon `p`, as node positions.
pub open spec fn read_polygon(parent: &Osm, mp: &Multipolygons, p: int) -> Seq<Seq<Point>> {
    let first = mp.polygon_ring_range@;
    if 0 <= p && p + 1 < first.len() {
        Seq::new(
            span_len(first, p),
            |i: int| node_points(parent, sliced(mp.ring_node_range@, mp.nodes@, first[p] + i)),
        )
    } else {
        Seq::empty()
    }
}

/// The polygons of relation `r`, as node positions.
pub open spec fn read_polygons(parent: &Osm, mp: &Multipolygons, r: int) -> Seq<Seq<Seq<Point>>> {
    let first = mp.rel_polygon_range@;
    if 0 <= r && r + 1 < first.len() {
        Seq::new(span_len(first, r), |i: int| read_polygon(parent, mp, first[r] + i))
    } else {
        Seq::empty()
    }
}

/// The contents of a list of point lists.
pub open spec fn point_contents(lists: Seq<Vec<Point>>) -> Seq<Seq<Point>> {
    lists.map_values(|list: Vec<Point>| list@)
}

/// The contents of a list of lists of point lists.
pub open spec fn point_polygons(lists: Seq<Vec<Vec<Point>>>) -> Seq<Seq<Seq<Point>>> {
    lists.map_values(|list: Vec<Vec<Point>>| point_contents(list@))
}

/// Resolve nodes to their positions.
pub(crate) fn resolve_nodes(parent: &Osm, nodes: &[Ref]) -> (out: Vec<Point>)
    requires
        names_nodes_of(nodes@, parent),
    ensures
        out@ == node_points(parent, nodes@),
{
    let mut out: Vec<Point> = Vec::new();
    let mut i: usize = 0;
    while i < nodes.len()
        invariant
            i <= nodes@.len(),
            names_nodes_of(nodes@, parent),
            out@.len() == i,
            forall|k: int|
                0 <= k < i ==> out@[k] == (Point {
                    lon: parent.nodes@[nodes@[k] as int].lon,
                    lat: parent.nodes@[nodes@[k] as int].lat,
                }),
        decreases nodes@.len() - i,
    {
        let node = parent.nodes[nodes[i] as usize];
        out.push(Point { lon: node.lon, lat: node.lat });
        i = i + 1;
    }
    proof {
        assert(out@ =~= node_points(parent, nodes@));
    }
    out
}

impl<'a> MultipolygonsQuery<'a> {
    /// Wrap a parent archive and its `Multipolygons` index.
    pub fn new(parent: &'a Osm, multipolygons: &'a Multipolygons) -> (out: Self)
        ensures
            out.parent == parent,
            out.multipolygons == multipolygons,
    {
        MultipolygonsQuery { parent, multipolygons }
    }

    fn polygon(&self, p: u64) -> (out: Vec<Vec<Point>>)
        requires
            names_nodes_of(self.multipolygons.nodes@, self.parent),
        ensures
            point_contents(out@) == read_polygon(self.parent, self.multipolygons, p as int),
    {
        let mp = self.multipolygons;
        let mut out: Vec<Vec<Point>> = Vec::new();
        let n: usize = mp.polygon_ring_range.len();
        if n == 0 || p >= (n - 1) as u64 {
            proof {
                assert(point_contents(out@) =~= Seq::<Seq<Point>>::empty());
            }
            return out;
        }
        let at: usize = p as usize;
        let (start, end): (u64, u64) = (mp.polygon_ring_range[at], mp.polygon_ring_range[at + 1]);
        let mut q: u64 = start;
        while q < end
            invariant
                mp == self.multipolygons,
                names_nodes_of(mp.nodes@, self.parent),
                start <= q,
                q <= end || q == start,
                out@.len() == q - start,
                forall|i: int|
                    0 <= i < out@.len() ==> (#[trigger] out@[i])@ == node_points(
                        self.parent,
                        sliced(mp.ring_node_range@, mp.nodes@, start + i),
                    ),
            decreases end - q,
        {
            let none: usize = mp.ring_node_range.len();
            let idx: usize = if q < none as u64 {
                q as usize
            } else {
                none
            };
            let nodes = slice_range(mp.ring_node_range.as_slice(), mp.nodes.as_slice(), idx);
            proof {
                assert(nodes@ == sliced(mp.ring_node_range@, mp.nodes@, q as int));
                assert forall|i: int| 0 <= i < nodes@.len() implies (#[trigger] nodes@[i])
                    < self.parent.nodes.len() by {
                    let first = mp.ring_node_range@;
                    assert(nodes@[i] == mp.nodes@[first[q as int] + i]);
                }
            }
            out.push(resolve_nodes(self.parent, nodes));
            q = q + 1;
        }
        proof {
            assert(point_contents(out@) =~= read_polygon(self.parent, mp, p as int));
        }
        out
    }

    /// Precomputed polygons for the relation at `rel_idx`: `polygons[p][r]` is
    /// ring `r` of polygon `p` (ring 0 is the exterior), as positions of the
    /// parent's nodes. Empty when this relation has no precomputed polygons.
    pub fn polygons(&self, rel_idx: usize) -> (out: Vec<Vec<Vec<Point>>>)
        requires
            names_nodes_of(self.multipolygons.nodes@, self.parent),
        ensures
            point_polygons(out@) == read_polygons(
                self.parent,
                self.multipolygons,
                rel_idx as int,
            ),
    {
        let mp = self.multipolygons;
        let mut out: Vec<Vec<Vec<Point>>> = Vec::new();
        let n: usize = mp.rel_polygon_range.len();
        if n == 0 || rel_idx >= n - 1 {
            proof {
                assert(point_polygons(out@) =~= Seq::<Seq<Seq<Point>>>::empty());
            }
            return out;
        }
        let (start, end): (u64, u64) = (
            mp.rel_polygon_range[rel_idx],
            mp.rel_polygon_range[rel_idx + 1],
        );
        let mut p: u64 = start;
        while p < end
            invariant
                mp == self.multipolygons,
                names_nodes_of(mp.nodes@, self.parent),
                start <= p,
                p <= end || p == start,
                out@.len() == p - start,
                forall|i: int|
                    0 <= i < out@.len() ==> point_contents((#[trigger] out@[i])@) == read_polygon(
                        self.parent,
                        mp,
                        start + i,
                    ),
            decreases end - p,
        {
            out.push(self.polygon(p));
            p = p + 1;
        }
        proof {
            assert(point_polygons(out@) =~= read_polygons(self.parent, mp, rel_idx as int));
        }
        out
    }
}

/// The vertex is that of a node of the archive.
pub open spec fn of_node(parent: &Osm) -> spec_fn(Vertex) -> bool {
    |v: Vertex| v.node_idx < parent.nodes.len() && v == vertex(parent, v.node_idx)
}

proof fn lemma_named_nodes(parent: &Osm, refs: Seq<Option<u64>>)
    requires
        forall|i: int|
            0 <= i < refs.len() ==> ((#[trigger] refs[i]) matches Some(n) ==> n
                < parent.nodes.len()),
    ensures
        names_nodes_of(named_nodes(refs), parent),
    decreases refs.len(),
{
    if refs.len() > 0 {
        lemma_named_nodes(parent, refs.drop_last());
        assert(refs.last() == refs[refs.len() - 1]);
    }
}

pub(crate) proof fn lemma_way_vertices(parent: &Osm, way: Way)
    requires
        parent.wf(),
        way.refs.within(parent.nodes_index.len() as nat),
    ensures
        each(vertices(parent, way_nodes(parent, way)), of_node(parent)),
{
    let refs = parent.nodes_index@.subrange(way.refs.start as int, way.refs.end as int);
    assert forall|i: int| 0 <= i < refs.len() implies ((#[trigger] refs[i]) matches Some(n) ==> n
        < parent.nodes.len()) by {
        assert(refs[i] == parent.nodes_index@[way.refs.start + i]);
    }
    lemma_named_nodes(parent, refs);
    let nodes = way_nodes(parent, way);
    assert forall|k: int| 0 <= k < vertices(parent, nodes).len() implies of_node(parent)(
        #[trigger] vertices(parent, nodes)[k],
    ) by {
        assert(nodes[k] < parent.nodes.len());
    }
}

proof fn lemma_role_segments(parent: &Osm, members: Seq<Member>, inner: bool)
    requires
        parent.wf(),
        forall|m: int| 0 <= m < members.len() ==> parent.member_ok(#[trigger] members[m]),
    ensures
        all_nonempty(role_segments(parent, members, inner)),
        each_all(role_segments(parent, members, inner), of_node(parent)),
    decreases members.len(),
{
    if members.len() > 0 {
        assert forall|m: int| 0 <= m < members.drop_last().len() implies parent.member_ok(
            #[trigger] members.drop_last()[m],
        ) by {
            assert(members.drop_last()[m] == members[m]);
        }
        lemma_role_segments(parent, members.drop_last(), inner);
        let m = members.last();
        assert(m == members[members.len() - 1]);
        if gives_segment(parent, m, inner) {
            let way = parent.ways@[m.idx->0 as int];
            lemma_way_vertices(parent, way);
        }
    }
}

/// Every vertex of an assembled relation is that of a node of the archive.
pub proof fn an_assembled_relation_keeps_its_nodes<F: Fn(Vertex, Vertex) -> u64>(
    parent: &Osm,
    dist: F,
    rel_idx: int,
)
    requires
        parent.wf(),
        0 <= rel_idx < parent.relations.len(),
    ensures
        forall|p: int|
            0 <= p < assembled_relation(parent, dist, rel_idx).0.len() ==> each_all(
                #[trigger] assembled_relation(parent, dist, rel_idx).0[p],
                of_node(parent),
            ),
        each_all(assembled_relation(parent, dist, rel_idx).1, of_node(parent)),
{
    let members = parent.relation_members@[rel_idx]@;
    assert forall|m: int| 0 <= m < members.len() implies parent.member_ok(
        #[trigger] members[m],
    ) by {
        assert(parent.member_ok(parent.relation_members@[rel_idx]@[m]));
    }
    let q = of_node(parent);
    let (a, b) = (role_segments(parent, members, false), role_segments(parent, members, true));
    lemma_role_segments(parent, members, false);
    lemma_role_segments(parent, members, true);
    assembly_invents_no_vertex(dist, a, q);
    assembly_invents_no_vertex(dist, b, q);
    let outers = split_all(assembled(dist, a).0);
    let holes = split_all(assembled(dist, b).0);
    assert forall|p: int| 0 <= p < outers.len() implies each_all(
        #[trigger] polygons(outers, holes)[p],
        q,
    ) by {
        let kept = holes.filter(hole_of(outers, p));
        let list = polygon(outers, holes, p);
        assert forall|i: int| 0 <= i < list.len() implies each(#[trigger] list[i], q) by {
            if i == 0 {
                assert(list[i] == outers[p]);
            } else {
                assert(list[i] == kept[i - 1]);
                lemma_filter_member(holes, hole_of(outers, p), i - 1);
                assert(holes.contains(kept[i - 1]));
                let k = choose|k: int| 0 <= k < holes.len() && holes[k] == kept[i - 1];
                assert(each(holes[k], q));
            }
        }
    }
}

/// The positions of an assembled polygon's rings.
pub open spec fn polygon_positions(rings: Seq<Seq<Vertex>>) -> Seq<Seq<Point>> {
    rings.map_values(|ring: Seq<Vertex>| positions(ring))
}

/// What is read back of an area relation is what its live assembly gives: the
/// same polygons, with the same rings at the same positions.
pub proof fn precomputed_polygons_match_live_assembly<F: Fn(Vertex, Vertex) -> u64>(
    parent: &Osm,
    dist: F,
    mp: &Multipolygons,
    r: int,
)
    requires
        parent.wf(),
        mp.describes(parent, dist),
        0 <= r < parent.relations.len(),
    ensures
        is_area(parent, parent.relations@[r]) ==> read_polygons(parent, mp, r)
            == assembled_relation(parent, dist, r).0.map_values(
            |rings: Seq<Seq<Vertex>>| polygon_positions(rings),
        ),
        !is_area(parent, parent.relations@[r]) ==> read_polygons(parent, mp, r).len() == 0,
{
    let first = mp.rel_polygon_range@;
    let list = mp.polygons_at(r);
    assert(list == stored_polygons(parent, dist, r));
    assert(first[r] <= first[r + 1] && first[r + 1] <= first[mp.n_relations()]);
    assert(read_polygons(parent, mp, r).len() == list.len());
    if is_area(parent, parent.relations@[r]) {
        an_assembled_relation_keeps_its_nodes(parent, dist, r);
        let live = assembled_relation(parent, dist, r).0;
        let goal = live.map_values(|rings: Seq<Seq<Vertex>>| polygon_positions(rings));
        assert forall|i: int| 0 <= i < list.len() implies read_polygons(parent, mp, r)[i]
            == goal[i] by {
            let p = first[r] + i;
            assert(list[i] == mp.polygon_at(p));
            assert(list[i] == polygon_nodes(live[i]));
            lemma_read_polygon(parent, mp, p, live[i]);
        }
        assert(read_polygons(parent, mp, r) =~= goal);
    }
}

proof fn lemma_read_polygon(parent: &Osm, mp: &Multipolygons, p: int, rings: Seq<Seq<Vertex>>)
    requires
        mp.shaped(),
        0 <= p < mp.n_polygons(),
        mp.polygon_at(p) == polygon_nodes(rings),
        each_all(rings, of_node(parent)),
    ensures
        read_polygon(parent, mp, p) == polygon_positions(rings),
{
    let first = mp.polygon_ring_range@;
    let f = mp.ring_node_range@;
    assert(first[p] <= first[p + 1] && first[p + 1] <= first[mp.n_polygons()]);
    assert(mp.polygon_at(p).len() == rings.len());
    assert forall|k: int| 0 <= k < rings.len() implies read_polygon(parent, mp, p)[k]
        == polygon_positions(rings)[k] by {
        let q = first[p] + k;
        assert(f[q] <= f[q + 1] && f[q + 1] <= f[mp.n_rings()]);
        assert(mp.polygon_at(p)[k] == mp.ring_at(q));
        assert(polygon_nodes(rings)[k] == ring_nodes(rings[k]));
        assert(sliced(f, mp.nodes@, q) == mp.ring_at(q));
        assert(each(rings[k], of_node(parent)));
        assert forall|i: int| 0 <= i < rings[k].len() implies node_points(
            parent,
            ring_nodes(rings[k]),
        )[i] == positions(rings[k])[i] by {
            assert(of_node(parent)(rings[k][i]));
        }
        assert(node_points(parent, ring_nodes(rings[k])) =~= positions(rings[k]));
    }
    assert(read_polygon(parent, mp, p) =~= polygon_positions(rings));
}

/// The index names nodes of its parent only, so it can be queried.
pub proof fn precomputed_polygons_can_be_read<F: Fn(Vertex, Vertex) -> u64>(
    parent: &Osm,
    dist: F,
    mp: &Multipolygons,
)
    requires
        parent.wf(),
        mp.describes(parent, dist),
    ensures
        names_nodes_of(mp.nodes@, parent),
{
    assert forall|i: int| 0 <= i < mp.nodes@.len() implies (#[trigger] mp.nodes@[i])
        < parent.nodes.len() by {
        let f = mp.ring_node_range@;
        let q = lemma_run_of(f, mp.n_rings(), mp.nodes.len() as int, i);
        let g = mp.polygon_ring_range@;
        let p = lemma_run_of(g, mp.n_polygons(), mp.n_rings(), q);
        let h = mp.rel_polygon_range@;
        let r = lemma_run_of(h, mp.n_relations(), mp.n_polygons(), p);
        let list = mp.polygons_at(r);
        assert(list == stored_polygons(parent, dist, r));
        assert(h[r] <= h[r + 1]);
        assert(list[p - h[r]] == mp.polygon_at(p));
        an_assembled_relation_keeps_its_nodes(parent, dist, r);
        let live = assembled_relation(parent, dist, r).0;
        let rings = live[p - h[r]];
        assert(list[p - h[r]] == polygon_nodes(rings));
        assert(g[p] <= g[p + 1]);
        assert(mp.polygon_at(p)[q - g[p]] == mp.ring_at(q));
        let ring = rings[q - g[p]];
        assert(polygon_nodes(rings)[q - g[p]] == ring_nodes(ring));
        assert(f[q + 1] <= f[mp.n_rings()]);
        assert(mp.ring_at(q)[i - f[q]] == mp.nodes@[i]);
        assert(each(ring, of_node(parent)));
        assert(of_node(parent)(ring[i - f[q]]));
    }
}

} // verus!
