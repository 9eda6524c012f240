//! What boxes hold and meet.

use crate::build_land_polygons::{
    degrees_le, overlaps, some_point, wanted, DegreeBox, ImportedRing, ImportedVertex,
};
use crate::geometry::Point;
use crate::osm::{Extent, Node, Osm};
use crate::query::{has_node, lemma_filter_member, names_node, Bbox, EntityType};
use crate::spatial::{bbox_holds, ring_bbox, widened};
use vstd::prelude::*;

verus! {

/// What both boxes have in common.
pub open spec fn common_box(a: Bbox, b: Bbox) -> Bbox {
    Bbox {
        min_lon: if a.min_lon > b.min_lon {
            a.min_lon
        } else {
            b.min_lon
        },
        min_lat: if a.min_lat > b.min_lat {
            a.min_lat
        } else {
            b.min_lat
        },
        max_lon: if a.max_lon < b.max_lon {
            a.max_lon
        } else {
            b.max_lon
        },
        max_lat: if a.max_lat < b.max_lat {
            a.max_lat
        } else {
            b.max_lat
        },
    }
}

/// A box holds its edges and what is between them: the box of one position holds the
/// nodes there and no others, and two boxes both hold what their common box holds.
pub proof fn a_box_holds_what_is_between_its_edges(a: Bbox, b: Bbox, node: Node, other: Node)
    ensures
        a.holds_node(node) <==> !(node.lon < a.min_lon || a.max_lon < node.lon || node.lat
            < a.min_lat || a.max_lat < node.lat),
        common_box(a, b).holds_node(node) <==> a.holds_node(node) && b.holds_node(node),
        (Bbox {
            min_lon: other.lon as i64,
            min_lat: other.lat as i64,
            max_lon: other.lon as i64,
            max_lat: other.lat as i64,
        }).holds_node(node) <==> node.lon == other.lon && node.lat == other.lat,
{
}

/// The node at place `j` of the node index is one of the way's.
pub open spec fn is_way_node(parent: &Osm, w: int, j: int) -> bool {
    parent.ways@[w].refs.start <= j < parent.ways@[w].refs.end && parent.nodes_index@[j] is Some
}

/// The node at place `j` of the node index.
pub open spec fn node_at(parent: &Osm, j: int) -> Node {
    parent.nodes@[parent.nodes_index@[j]->0 as int]
}

proof fn lemma_has_node(parent: &Osm, w: int, p: spec_fn(Node) -> bool)
    ensures
        has_node(parent, w, p) <==> exists|j: int| #[trigger]
            is_way_node(parent, w, j) && p(node_at(parent, j)),
{
    if has_node(parent, w, p) {
        let j = choose|j: int|
            parent.ways@[w].refs.start <= j < parent.ways@[w].refs.end && names_node(
                parent,
                #[trigger] parent.nodes_index@[j],
                p,
            );
        assert(is_way_node(parent, w, j) && p(node_at(parent, j)));
    }
    if exists|j: int| #[trigger] is_way_node(parent, w, j) && p(node_at(parent, j)) {
        let j = choose|j: int| #[trigger] is_way_node(parent, w, j) && p(node_at(parent, j));
        assert(names_node(parent, parent.nodes_index@[j], p));
    }
}

/// A way misses a box exactly where all its nodes lie beyond one side of the box.
pub proof fn a_way_misses_a_box_where_it_is_beyond_a_side(bbox: Bbox, parent: &Osm, w: int)
    ensures
        !bbox.meets_way(parent, w) <==> (forall|j: int| #[trigger]
            is_way_node(parent, w, j) ==> node_at(parent, j).lon > bbox.max_lon) || (forall|j: int|
            #[trigger] is_way_node(parent, w, j) ==> node_at(parent, j).lon < bbox.min_lon) || (
        forall|j: int| #[trigger]
            is_way_node(parent, w, j) ==> node_at(parent, j).lat > bbox.max_lat) || (forall|j: int|
            #[trigger] is_way_node(parent, w, j) ==> node_at(parent, j).lat < bbox.min_lat),
{
    lemma_has_node(parent, w, |n: Node| n.lon <= bbox.max_lon);
    lemma_has_node(parent, w, |n: Node| n.lon >= bbox.min_lon);
    lemma_has_node(parent, w, |n: Node| n.lat <= bbox.max_lat);
    lemma_has_node(parent, w, |n: Node| n.lat >= bbox.min_lat);
}

/// A way with a node in the box meets it.
pub proof fn a_way_with_a_node_in_a_box_meets_it(bbox: Bbox, parent: &Osm, w: int, j: int)
    requires
        is_way_node(parent, w, j),
        bbox.holds_node(node_at(parent, j)),
    ensures
        bbox.meets_way(parent, w),
{
    a_way_misses_a_box_where_it_is_beyond_a_side(bbox, parent, w);
}

/// The position is in the box and in the extent.
pub open spec fn in_both(bbox: Bbox, extent: Extent, lon: int, lat: int) -> bool {
    &&& bbox.min_lon <= lon <= bbox.max_lon
    &&& bbox.min_lat <= lat <= bbox.max_lat
    &&& extent.min_lon <= lon <= extent.max_lon
    &&& extent.min_lat <= lat <= extent.max_lat
}

/// A box meets an extent exactly where some position is in both, their edges
/// counted in.
pub proof fn a_box_meets_the_extents_it_overlaps(bbox: Bbox, extent: Extent)
    requires
        bbox.min_lon <= bbox.max_lon,
        bbox.min_lat <= bbox.max_lat,
        extent.min_lon <= extent.max_lon,
        extent.min_lat <= extent.max_lat,
    ensures
        bbox.meets_extent(extent) <==> exists|lon: int, lat: int| #[trigger]
            in_both(bbox, extent, lon, lat),
{
    if bbox.meets_extent(extent) {
        let lon = if bbox.min_lon > extent.min_lon {
            bbox.min_lon as int
        } else {
            extent.min_lon as int
        };
        let lat = if bbox.min_lat > extent.min_lat {
            bbox.min_lat as int
        } else {
            extent.min_lat as int
        };
        assert(in_both(bbox, extent, lon, lat));
    }
}

/// A wider box admits all that a narrower one does.
pub proof fn a_wider_box_admits_more(
    narrow: Bbox,
    wide: Bbox,
    parent: &Osm,
    entity: EntityType,
    i: int,
)
    requires
        wide.min_lon <= narrow.min_lon,
        wide.min_lat <= narrow.min_lat,
        narrow.max_lon <= wide.max_lon,
        narrow.max_lat <= wide.max_lat,
        narrow.admits(parent, entity, i),
    ensures
        wide.admits(parent, entity, i),
{
    if entity == EntityType::Way {
        a_way_misses_a_box_where_it_is_beyond_a_side(narrow, parent, i);
        a_way_misses_a_box_where_it_is_beyond_a_side(wide, parent, i);
    }
}

/// The box of a ring is the least that holds its vertices: it holds each of them,
/// and one lies on each of its sides.
pub proof fn the_box_of_a_ring_is_tight(ring: Seq<Point>)
    requires
        ring.len() > 0,
    ensures
        forall|i: int| 0 <= i < ring.len() ==> bbox_holds(ring_bbox(ring), #[trigger] ring[i]),
        exists|i: int| 0 <= i < ring.len() && (#[trigger] ring[i]).lon == ring_bbox(ring).min_lon,
        exists|i: int| 0 <= i < ring.len() && (#[trigger] ring[i]).lat == ring_bbox(ring).min_lat,
        exists|i: int| 0 <= i < ring.len() && (#[trigger] ring[i]).lon == ring_bbox(ring).max_lon,
        exists|i: int| 0 <= i < ring.len() && (#[trigger] ring[i]).lat == ring_bbox(ring).max_lat,
    decreases ring.len(),
{
    let last = ring.len() - 1;
    assert(ring[last] == ring.last());
    if ring.len() > 1 {
        let front = ring.drop_last();
        the_box_of_a_ring_is_tight(front);
        let (bbox, before) = (ring_bbox(ring), ring_bbox(front));
        assert(bbox == widened(before, ring.last()));
        assert forall|i: int| 0 <= i < ring.len() implies bbox_holds(bbox, #[trigger] ring[i]) by {
            if i < last {
                assert(bbox_holds(before, front[i]));
            }
        }
        let a = choose|i: int| 0 <= i < front.len() && (#[trigger] front[i]).lon == before.min_lon;
        let b = choose|i: int| 0 <= i < front.len() && (#[trigger] front[i]).lat == before.min_lat;
        let c = choose|i: int| 0 <= i < front.len() && (#[trigger] front[i]).lon == before.max_lon;
        let d = choose|i: int| 0 <= i < front.len() && (#[trigger] front[i]).lat == before.max_lat;
        assert(ring[a] == front[a] && ring[b] == front[b] && ring[c] == front[c] && ring[d]
            == front[d]);
        assert(ring[a].lon == bbox.min_lon || ring[last].lon == bbox.min_lon);
        assert(ring[b].lat == bbox.min_lat || ring[last].lat == bbox.min_lat);
        assert(ring[c].lon == bbox.max_lon || ring[last].lon == bbox.max_lon);
        assert(ring[d].lat == bbox.max_lat || ring[last].lat == bbox.max_lat);
    } else {
        assert(ring[0] == ring.last());
    }
}

/// All numbers of the box and of the ring's vertices are finite.
pub open spec fn all_finite(points: Seq<ImportedVertex>, bbox: DegreeBox) -> bool {
    &&& bbox.min_lon is Some && bbox.min_lat is Some
    &&& bbox.max_lon is Some && bbox.max_lat is Some
    &&& forall|i: int|
        0 <= i < points.len() ==> (#[trigger] points[i]).lon is Some && points[i].lat is Some
}

/// An imported ring is dropped exactly where all its vertices lie beyond one side of
/// the extent.
pub proof fn a_ring_is_dropped_where_it_is_beyond_a_side(
    points: Seq<ImportedVertex>,
    bbox: DegreeBox,
)
    requires
        all_finite(points, bbox),
    ensures
        !overlaps(points, bbox) <==> (forall|i: int|
            0 <= i < points.len() ==> (#[trigger] points[i]).lon->0 > bbox.max_lon->0) || (forall|
            i: int,
        |
            0 <= i < points.len() ==> (#[trigger] points[i]).lon->0 < bbox.min_lon->0) || (forall|
            i: int,
        |
            0 <= i < points.len() ==> (#[trigger] points[i]).lat->0 > bbox.max_lat->0) || (forall|
            i: int,
        | 0 <= i < points.len() ==> (#[trigger] points[i]).lat->0 < bbox.min_lat->0),
{
    let n = points.len() as int;
    let west = |q: ImportedVertex| degrees_le(q.lon, bbox.max_lon);
    let east = |q: ImportedVertex| degrees_le(bbox.min_lon, q.lon);
    let south = |q: ImportedVertex| degrees_le(q.lat, bbox.max_lat);
    let north = |q: ImportedVertex| degrees_le(bbox.min_lat, q.lat);
    assert(overlaps(points, bbox) == (some_point(points, west, n) && some_point(points, east, n)
        && some_point(points, south, n) && some_point(points, north, n)));
    assert forall|i: int| 0 <= i < n implies west(#[trigger] points[i]) == (points[i].lon->0
        <= bbox.max_lon->0) && east(points[i]) == (points[i].lon->0 >= bbox.min_lon->0) && south(
        points[i],
    ) == (points[i].lat->0 <= bbox.max_lat->0) && north(points[i]) == (points[i].lat->0
        >= bbox.min_lat->0) by {
        assert(points[i].lon is Some && points[i].lat is Some);
    }
}

/// The rings that are kept are those with at least three vertices that overlap the
/// extent.
pub proof fn kept_rings_have_three_vertices_and_overlap(
    bbox: DegreeBox,
    rings: Seq<ImportedRing>,
    ring: ImportedRing,
)
    ensures
        rings.filter(wanted(bbox)).contains(ring) <==> rings.contains(ring) && ring.vertices@.len()
            >= 3 && overlaps(ring.vertices@, bbox),
{
    broadcast use vstd::seq_lib::group_filter_ensures;

    let kept = rings.filter(wanted(bbox));
    if kept.contains(ring) {
        let k = choose|k: int| 0 <= k < kept.len() && kept[k] == ring;
        lemma_filter_member(rings, wanted(bbox), k);
    }
    if rings.contains(ring) && wanted(bbox)(ring) {
        let k = choose|k: int| 0 <= k < rings.len() && rings[k] == ring;
        assert(kept.contains(rings[k]));
    }
}

/// Numbers that are not finite compare with nothing: a ring with no finite longitude,
/// or no finite latitude, overlaps nothing.
pub proof fn a_ring_without_numbers_is_dropped(points: Seq<ImportedVertex>, bbox: DegreeBox)
    requires
        (forall|i: int| 0 <= i < points.len() ==> (#[trigger] points[i]).lon is None) || (forall|
            i: int,
        | 0 <= i < points.len() ==> (#[trigger] points[i]).lat is None),
    ensures
        !overlaps(points, bbox),
{
}

} // verus!
