//! What selections hold, and which entities shapes admit.

use crate::geometry::{in_polygon, on_edge, on_segment, previous, Point};
use crate::meet_laws::{a_segment_is_the_points_between_its_ends, part_way};
use crate::order::{ascending, count, lemma_ascending_unique, lemma_count};
use crate::osm::{Node, Osm};
use crate::query::{
    in_ranges, is_intersection, least, least_count, maximal_runs, EntityType, Selection,
};
use crate::select::Spatial;
use crate::spatial::{dist_sq, node_point, RadiusFilter};
use std::ops::Range;
use vstd::prelude::*;

verus! {

/// What an intersection holds is in both lists, and what is in both is in it.
pub proof fn an_intersection_holds_what_both_hold(
    a: Seq<u64>,
    b: Seq<u64>,
    out: Seq<u64>,
    x: u64,
)
    requires
        is_intersection(a, b, out),
    ensures
        out.contains(x) <==> a.contains(x) && b.contains(x),
{
    lemma_count(a, x);
    lemma_count(b, x);
    lemma_count(out, x);
    assert(count(out, x) == least(count(a, x), count(b, x)));
}

/// A list and itself have the list in common, what it repeats included.
pub proof fn a_list_intersects_itself_whole(a: Seq<u64>, out: Seq<u64>)
    requires
        ascending(a),
        is_intersection(a, a, out),
    ensures
        out == a,
{
    assert forall|x: u64| #[trigger] count(out, x) == count(a, x) by {
        assert(count(out, x) == least(count(a, x), count(a, x)));
    }
    lemma_ascending_unique(out, a);
}

/// A selection of one list, anywhere, is that list.
pub proof fn a_selection_of_one_list_is_the_list(s: Selection<'_>, out: Seq<u64>)
    requires
        s.wf(),
        s.selects(out),
        s.terms@.len() == 1,
        s.bbox_ranges is None,
    ensures
        out == s.terms@[0]@,
{
    assert forall|x: u64| #[trigger] count(out, x) == count(s.terms@[0]@, x) by {
        assert(s.admits(x));
        assert(least_count(s.terms@, x, count(out, x)));
    }
    lemma_ascending_unique(out, s.terms@[0]@);
}

/// A selection holds what every list of it holds, within its ranges where it has
/// any; without a list it holds nothing.
pub proof fn a_selection_holds_what_all_its_lists_hold(s: Selection<'_>, out: Seq<u64>, x: u64)
    requires
        s.selects(out),
    ensures
        out.contains(x) <==> s.terms@.len() > 0 && (forall|k: int|
            0 <= k < s.terms@.len() ==> (#[trigger] s.terms@[k])@.contains(x)) && (
        s.bbox_ranges is Some ==> in_ranges(s.bbox_ranges->0@, x)),
{
    lemma_count(out, x);
    if s.terms@.len() > 0 && s.admits(x) {
        let n = count(out, x);
        assert(least_count(s.terms@, x, n));
        assert forall|k: int| 0 <= k < s.terms@.len() implies (n > 0 ==> (
        #[trigger] s.terms@[k])@.contains(x)) by {
            lemma_count(s.terms@[k]@, x);
        }
        let k = choose|k: int| 0 <= k < s.terms@.len() && n == count((#[trigger] s.terms@[k])@, x);
        lemma_count(s.terms@[k]@, x);
    } else if s.terms@.len() > 0 {
        assert(count(out, x) == 0);
    }
}

/// Maximal runs cannot be joined or widened: what is just before a run and just
/// after it is in no run.
pub proof fn maximal_runs_cannot_grow(ranges: Seq<Range<u64>>, k: int)
    requires
        maximal_runs(ranges),
        0 <= k < ranges.len(),
    ensures
        in_ranges(ranges, ranges[k].start),
        !in_ranges(ranges, ranges[k].end),
        ranges[k].start > 0 ==> !in_ranges(ranges, (ranges[k].start - 1) as u64),
{
    assert(ranges[k].start <= ranges[k].start < ranges[k].end);
    if in_ranges(ranges, ranges[k].end) {
        let j = choose|j: int|
            0 <= j < ranges.len() && (#[trigger] ranges[j]).start <= ranges[k].end < ranges[j].end;
        assert(j == k || (j < k && ranges[j].end < ranges[k].start) || (j > k && ranges[k].end
            < ranges[j].start));
    }
    if ranges[k].start > 0 {
        let v = (ranges[k].start - 1) as u64;
        if in_ranges(ranges, v) {
            let j = choose|j: int|
                0 <= j < ranges.len() && (#[trigger] ranges[j]).start <= v < ranges[j].end;
            assert(j == k || (j < k && ranges[j].end < ranges[k].start) || (j > k && ranges[k].end
                < ranges[j].start));
        }
    }
}

/// The offset of a node from a point, squared.
pub open spec fn offset_sq(node: Node, p: Point) -> int {
    (node.lon - p.lon) * (node.lon - p.lon) + (node.lat - p.lat) * (node.lat - p.lat)
}

pub(crate) proof fn lemma_offset(node: Node, p: Point)
    ensures
        dist_sq(p, node_point(node)) == offset_sq(node, p),
{
    reveal(dist_sq);
    let (x, y) = (node.lon - p.lon, node.lat - p.lat);
    assert(x * x == (-x) * (-x)) by (nonlinear_arith);
    assert(y * y == (-y) * (-y)) by (nonlinear_arith);
}

/// A radius filter holds the nodes of its circle, the circle itself counted in, and
/// its box holds them all.
pub proof fn a_radius_filter_holds_its_circle(
    filter: RadiusFilter,
    center: Point,
    radius: i32,
    node: Node,
)
    requires
        filter.describes(center, radius),
    ensures
        filter.holds(node) <==> offset_sq(node, center) <= radius * radius,
        filter.holds(node) ==> filter.bbox.holds_node(node),
{
    lemma_offset(node, center);
    let (x, y, r) = (node.lon - center.lon, node.lat - center.lat, radius as int);
    if filter.holds(node) {
        assert(-r <= x <= r && -r <= y <= r) by (nonlinear_arith)
            requires
                x * x + y * y <= r * r,
                r >= 0,
        ;
    }
}

/// A circle admits the nodes within it, and nothing but nodes.
pub proof fn a_circle_admits_the_nodes_within_it(
    parent: &Osm,
    center: Point,
    radius: i32,
    entity: EntityType,
    i: int,
)
    ensures
        (Spatial::Radius { center, radius }).admits(parent, entity, i) <==> entity
            == EntityType::Node && 0 <= i < parent.nodes.len() && offset_sq(
            parent.nodes@[i],
            center,
        ) <= radius * radius,
{
    lemma_offset(parent.nodes@[i], center);
}

/// Edge `i` of a ring runs from vertex `i` to the next, and the last to the first.
pub open spec fn edge_end(ring: Seq<Point>, i: int) -> Point {
    if i + 1 < ring.len() {
        ring[i + 1]
    } else {
        ring[0]
    }
}

/// A polygon holds every point of its edges.
pub proof fn a_polygon_holds_its_edges(p: Point, ring: Seq<Point>, i: int, s: int, t: int)
    requires
        0 <= i < ring.len(),
        part_way(p, ring[i], edge_end(ring, i), s, t),
    ensures
        in_polygon(p, ring),
{
    let n = ring.len() as int;
    let j: int = if i + 1 < n {
        i + 1
    } else {
        0
    };
    a_segment_is_the_points_between_its_ends(p, ring[i], edge_end(ring, i));
    assert(previous(ring, j) == ring[i]);
    assert(on_segment(p, previous(ring, j), ring[j]));
    assert(on_edge(p, ring, n));
}

} // verus!
