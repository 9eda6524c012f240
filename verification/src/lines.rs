//! A way as a line: the sequence of its nodes that the archive holds.

use crate::geometry::{in_polygon, point_in_polygon, previous, Point};
use crate::multipolygon::{way_node_indices, way_nodes};
use crate::osm::Osm;
use crate::segments::{
    is_segment_distance, point_distance, segment_distance, segments_meet, segments_touch,
};
use crate::spatial::{dist_sq, node_point};
use crate::wide::{lemma_ratio_chain, lemma_ratio_total, Ratio};
use vstd::prelude::*;

verus! {

/// The points of a way.
pub open spec fn way_points(parent: &Osm, w: int) -> Seq<Point> {
    way_nodes(parent, parent.ways@[w]).map_values(|n: u64| node_point(parent.nodes@[n as int]))
}

/// The points of a way.
pub fn points_of_way(parent: &Osm, w: usize) -> (out: Vec<Point>)
    requires
        parent.wf(),
        w < parent.ways.len(),
    ensures
        out@ == way_points(parent, w as int),
{
    let indices = way_node_indices(parent, &parent.ways[w]);
    let mut out: Vec<Point> = Vec::new();
    let mut i: usize = 0;
    while i < indices.len()
        invariant
            parent.wf(),
            w < parent.ways.len(),
            indices@ == way_nodes(parent, parent.ways@[w as int]),
            forall|k: int| 0 <= k < indices@.len() ==> (#[trigger] indices@[k]) < parent.nodes.len(),
            i <= indices@.len(),
            out@.len() == i,
            forall|k: int| 0 <= k < i ==> #[trigger] out@[k] == way_points(parent, w as int)[k],
        decreases indices@.len() - i,
    {
        let node = parent.nodes[indices[i] as usize];
        out.push(Point { lon: node.lon, lat: node.lat });
        i = i + 1;
    }
    proof {
        assert(out@ =~= way_points(parent, w as int));
    }
    out
}

/// How many parts a line has: its segments, or its one point.
pub open spec fn parts(line: Seq<Point>) -> int {
    if line.len() <= 1 {
        line.len() as int
    } else {
        line.len() - 1
    }
}

/// `d` is the squared distance from `p` to part `i` of the line.
pub open spec fn part_distance(line: Seq<Point>, p: Point, i: int, d: Ratio) -> bool {
    if line.len() == 1 {
        d.num.val() == dist_sq(p, line[0]) && d.den == 1
    } else {
        is_segment_distance(p, line[i], line[i + 1], d)
    }
}

/// `d` is the squared distance from `p` to some part of the line.
pub open spec fn line_has(line: Seq<Point>, p: Point, d: Ratio) -> bool {
    d.wf() && exists|i: int| 0 <= i < parts(line) && #[trigger] part_distance(line, p, i, d)
}

/// `d` is the squared distance from `p` to the line: that to its nearest part.
pub open spec fn is_line_distance(line: Seq<Point>, p: Point, d: Ratio) -> bool {
    &&& line_has(line, p, d)
    &&& forall|e: Ratio| #[trigger] line_has(line, p, e) ==> d.at_most(e)
}

/// The squared distance from `p` to the line; `None` where it has no points.
pub fn line_distance(line: &Vec<Point>, p: Point) -> (out: Option<Ratio>)
    ensures
        match out {
            Some(d) => is_line_distance(line@, p, d),
            None => line@.len() == 0,
        },
{
    if line.len() == 0 {
        return None;
    }
    if line.len() == 1 {
        let d = point_distance(p, line[0]);
        proof {
            assert(part_distance(line@, p, 0, d));
            assert forall|e: Ratio| #[trigger] line_has(line@, p, e) implies d.at_most(e) by {
            }
        }
        return Some(d);
    }
    let mut best = segment_distance(p, line[0], line[1]);
    proof {
        assert(part_distance(line@, p, 0, best));
        assert forall|e: Ratio| #[trigger] line_has_before(line@, p, 1, e) implies best.at_most(
            e,
        ) by {
            lemma_same_part(line@, p, 0, best, e);
        }
    }
    let mut i: usize = 1;
    while i < line.len() - 1
        invariant
            1 <= i <= line@.len() - 1,
            line_has(line@, p, best),
            forall|e: Ratio| #[trigger]
                line_has_before(line@, p, i as int, e) ==> best.at_most(e),
        decreases line@.len() - i,
    {
        let d = segment_distance(p, line[i], line[i + 1]);
        let ghost before = best;
        best = best.least(d);
        proof {
            assert(part_distance(line@, p, i as int, d));
            assert forall|e: Ratio| #[trigger]
                line_has_before(line@, p, i + 1, e) implies best.at_most(e) by {
                let k = choose|k: int| 0 <= k < i + 1 && #[trigger] part_distance(line@, p, k, e);
                if k < i {
                    assert(line_has_before(line@, p, i as int, e));
                    lemma_ratio_chain(best, before, e);
                } else {
                    lemma_same_part(line@, p, i as int, d, e);
                    lemma_ratio_chain(best, d, e);
                }
            }
        }
        i = i + 1;
    }
    proof {
        assert forall|e: Ratio| #[trigger] line_has(line@, p, e) implies best.at_most(e) by {
            assert(line_has_before(line@, p, i as int, e));
        }
    }
    Some(best)
}

/// `d` is the squared distance from `p` to one of the first `n` parts.
spec fn line_has_before(line: Seq<Point>, p: Point, n: int, d: Ratio) -> bool {
    d.wf() && exists|i: int| 0 <= i < n && #[trigger] part_distance(line, p, i, d)
}

/// A part has one distance.
proof fn lemma_same_part(line: Seq<Point>, p: Point, i: int, d: Ratio, e: Ratio)
    requires
        part_distance(line, p, i, d),
        part_distance(line, p, i, e),
    ensures
        d.at_most(e),
{
    lemma_ratio_total(d, e);
    assert(d.num.val() == e.num.val() && d.den == e.den);
}

/// The squared distance from `p` to a way; `None` where it has no points.
pub fn way_distance(parent: &Osm, w: usize, p: Point) -> (out: Option<Ratio>)
    requires
        parent.wf(),
        w < parent.ways.len(),
    ensures
        match out {
            Some(d) => is_line_distance(way_points(parent, w as int), p, d),
            None => way_points(parent, w as int).len() == 0,
        },
{
    let line = points_of_way(parent, w);
    line_distance(&line, p)
}

/// The edge of the ring that ends at vertex `j` meets a segment.
pub open spec fn edge_meets(a: Point, b: Point, ring: Seq<Point>, j: int) -> bool {
    segments_meet(a, b, previous(ring, j), ring[j])
}

/// The segment meets an edge of the ring.
pub open spec fn meets_ring(a: Point, b: Point, ring: Seq<Point>) -> bool {
    exists|j: int| 0 <= j < ring.len() && #[trigger] edge_meets(a, b, ring, j)
}

/// Point `i` of the line is in the polygon, or the segment that starts there
/// meets an edge.
pub open spec fn touches_from(line: Seq<Point>, ring: Seq<Point>, i: int) -> bool {
    in_polygon(line[i], ring) || (i + 1 < line.len() && meets_ring(line[i], line[i + 1], ring))
}

/// A part of the line touches the polygon.
pub open spec fn line_touches(line: Seq<Point>, ring: Seq<Point>) -> bool {
    exists|i: int| 0 <= i < line.len() && #[trigger] touches_from(line, ring, i)
}

/// Whether the segment meets an edge of the ring.
fn crosses_ring(a: Point, b: Point, ring: &[Point]) -> (out: bool)
    ensures
        out == meets_ring(a, b, ring@),
{
    let n: usize = ring.len();
    let mut j: usize = 0;
    while j < n
        invariant
            j <= n,
            n == ring@.len(),
            forall|k: int| 0 <= k < j ==> !#[trigger] edge_meets(a, b, ring@, k),
        decreases n - j,
    {
        let before: usize = if j == 0 {
            n - 1
        } else {
            j - 1
        };
        if segments_touch(a, b, ring[before], ring[j]) {
            proof {
                assert(edge_meets(a, b, ring@, j as int));
            }
            return true;
        }
        j = j + 1;
    }
    false
}

/// Whether a part of the line touches the polygon.
pub fn line_in_polygon(line: &Vec<Point>, ring: &[Point]) -> (out: bool)
    ensures
        out == line_touches(line@, ring@),
{
    let mut i: usize = 0;
    while i < line.len()
        invariant
            i <= line@.len(),
            forall|k: int| 0 <= k < i ==> !#[trigger] touches_from(line@, ring@, k),
        decreases line@.len() - i,
    {
        if point_in_polygon(line[i], ring) || (i + 1 < line.len() && crosses_ring(
            line[i],
            line[i + 1],
            ring,
        )) {
            proof {
                assert(touches_from(line@, ring@, i as int));
            }
            return true;
        }
        i = i + 1;
    }
    false
}

/// Whether a part of the way touches the polygon.
pub fn way_in_polygon(parent: &Osm, w: usize, ring: &[Point]) -> (out: bool)
    requires
        parent.wf(),
        w < parent.ways.len(),
    ensures
        out == line_touches(way_points(parent, w as int), ring@),
{
    let line = points_of_way(parent, w);
    line_in_polygon(&line, ring)
}

} // verus!
