//! What stitching and splitting rings do to the edges of the segments.

use crate::coastline::{chain_winding, shoelace};
use crate::geometry::Point;
use crate::multipolygon::positions;
use crate::rings::{
    all_nonempty, assembled, assembled_rings_close, body, closes, explicitly_closed, grow,
    has_edge, lemma_nearest, measured, near, nearest, oriented, simple, split, split_all,
    split_pieces_are_closed_and_simple, split_pieces_keep_to_the_ring, step, steps_at, visited,
    walk, Grown, Vertex, EXACT_EPS_M, RING_SNAP_TOLERANCE_M,
};
use crate::shape_laws::{
    lemma_area_sum, lemma_path_cut, lemma_spans_opposite, lemma_winding_sum, lemma_winds_opposite,
    path_sum, ring_sum, spans, winds,
};
use vstd::prelude::*;

verus! {

/// The segment with either end first.
pub open spec fn is_either_way(o: Seq<Vertex>, seg: Seq<Vertex>) -> bool {
    o == seg || o == seg.reverse()
}

/// No segment of the list has an end nearer to `v` than `d`.
pub open spec fn none_nearer<F: Fn(Vertex, Vertex) -> u64>(
    dist: F,
    list: Seq<Seq<Vertex>>,
    v: Vertex,
    d: u64,
) -> bool {
    forall|j: int|
        0 <= j < list.len() ==> d <= measured(dist, (#[trigger] list[j]).first(), v) && d
            <= measured(dist, list[j].last(), v)
}

/// A ring is closed, rather than grown, exactly where its ends are identical, or
/// where it has been stitched, its ends are within the tolerance, and no segment
/// that is left has an end nearer to its open end.
pub proof fn a_ring_closes_where_its_start_is_nearest<F: Fn(Vertex, Vertex) -> u64>(
    dist: F,
    ring: Seq<Vertex>,
    rest: Seq<Seq<Vertex>>,
    stitched: bool,
)
    ensures
        ({
            let gap = measured(dist, ring.first(), ring.last());
            closes(dist, ring, rest, stitched) <==> ring.len() > 1 && (gap < EXACT_EPS_M || (
            stitched && gap < RING_SNAP_TOLERANCE_M && none_nearer(dist, rest, ring.last(), gap)))
        }),
{
    let gap = measured(dist, ring.first(), ring.last());
    let end = ring.last();
    lemma_nearest(dist, rest, end, rest.len() as int);
    match nearest(dist, rest, end, rest.len() as int) {
        None => {
            if gap < RING_SNAP_TOLERANCE_M {
                assert forall|j: int| 0 <= j < rest.len() implies gap <= measured(
                    dist,
                    (#[trigger] rest[j]).first(),
                    end,
                ) && gap <= measured(dist, rest[j].last(), end) by {
                    assert(near(dist, rest[j], end) >= RING_SNAP_TOLERANCE_M);
                }
            }
        },
        Some(i) => {
            if gap <= near(dist, rest[i], end) {
                assert forall|j: int| 0 <= j < rest.len() implies gap <= measured(
                    dist,
                    (#[trigger] rest[j]).first(),
                    end,
                ) && gap <= measured(dist, rest[j].last(), end) by {
                    assert(near(dist, rest[i], end) <= near(dist, rest[j], end));
                }
            } else {
                assert(rest[i] == rest[i]);
            }
        },
    }
}

/// One stitch: segment `i` goes on, as `o`, where its first end is within the
/// tolerance of the open end and no end of any segment is nearer; of segments that
/// are equally near the earliest, and of two ends that are equally near the first.
pub open spec fn is_stitch<F: Fn(Vertex, Vertex) -> u64>(
    dist: F,
    end: Vertex,
    rest: Seq<Seq<Vertex>>,
    i: int,
    o: Seq<Vertex>,
) -> bool {
    let d = measured(dist, o.first(), end);
    &&& 0 <= i < rest.len()
    &&& is_either_way(o, rest[i])
    &&& d < RING_SNAP_TOLERANCE_M
    &&& none_nearer(dist, rest, end, d)
    &&& forall|j: int|
        0 <= j < i ==> d < measured(dist, (#[trigger] rest[j]).first(), end) && d < measured(
            dist,
            rest[j].last(),
            end,
        )
    &&& measured(dist, rest[i].first(), end) == d ==> o == rest[i]
}

proof fn lemma_first_nearest<F: Fn(Vertex, Vertex) -> u64>(
    dist: F,
    rest: Seq<Seq<Vertex>>,
    end: Vertex,
    n: int,
    j: int,
)
    requires
        0 <= n <= rest.len(),
        nearest(dist, rest, end, n) is Some,
        0 <= j < nearest(dist, rest, end, n)->0,
    ensures
        near(dist, rest[nearest(dist, rest, end, n)->0], end) < near(dist, rest[j], end),
    decreases n,
{
    lemma_nearest(dist, rest, end, n);
    lemma_nearest(dist, rest, end, n - 1);
    match nearest(dist, rest, end, n - 1) {
        None => {
            assert(near(dist, rest[j], end) >= RING_SNAP_TOLERANCE_M);
        },
        Some(i) => {
            if nearest(dist, rest, end, n)->0 == i {
                lemma_first_nearest(dist, rest, end, n - 1, j);
            } else {
                assert(near(dist, rest[i], end) <= near(dist, rest[j], end));
            }
        },
    }
}

proof fn lemma_stitch<F: Fn(Vertex, Vertex) -> u64>(
    dist: F,
    end: Vertex,
    rest: Seq<Seq<Vertex>>,
    i: int,
)
    requires
        all_nonempty(rest),
        nearest(dist, rest, end, rest.len() as int) == Some(i),
    ensures
        is_stitch(dist, end, rest, i, oriented(dist, rest[i], end)),
{
    lemma_nearest(dist, rest, end, rest.len() as int);
    let o = oriented(dist, rest[i], end);
    let d = measured(dist, o.first(), end);
    assert(rest[i].len() > 0);
    assert(d == near(dist, rest[i], end));
    assert forall|j: int| 0 <= j < rest.len() implies d <= measured(
        dist,
        (#[trigger] rest[j]).first(),
        end,
    ) && d <= measured(dist, rest[j].last(), end) by {
        assert(near(dist, rest[i], end) <= near(dist, rest[j], end));
    }
    assert forall|j: int| 0 <= j < i implies d < measured(dist, (#[trigger] rest[j]).first(), end)
        && d < measured(dist, rest[j].last(), end) by {
        lemma_first_nearest(dist, rest, end, rest.len() as int, j);
    }
}

/// A ring that does not close is grown by the segment with the nearest end, which
/// goes on at that end, less the vertex there; where no end is within the tolerance
/// it is left open.
pub proof fn growing_goes_on_at_the_nearest_end<F: Fn(Vertex, Vertex) -> u64>(
    dist: F,
    ring: Seq<Vertex>,
    rest: Seq<Seq<Vertex>>,
    stitched: bool,
)
    requires
        all_nonempty(rest),
        !closes(dist, ring, rest, stitched),
    ensures
        grow(dist, ring, rest, stitched) == (Grown { closed: false, ring, rest }) && none_nearer(
            dist,
            rest,
            ring.last(),
            RING_SNAP_TOLERANCE_M,
        ) || exists|i: int, o: Seq<Vertex>| #[trigger]
            is_stitch(dist, ring.last(), rest, i, o) && grow(dist, ring, rest, stitched) == grow(
                dist,
                ring + o.skip(1),
                rest.remove(i),
                true,
            ),
{
    let end = ring.last();
    lemma_nearest(dist, rest, end, rest.len() as int);
    match nearest(dist, rest, end, rest.len() as int) {
        None => {
            assert forall|j: int| 0 <= j < rest.len() implies RING_SNAP_TOLERANCE_M <= measured(
                dist,
                (#[trigger] rest[j]).first(),
                end,
            ) && RING_SNAP_TOLERANCE_M <= measured(dist, rest[j].last(), end) by {
                assert(near(dist, rest[j], end) >= RING_SNAP_TOLERANCE_M);
            }
        },
        Some(i) => {
            lemma_stitch(dist, end, rest, i);
        },
    }
}

/// The vertices are neighbours in the segment, in one direction or the other, at
/// place `i`.
pub open spec fn neighbours_at(seg: Seq<Vertex>, i: int, x: Vertex, y: Vertex) -> bool {
    0 <= i < seg.len() - 1 && ((seg[i] == x && seg[i + 1] == y) || (seg[i] == y && seg[i + 1]
        == x))
}

/// The segment has an edge between the vertices, in one direction or the other.
pub open spec fn joins(seg: Seq<Vertex>, x: Vertex, y: Vertex) -> bool {
    exists|i: int| #[trigger] neighbours_at(seg, i, x, y)
}

/// `e` is the end of the segment that is nearer to `x`, within the tolerance, and
/// `y` is the vertex next to it.
pub open spec fn snaps<F: Fn(Vertex, Vertex) -> u64>(
    dist: F,
    seg: Seq<Vertex>,
    x: Vertex,
    e: Vertex,
    y: Vertex,
) -> bool {
    &&& seg.len() >= 2
    &&& (e == seg.first() && y == seg[1]) || (e == seg.last() && y == seg[seg.len() - 2])
    &&& measured(dist, e, x) < RING_SNAP_TOLERANCE_M
    &&& measured(dist, e, x) <= measured(dist, seg.first(), x)
    &&& measured(dist, e, x) <= measured(dist, seg.last(), x)
}

/// The vertex is an end of segment `i`.
pub open spec fn ends_at(segments: Seq<Seq<Vertex>>, i: int, v: Vertex) -> bool {
    0 <= i < segments.len() && (v == segments[i].first() || v == segments[i].last())
}

/// The vertex is an end of one of the segments.
pub open spec fn is_end(segments: Seq<Seq<Vertex>>, v: Vertex) -> bool {
    exists|i: int| #[trigger] ends_at(segments, i, v)
}

/// The vertices follow each other in segment `i`, or across a seam: `x` is an end
/// of one segment, and `y` is next to the end of segment `i` that is nearer to `x`.
pub open spec fn linked_at<F: Fn(Vertex, Vertex) -> u64>(
    dist: F,
    segments: Seq<Seq<Vertex>>,
    i: int,
    x: Vertex,
    y: Vertex,
) -> bool {
    0 <= i < segments.len() && (joins(segments[i], x, y) || (is_end(segments, x) && exists|
        e: Vertex,
    | #[trigger]
        snaps(dist, segments[i], x, e, y)))
}

/// The vertices follow each other in one of the segments, or across a seam.
pub open spec fn linked<F: Fn(Vertex, Vertex) -> u64>(
    dist: F,
    segments: Seq<Seq<Vertex>>,
    x: Vertex,
    y: Vertex,
) -> bool {
    exists|i: int| #[trigger] linked_at(dist, segments, i, x, y)
}

/// Every two vertices that follow each other in the list are linked, and the list
/// runs from end to end of segments.
pub open spec fn runs_along<F: Fn(Vertex, Vertex) -> u64>(
    dist: F,
    segments: Seq<Seq<Vertex>>,
    list: Seq<Vertex>,
) -> bool {
    &&& list.len() > 0
    &&& is_end(segments, list.first())
    &&& is_end(segments, list.last())
    &&& forall|k: int|
        0 <= k < list.len() - 1 ==> linked(dist, segments, #[trigger] list[k], list[k + 1])
}

/// Every list of `part` is one of `segments`.
pub open spec fn drawn_from(part: Seq<Seq<Vertex>>, segments: Seq<Seq<Vertex>>) -> bool {
    forall|j: int| 0 <= j < part.len() ==> segments.contains(#[trigger] part[j])
}

proof fn lemma_segment_runs<F: Fn(Vertex, Vertex) -> u64>(
    dist: F,
    segments: Seq<Seq<Vertex>>,
    seg: Seq<Vertex>,
)
    requires
        segments.contains(seg),
        seg.len() > 0,
    ensures
        runs_along(dist, segments, seg),
{
    let i = choose|i: int| 0 <= i < segments.len() && segments[i] == seg;
    assert(ends_at(segments, i, seg.first()));
    assert(ends_at(segments, i, seg.last()));
    assert forall|k: int| 0 <= k < seg.len() - 1 implies linked(
        dist,
        segments,
        #[trigger] seg[k],
        seg[k + 1],
    ) by {
        assert(neighbours_at(seg, k, seg[k], seg[k + 1]));
        assert(linked_at(dist, segments, i, seg[k], seg[k + 1]));
    }
}

/// A stitch keeps a list running along the segments.
proof fn lemma_stitch_runs<F: Fn(Vertex, Vertex) -> u64>(
    dist: F,
    segments: Seq<Seq<Vertex>>,
    ring: Seq<Vertex>,
    seg: Seq<Vertex>,
    o: Seq<Vertex>,
)
    requires
        runs_along(dist, segments, ring),
        segments.contains(seg),
        seg.len() > 0,
        is_either_way(o, seg),
        measured(dist, o.first(), ring.last()) < RING_SNAP_TOLERANCE_M,
        measured(dist, o.first(), ring.last()) <= measured(dist, seg.first(), ring.last()),
        measured(dist, o.first(), ring.last()) <= measured(dist, seg.last(), ring.last()),
    ensures
        runs_along(dist, segments, ring + o.skip(1)),
{
    let i = choose|i: int| 0 <= i < segments.len() && segments[i] == seg;
    let next = ring + o.skip(1);
    let n = ring.len() as int;
    if o.len() > 1 {
        assert(next.last() == o.last());
        assert(o.last() == seg.last() || o.last() == seg.first());
        assert(ends_at(segments, i, o.last()));
    } else {
        assert(next =~= ring);
    }
    assert(next.first() == ring.first());
    assert forall|k: int| 0 <= k < next.len() - 1 implies linked(
        dist,
        segments,
        #[trigger] next[k],
        next[k + 1],
    ) by {
        if k < n - 1 {
            assert(next[k] == ring[k] && next[k + 1] == ring[k + 1]);
        } else if k == n - 1 {
            let x = ring.last();
            assert(next[k] == x && next[k + 1] == o[1]);
            assert(snaps(dist, seg, x, o.first(), o[1]));
            assert(linked_at(dist, segments, i, x, o[1]));
        } else {
            let m = k - n + 1;
            assert(next[k] == o[m] && next[k + 1] == o[m + 1]);
            if o == seg {
                assert(neighbours_at(seg, m, o[m], o[m + 1]));
            } else {
                let at = seg.len() - 2 - m;
                assert(o[m] == seg[at + 1] && o[m + 1] == seg[at]);
                assert(neighbours_at(seg, at, o[m], o[m + 1]));
            }
            assert(linked_at(dist, segments, i, o[m], o[m + 1]));
        }
    }
}

proof fn lemma_grow_runs<F: Fn(Vertex, Vertex) -> u64>(
    dist: F,
    segments: Seq<Seq<Vertex>>,
    ring: Seq<Vertex>,
    rest: Seq<Seq<Vertex>>,
    stitched: bool,
)
    requires
        all_nonempty(rest),
        drawn_from(rest, segments),
        runs_along(dist, segments, ring),
    ensures
        ({
            let g = grow(dist, ring, rest, stitched);
            &&& runs_along(dist, segments, g.ring)
            &&& drawn_from(g.rest, rest)
            &&& drawn_from(g.rest, segments)
            &&& all_nonempty(g.rest)
            &&& g.rest.len() <= rest.len()
            &&& !g.closed ==> none_nearer(dist, g.rest, g.ring.last(), RING_SNAP_TOLERANCE_M)
        }),
    decreases rest.len(),
{
    let end = ring.last();
    if closes(dist, ring, rest, stitched) {
    } else {
        lemma_nearest(dist, rest, end, rest.len() as int);
        match nearest(dist, rest, end, rest.len() as int) {
            None => {
                assert forall|j: int| 0 <= j < rest.len() implies RING_SNAP_TOLERANCE_M
                    <= measured(dist, (#[trigger] rest[j]).first(), end) && RING_SNAP_TOLERANCE_M
                    <= measured(dist, rest[j].last(), end) by {
                    assert(near(dist, rest[j], end) >= RING_SNAP_TOLERANCE_M);
                }
            },
            Some(i) => {
                lemma_stitch(dist, end, rest, i);
                let o = oriented(dist, rest[i], end);
                let next = rest.remove(i);
                assert(segments.contains(rest[i]));
                lemma_stitch_runs(dist, segments, ring, rest[i], o);
                assert forall|j: int| 0 <= j < next.len() implies #[trigger] next[j].len() > 0
                    && segments.contains(next[j]) && rest.contains(next[j]) by {
                    let at = if j < i {
                        j
                    } else {
                        j + 1
                    };
                    assert(next[j] == rest[at]);
                }
                lemma_grow_runs(dist, segments, ring + o.skip(1), next, true);
                let g = grow(dist, ring + o.skip(1), next, true);
                assert forall|j: int| 0 <= j < g.rest.len() implies rest.contains(
                    #[trigger] g.rest[j],
                ) by {
                    assert(next.contains(g.rest[j]));
                    let m = choose|m: int| 0 <= m < next.len() && next[m] == g.rest[j];
                    assert(rest.contains(next[m]));
                }
            },
        }
    }
}

/// Every list runs along the segments.
pub open spec fn all_run_along<F: Fn(Vertex, Vertex) -> u64>(
    dist: F,
    segments: Seq<Seq<Vertex>>,
    lists: Seq<Seq<Vertex>>,
) -> bool {
    forall|k: int| 0 <= k < lists.len() ==> runs_along(dist, segments, #[trigger] lists[k])
}

proof fn lemma_assembled_runs<F: Fn(Vertex, Vertex) -> u64>(
    dist: F,
    segments: Seq<Seq<Vertex>>,
    part: Seq<Seq<Vertex>>,
)
    requires
        all_nonempty(part),
        drawn_from(part, segments),
    ensures
        all_run_along(dist, segments, assembled(dist, part).0),
        all_run_along(dist, segments, assembled(dist, part).1),
    decreases part.len(),
{
    if part.len() > 0 {
        let (start, rest) = (part.last(), part.drop_last());
        assert(part[part.len() - 1] == start);
        assert forall|j: int| 0 <= j < rest.len() implies #[trigger] rest[j].len() > 0
            && segments.contains(rest[j]) by {
            assert(rest[j] == part[j]);
        }
        lemma_segment_runs(dist, segments, start);
        lemma_grow_runs(dist, segments, start, rest, false);
        let g = grow(dist, start, rest, false);
        lemma_assembled_runs(dist, segments, g.rest);
        let (rings, open) = assembled(dist, g.rest);
        assert forall|k: int| 0 <= k < rings.len() + 1 implies runs_along(
            dist,
            segments,
            #[trigger] (seq![g.ring] + rings)[k],
        ) by {
            if k > 0 {
                assert((seq![g.ring] + rings)[k] == rings[k - 1]);
            }
        }
        assert forall|k: int| 0 <= k < open.len() + 1 implies runs_along(
            dist,
            segments,
            #[trigger] (seq![g.ring] + open)[k],
        ) by {
            if k > 0 {
                assert((seq![g.ring] + open)[k] == open[k - 1]);
            }
        }
    }
}

/// Every assembled ring and every open chain runs along the segments: each two
/// vertices that follow each other are neighbours in one of the segments, or are
/// joined across a seam at the end of a segment that is nearer, within the
/// tolerance.
pub proof fn assembly_runs_along_the_segments<F: Fn(Vertex, Vertex) -> u64>(
    dist: F,
    segments: Seq<Seq<Vertex>>,
)
    requires
        all_nonempty(segments),
    ensures
        all_run_along(dist, segments, assembled(dist, segments).0),
        all_run_along(dist, segments, assembled(dist, segments).1),
{
    assert forall|j: int| 0 <= j < segments.len() implies segments.contains(
        #[trigger] segments[j],
    ) by {
    }
    lemma_assembled_runs(dist, segments, segments);
}

/// Ends within the tolerance of each other are the same node.
pub open spec fn shares_end_nodes<F: Fn(Vertex, Vertex) -> u64>(
    dist: F,
    segments: Seq<Seq<Vertex>>,
) -> bool {
    forall|a: Vertex, b: Vertex|
        is_end(segments, a) && is_end(segments, b) && #[trigger] measured(dist, a, b)
            < RING_SNAP_TOLERANCE_M ==> a.node_idx == b.node_idx
}

/// Segment `i` has an edge between the nodes, in one direction or the other.
pub open spec fn edge_at(segments: Seq<Seq<Vertex>>, i: int, a: u64, b: u64) -> bool {
    0 <= i < segments.len() && (has_edge(segments[i], a, b) || has_edge(segments[i], b, a))
}

/// One of the segments has an edge between the nodes, in one direction or the
/// other.
pub open spec fn is_edge(segments: Seq<Seq<Vertex>>, a: u64, b: u64) -> bool {
    exists|i: int| #[trigger] edge_at(segments, i, a, b)
}

/// Every edge of the list is an edge of a segment, in one direction or the other.
pub open spec fn keeps_to_edges(segments: Seq<Seq<Vertex>>, list: Seq<Vertex>) -> bool {
    forall|a: u64, b: u64| #[trigger] has_edge(list, a, b) ==> is_edge(segments, a, b)
}

/// Every edge of every list is an edge of a segment, in one direction or the other.
pub open spec fn all_keep_to_edges(segments: Seq<Seq<Vertex>>, lists: Seq<Seq<Vertex>>) -> bool {
    forall|k: int| 0 <= k < lists.len() ==> keeps_to_edges(segments, #[trigger] lists[k])
}

proof fn lemma_linked_edge<F: Fn(Vertex, Vertex) -> u64>(
    dist: F,
    segments: Seq<Seq<Vertex>>,
    x: Vertex,
    y: Vertex,
)
    requires
        shares_end_nodes(dist, segments),
        linked(dist, segments, x, y),
    ensures
        is_edge(segments, x.node_idx, y.node_idx),
{
    let (a, b) = (x.node_idx, y.node_idx);
    let i = choose|i: int| #[trigger] linked_at(dist, segments, i, x, y);
    let seg = segments[i];
    let n = seg.len() as int;
    if joins(seg, x, y) {
        let k = choose|k: int| #[trigger] neighbours_at(seg, k, x, y);
        assert(steps_at(seg, k, a, b) || steps_at(seg, k, b, a));
    } else {
        let e = choose|e: Vertex| #[trigger] snaps(dist, seg, x, e, y);
        assert(ends_at(segments, i, e));
        assert(measured(dist, e, x) < RING_SNAP_TOLERANCE_M);
        assert(e.node_idx == a);
        assert(steps_at(seg, 0, a, b) || steps_at(seg, n - 2, b, a));
    }
    assert(edge_at(segments, i, a, b));
}

proof fn lemma_runs_edges<F: Fn(Vertex, Vertex) -> u64>(
    dist: F,
    segments: Seq<Seq<Vertex>>,
    list: Seq<Vertex>,
)
    requires
        shares_end_nodes(dist, segments),
        runs_along(dist, segments, list),
    ensures
        keeps_to_edges(segments, list),
{
    assert forall|a: u64, b: u64| #[trigger] has_edge(list, a, b) implies is_edge(
        segments,
        a,
        b,
    ) by {
        let k = choose|k: int| #[trigger] steps_at(list, k, a, b);
        assert(linked(dist, segments, list[k], list[k + 1]));
        lemma_linked_edge(dist, segments, list[k], list[k + 1]);
    }
}

proof fn lemma_split_edges(segments: Seq<Seq<Vertex>>, rings: Seq<Seq<Vertex>>)
    requires
        all_keep_to_edges(segments, rings),
        forall|k: int| 0 <= k < rings.len() ==> explicitly_closed(#[trigger] rings[k]),
    ensures
        all_keep_to_edges(segments, split_all(rings)),
    decreases rings.len(),
{
    if rings.len() > 0 {
        let front = rings.drop_last();
        assert forall|k: int| 0 <= k < front.len() implies explicitly_closed(#[trigger] front[k])
            && keeps_to_edges(segments, front[k]) by {
            assert(front[k] == rings[k]);
        }
        lemma_split_edges(segments, front);
        let ring = rings.last();
        assert(ring == rings[rings.len() - 1]);
        let (a, b) = (split_all(front), split(ring));
        assert forall|k: int| 0 <= k < (a + b).len() implies keeps_to_edges(
            segments,
            #[trigger] (a + b)[k],
        ) by {
            if k >= a.len() {
                let m = k - a.len();
                assert((a + b)[k] == b[m]);
                split_pieces_keep_to_the_ring(ring, m);
            } else {
                assert((a + b)[k] == a[k]);
            }
        }
    }
}

proof fn lemma_rings_close<F: Fn(Vertex, Vertex) -> u64>(
    dist: F,
    segments: Seq<Seq<Vertex>>,
    k: int,
)
    requires
        all_nonempty(segments),
        shares_end_nodes(dist, segments),
        0 <= k < assembled(dist, segments).0.len(),
    ensures
        explicitly_closed(assembled(dist, segments).0[k]),
{
    assembled_rings_close(dist, segments, k);
    assembly_runs_along_the_segments(dist, segments);
    let ring = assembled(dist, segments).0[k];
    assert(runs_along(dist, segments, ring));
}

/// Where segments share their end nodes, assembly makes up no edge: every edge of
/// an assembled ring, of a piece that it splits into and of an open chain is an
/// edge of one of the segments, in one direction or the other, and every ring ends
/// with the node that it starts with.
pub proof fn assembly_makes_up_no_edge<F: Fn(Vertex, Vertex) -> u64>(
    dist: F,
    segments: Seq<Seq<Vertex>>,
)
    requires
        all_nonempty(segments),
        shares_end_nodes(dist, segments),
    ensures
        all_keep_to_edges(segments, assembled(dist, segments).0),
        all_keep_to_edges(segments, assembled(dist, segments).1),
        all_keep_to_edges(segments, split_all(assembled(dist, segments).0)),
        forall|k: int|
            0 <= k < assembled(dist, segments).0.len() ==> explicitly_closed(
                #[trigger] assembled(dist, segments).0[k],
            ),
{
    assembly_runs_along_the_segments(dist, segments);
    let (rings, open) = assembled(dist, segments);
    assert forall|k: int| 0 <= k < rings.len() implies keeps_to_edges(
        segments,
        #[trigger] rings[k],
    ) && explicitly_closed(rings[k]) by {
        lemma_runs_edges(dist, segments, rings[k]);
        lemma_rings_close(dist, segments, k);
    }
    assert forall|k: int| 0 <= k < open.len() implies keeps_to_edges(
        segments,
        #[trigger] open[k],
    ) by {
        lemma_runs_edges(dist, segments, open[k]);
    }
    lemma_split_edges(segments, rings);
}

/// A chain is left open only where nothing goes on from it: of two chains, neither
/// end of the later one is within the tolerance of the last vertex of the earlier.
pub proof fn an_open_chain_cannot_go_on<F: Fn(Vertex, Vertex) -> u64>(
    dist: F,
    segments: Seq<Seq<Vertex>>,
    k: int,
    m: int,
)
    requires
        all_nonempty(segments),
        0 <= k < m < assembled(dist, segments).1.len(),
    ensures
        ({
            let open = assembled(dist, segments).1;
            &&& measured(dist, open[m].first(), open[k].last()) >= RING_SNAP_TOLERANCE_M
            &&& measured(dist, open[m].last(), open[k].last()) >= RING_SNAP_TOLERANCE_M
        }),
    decreases segments.len(),
{
    let (start, rest) = (segments.last(), segments.drop_last());
    assert(segments[segments.len() - 1] == start);
    assert forall|j: int| 0 <= j < rest.len() implies #[trigger] rest[j].len() > 0
        && segments.contains(rest[j]) by {
        assert(rest[j] == segments[j]);
    }
    lemma_segment_runs(dist, segments, start);
    lemma_grow_runs(dist, segments, start, rest, false);
    let g = grow(dist, start, rest, false);
    let (rings, open) = assembled(dist, g.rest);
    if g.closed {
        an_open_chain_cannot_go_on(dist, g.rest, k, m);
    } else {
        let all = seq![g.ring] + open;
        assert(all[m] == open[m - 1]);
        if k > 0 {
            assert(all[k] == open[k - 1]);
            an_open_chain_cannot_go_on(dist, g.rest, k - 1, m - 1);
        } else {
            assembly_runs_along_the_segments(dist, g.rest);
            let later = open[m - 1];
            assert(runs_along(dist, g.rest, later));
            let i = choose|i: int| #[trigger] ends_at(g.rest, i, later.first());
            let j = choose|j: int| #[trigger] ends_at(g.rest, j, later.last());
            assert(g.rest[i] == g.rest[i] && g.rest[j] == g.rest[j]);
        }
    }
}

proof fn lemma_grow_keeps_start<F: Fn(Vertex, Vertex) -> u64>(
    dist: F,
    ring: Seq<Vertex>,
    rest: Seq<Seq<Vertex>>,
    stitched: bool,
)
    ensures
        ring.is_prefix_of(grow(dist, ring, rest, stitched).ring),
    decreases rest.len(),
{
    if !closes(dist, ring, rest, stitched) {
        match nearest(dist, rest, ring.last(), rest.len() as int) {
            Some(i) => {
                if 0 <= i < rest.len() {
                    let next = ring + oriented(dist, rest[i], ring.last()).skip(1);
                    lemma_grow_keeps_start(dist, next, rest.remove(i), true);
                    let g = grow(dist, next, rest.remove(i), true);
                    assert(ring =~= next.subrange(0, ring.len() as int));
                    assert(ring =~= g.ring.subrange(0, ring.len() as int));
                }
            },
            None => {},
        }
    }
}

/// Assembly starts with the last segment: it is the start, as it was given, of the
/// first ring or of the first open chain.
pub proof fn assembly_starts_with_the_last_segment<F: Fn(Vertex, Vertex) -> u64>(
    dist: F,
    segments: Seq<Seq<Vertex>>,
)
    requires
        segments.len() > 0,
    ensures
        ({
            let (rings, open) = assembled(dist, segments);
            ||| rings.len() > 0 && segments.last().is_prefix_of(rings[0])
            ||| open.len() > 0 && segments.last().is_prefix_of(open[0])
        }),
{
    let rest = segments.drop_last();
    lemma_grow_keeps_start(dist, segments.last(), rest, false);
    let g = grow(dist, segments.last(), rest, false);
    let (rings, open) = assembled(dist, g.rest);
    assert((seq![g.ring] + rings)[0] == g.ring);
    assert((seq![g.ring] + open)[0] == g.ring);
}

/// Each node has one position.
pub open spec fn nodes_stay_put(ring: Seq<Vertex>) -> bool {
    forall|i: int, j: int|
        0 <= i < ring.len() && 0 <= j < ring.len() && (#[trigger] ring[i]).node_idx == (
        #[trigger] ring[j]).node_idx ==> ring[i].at() == ring[j].at()
}

/// What `f` gives for the edges of each ring, added up.
pub open spec fn rings_sum(f: spec_fn(Point, Point) -> int, rings: Seq<Seq<Vertex>>) -> int
    decreases rings.len(),
{
    if rings.len() == 0 {
        0
    } else {
        rings_sum(f, rings.drop_last()) + ring_sum(f, positions(rings.last()))
    }
}

proof fn lemma_rings_sum_push(
    f: spec_fn(Point, Point) -> int,
    rings: Seq<Seq<Vertex>>,
    ring: Seq<Vertex>,
)
    ensures
        rings_sum(f, rings.push(ring)) == rings_sum(f, rings) + ring_sum(f, positions(ring)),
{
    assert(rings.push(ring).drop_last() =~= rings);
}

proof fn lemma_path_push(f: spec_fn(Point, Point) -> int, s: Seq<Vertex>, v: Vertex)
    requires
        s.len() > 0,
    ensures
        path_sum(f, positions(s.push(v))) == path_sum(f, positions(s)) + f(s.last().at(), v.at()),
{
    assert(positions(s.push(v)).drop_last() =~= positions(s));
}

/// A loop of two edges or fewer adds nothing.
proof fn lemma_small_loop(f: spec_fn(Point, Point) -> int, s: Seq<Vertex>)
    requires
        0 < s.len() <= 2,
        forall|a: Point, b: Point| #[trigger] f(a, b) == -f(b, a),
    ensures
        path_sum(f, positions(s)) + f(s.last().at(), s[0].at()) == 0,
{
    let t = positions(s);
    let (a, b) = (s[0].at(), s.last().at());
    assert(f(a, b) == -f(b, a));
    if s.len() == 2 {
        assert(t.drop_last().len() == 1);
        assert(path_sum(f, t.drop_last()) == 0);
        assert(t[0] == a && t[1] == b);
    } else {
        assert(path_sum(f, t) == 0);
    }
}

/// A walk keeps the sum over the edges: what has left the path is in the loops.
proof fn lemma_walk_sum(f: spec_fn(Point, Point) -> int, around: Seq<Vertex>)
    requires
        around.len() > 0,
        nodes_stay_put(around),
        forall|a: Point, b: Point| #[trigger] f(a, b) == -f(b, a),
    ensures
        ({
            let w = walk(around);
            &&& w.path.len() > 0
            &&& w.path[0] == around[0]
            &&& w.path.last().at() == around.last().at()
            &&& forall|k: int| 0 <= k < w.path.len() ==> around.contains(#[trigger] w.path[k])
            &&& path_sum(f, positions(around)) == path_sum(f, positions(w.path)) + rings_sum(
                f,
                w.loops,
            )
        }),
    decreases around.len(),
{
    let (front, v) = (around.drop_last(), around.last());
    assert(around =~= front.push(v));
    assert(around[around.len() - 1] == v);
    if front.len() == 0 {
        let none = walk(front);
        assert(none.path.len() == 0);
        assert(!(exists|at: int| visited(none.path, v, at)));
        assert(walk(around).path =~= seq![v]);
        assert(around =~= seq![v]);
        assert(rings_sum(f, none.loops) == 0);
    } else {
        assert(nodes_stay_put(front)) by {
            assert forall|i: int, j: int|
                0 <= i < front.len() && 0 <= j < front.len() && (#[trigger] front[i]).node_idx == (
                #[trigger] front[j]).node_idx implies front[i].at() == front[j].at() by {
                assert(front[i] == around[i] && front[j] == around[j]);
            }
        }
        lemma_walk_sum(f, front);
        lemma_path_push(f, front, v);
        let w = walk(front);
        let next = step(w, v);
        assert(walk(around) == next);
        assert forall|k: int| 0 <= k < w.path.len() implies around.contains(
            #[trigger] w.path[k],
        ) by {
            let m = choose|m: int| 0 <= m < front.len() && front[m] == w.path[k];
            assert(around[m] == w.path[k]);
        }
        if exists|at: int| visited(w.path, v, at) {
            let at = choose|at: int| visited(w.path, v, at);
            let tail = w.path.skip(at);
            let found = tail.push(w.path[at]);
            assert(around.contains(w.path[at]));
            assert(w.path[at].at() == v.at()) by {
                let m = choose|m: int| 0 <= m < around.len() && around[m] == w.path[at];
                assert(around[m].node_idx == around[around.len() - 1].node_idx);
            }
            lemma_path_cut(f, positions(w.path), at);
            assert(positions(w.path).take(at + 1) =~= positions(next.path));
            assert(positions(w.path).skip(at) =~= positions(tail));
            lemma_path_push(f, tail, w.path[at]);
            assert(tail.last() == w.path.last());
            assert(tail[0] == w.path[at]);
            let here = w.path[at].at();
            assert(f(here, here) == -f(here, here));
            assert(positions(found).last() == here && positions(found)[0] == here);
            assert(ring_sum(f, positions(found)) == path_sum(f, positions(found)));
            if found.len() >= 4 {
                lemma_rings_sum_push(f, w.loops, found);
            } else {
                lemma_small_loop(f, tail);
            }
            assert(next.path[0] == w.path[0]);
            assert(next.path.last() == w.path[at]);
            assert forall|k: int| 0 <= k < next.path.len() implies around.contains(
                #[trigger] next.path[k],
            ) by {
                assert(next.path[k] == w.path[k]);
            }
        } else {
            lemma_path_push(f, w.path, v);
            assert forall|k: int| 0 <= k < next.path.len() implies around.contains(
                #[trigger] next.path[k],
            ) by {
                if k < w.path.len() {
                    assert(next.path[k] == w.path[k]);
                }
            }
        }
    }
}

proof fn lemma_split_sum(f: spec_fn(Point, Point) -> int, ring: Seq<Vertex>)
    requires
        ring.len() > 0,
        nodes_stay_put(ring),
        forall|a: Point, b: Point| #[trigger] f(a, b) == -f(b, a),
    ensures
        rings_sum(f, split(ring)) == ring_sum(f, positions(ring)),
{
    if simple(body(ring)) {
        assert(split(ring).drop_last().len() == 0);
        assert(rings_sum(f, split(ring).drop_last()) == 0);
    } else {
        let around = body(ring);
        assert(nodes_stay_put(around)) by {
            assert forall|i: int, j: int|
                0 <= i < around.len() && 0 <= j < around.len() && (#[trigger] around[i]).node_idx
                    == (#[trigger] around[j]).node_idx implies around[i].at() == around[j].at() by {
                assert(around[i] == ring[i] && around[j] == ring[j]);
            }
        }
        lemma_walk_sum(f, around);
        let w = walk(around);
        let (first, last) = (around[0].at(), around.last().at());
        assert(f(first, first) == -f(first, first));
        let closed = explicitly_closed(ring);
        if closed {
            assert(ring =~= around.push(ring.last()));
            assert(ring[0].node_idx == ring[ring.len() - 1].node_idx);
            lemma_path_push(f, around, ring.last());
            lemma_path_push(f, w.path, w.path[0]);
            let piece = w.path.push(w.path[0]);
            assert(positions(piece).last() == first && positions(piece)[0] == first);
            assert(positions(ring).last() == first && positions(ring)[0] == first);
        } else {
            assert(positions(ring).last() == last && positions(ring)[0] == first);
            assert(positions(w.path).last() == last && positions(w.path)[0] == first);
        }
        if w.path.len() >= 3 {
            lemma_rings_sum_push(
                f,
                w.loops,
                if closed {
                    w.path.push(w.path[0])
                } else {
                    w.path
                },
            );
        } else {
            lemma_small_loop(f, w.path);
        }
    }
}

/// Every piece that a ring splits into is among the pieces of all the rings.
pub proof fn every_piece_is_kept(rings: Seq<Seq<Vertex>>, r: int, k: int)
    requires
        0 <= r < rings.len(),
        0 <= k < split(rings[r]).len(),
    ensures
        split_all(rings).contains(split(rings[r])[k]),
    decreases rings.len(),
{
    let front = rings.drop_last();
    let (a, b) = (split_all(front), split(rings.last()));
    if r < front.len() {
        assert(front[r] == rings[r]);
        every_piece_is_kept(front, r, k);
        let i = choose|i: int| 0 <= i < a.len() && a[i] == split(rings[r])[k];
        assert((a + b)[i] == split(rings[r])[k]);
    } else {
        assert((a + b)[a.len() + k] == b[k]);
    }
}

/// The piece is the `k`th that ring `r` splits into.
pub open spec fn is_piece_of(rings: Seq<Seq<Vertex>>, r: int, k: int, piece: Seq<Vertex>) -> bool {
    0 <= r < rings.len() && 0 <= k < split(rings[r]).len() && split(rings[r])[k] == piece
}

/// Every piece of all the rings is one that some ring splits into.
pub proof fn every_piece_is_of_a_ring(rings: Seq<Seq<Vertex>>, i: int)
    requires
        0 <= i < split_all(rings).len(),
    ensures
        exists|r: int, k: int| #[trigger] is_piece_of(rings, r, k, split_all(rings)[i]),
    decreases rings.len(),
{
    let front = rings.drop_last();
    let (a, b) = (split_all(front), split(rings.last()));
    let piece = (a + b)[i];
    if i < a.len() {
        every_piece_is_of_a_ring(front, i);
        assert(piece == a[i]);
        let (r, k) = choose|r: int, k: int| #[trigger] is_piece_of(front, r, k, piece);
        assert(is_piece_of(rings, r, k, piece));
    } else {
        assert(is_piece_of(rings, rings.len() - 1, i - a.len(), piece));
    }
}

/// The signed areas of rings, added up.
pub open spec fn area_total(rings: Seq<Seq<Vertex>>) -> int
    decreases rings.len(),
{
    if rings.len() == 0 {
        0
    } else {
        area_total(rings.drop_last()) + shoelace(positions(rings.last()), rings.last().len() as int)
    }
}

proof fn lemma_area_total(rings: Seq<Seq<Vertex>>)
    ensures
        area_total(rings) == rings_sum(spans(), rings),
    decreases rings.len(),
{
    if rings.len() > 0 {
        lemma_area_total(rings.drop_last());
        if rings.last().len() > 0 {
            lemma_area_sum(positions(rings.last()));
        }
    }
}

/// Splitting a ring loses no area and adds none: the signed areas of the pieces add
/// up to that of the ring.
pub proof fn split_pieces_share_the_area(ring: Seq<Vertex>)
    requires
        ring.len() > 0,
        nodes_stay_put(ring),
    ensures
        area_total(split(ring)) == shoelace(positions(ring), ring.len() as int),
{
    lemma_spans_opposite();
    lemma_split_sum(spans(), ring);
    lemma_area_total(split(ring));
    lemma_area_sum(positions(ring));
}

/// How often closed rings wind around a point, added up.
pub open spec fn turns_total(rings: Seq<Seq<Vertex>>, p: Point) -> int
    decreases rings.len(),
{
    if rings.len() == 0 {
        0
    } else {
        let ring = positions(rings.last());
        turns_total(rings.drop_last(), p) + if ring.len() == 0 {
            0
        } else {
            chain_winding(ring.push(ring[0]), p, ring.len() as int)
        }
    }
}

proof fn lemma_ring_turns(ring: Seq<Point>, p: Point)
    requires
        ring.len() > 0,
    ensures
        chain_winding(ring.push(ring[0]), p, ring.len() as int) == ring_sum(winds(p), ring),
{
    let chain = ring.push(ring[0]);
    lemma_winding_sum(chain, p, ring.len() as int);
    assert(chain.take(chain.len() as int) =~= chain);
    assert(chain.drop_last() =~= ring);
}

proof fn lemma_turns_total(rings: Seq<Seq<Vertex>>, p: Point)
    ensures
        turns_total(rings, p) == rings_sum(winds(p), rings),
    decreases rings.len(),
{
    if rings.len() > 0 {
        lemma_turns_total(rings.drop_last(), p);
        if rings.last().len() > 0 {
            lemma_ring_turns(positions(rings.last()), p);
        }
    }
}

/// The pieces that a ring splits into wind around every point, together, as often
/// as the ring does.
pub proof fn split_pieces_wind_as_the_ring(ring: Seq<Vertex>, p: Point)
    requires
        ring.len() > 0,
        nodes_stay_put(ring),
    ensures
        turns_total(split(ring), p) == turns_total(seq![ring], p),
{
    lemma_winds_opposite(p);
    lemma_split_sum(winds(p), ring);
    lemma_turns_total(split(ring), p);
    lemma_turns_total(seq![ring], p);
    assert(seq![ring].drop_last().len() == 0);
    assert(rings_sum(winds(p), seq![ring].drop_last()) == 0);
}

/// Every piece of a closed ring encloses area: it has at least three nodes, and ends
/// with the one that it starts with.
pub proof fn split_pieces_have_three_nodes(ring: Seq<Vertex>, k: int)
    requires
        explicitly_closed(ring),
        !simple(body(ring)),
        0 <= k < split(ring).len(),
    ensures
        split(ring)[k].len() >= 4,
        split(ring)[k].first().node_idx == split(ring)[k].last().node_idx,
{
    let w = walk(body(ring));
    split_pieces_are_closed_and_simple(ring, k);
    lemma_loops_have_three_nodes(body(ring));
    if k < w.loops.len() {
        assert(split(ring)[k] == w.loops[k]);
    }
}

proof fn lemma_loops_have_three_nodes(around: Seq<Vertex>)
    ensures
        forall|k: int|
            0 <= k < walk(around).loops.len() ==> (#[trigger] walk(around).loops[k]).len() >= 4,
    decreases around.len(),
{
    if around.len() > 0 {
        lemma_loops_have_three_nodes(around.drop_last());
        let (w, next) = (walk(around.drop_last()), walk(around));
        assert forall|k: int| 0 <= k < next.loops.len() implies (#[trigger] next.loops[k]).len()
            >= 4 by {
            if k < w.loops.len() {
                assert(next.loops[k] == w.loops[k]);
            }
        }
    }
}

/// The tolerances, as IEEE doubles: the bits hold an exponent and a fraction of
/// 52 bits. The one for seams is 250 exactly, the one for identical ends is the
/// double next to a hundredth.
pub proof fn the_tolerances_are_in_metres()
    ensures
        RING_SNAP_TOLERANCE_M / 0x10_0000_0000_0000 == 1023 + 7,
        0x10_0000_0000_0000 + RING_SNAP_TOLERANCE_M % 0x10_0000_0000_0000 == 250
            * 0x2000_0000_0000,
        EXACT_EPS_M / 0x10_0000_0000_0000 == 1023 - 7,
        -50 <= 100 * (0x10_0000_0000_0000 + EXACT_EPS_M % 0x10_0000_0000_0000)
            - 0x800_0000_0000_0000 <= 50,
{
}

} // verus!
