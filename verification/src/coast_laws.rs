//! How the coastline ways of an archive decide what is land.

use crate::coastline::{chain_winding, is_coastline, on_land, way_points, winding};
use crate::geometry::Point;
use crate::osm::{Osm, Way};
use crate::shape_laws::{
    a_closed_way_winds_as_its_fan_turns, a_cut_way_counts_the_same,
    a_reversed_way_counts_the_other_way, a_way_of_two_nodes_counts_as_its_edge, fan_turns, off_fan,
};
use vstd::prelude::*;

verus! {

/// The ways are coastline alike, and run through the same points.
pub open spec fn same_coast(a: &Osm, v: Way, b: &Osm, w: Way) -> bool {
    is_coastline(a, v) == is_coastline(b, w) && way_points(a, v) == way_points(b, w)
}

/// Each way of one list counts on its own: the count over two lists is the sum of
/// their counts.
pub proof fn ways_count_separately(parent: &Osm, a: Seq<Way>, b: Seq<Way>, p: Point)
    ensures
        winding(parent, a + b, p) == winding(parent, a, p) + winding(parent, b, p),
    decreases b.len(),
{
    if b.len() == 0 {
        assert(a + b =~= a);
    } else {
        ways_count_separately(parent, a, b.drop_last(), p);
        assert((a + b).drop_last() =~= a + b.drop_last());
        assert((a + b).last() == b.last());
    }
}

/// A way that is no coastline does not count.
pub proof fn other_ways_do_not_count(parent: &Osm, ways: Seq<Way>, p: Point)
    requires
        forall|i: int| 0 <= i < ways.len() ==> !is_coastline(parent, #[trigger] ways[i]),
    ensures
        winding(parent, ways, p) == 0,
    decreases ways.len(),
{
    if ways.len() > 0 {
        let front = ways.drop_last();
        assert forall|i: int| 0 <= i < front.len() implies !is_coastline(
            parent,
            #[trigger] front[i],
        ) by {
            assert(front[i] == ways[i]);
        }
        other_ways_do_not_count(parent, front, p);
        assert(!is_coastline(parent, ways[ways.len() - 1]));
    }
}

/// A coastline way counts as its edges do.
proof fn lemma_one_way(parent: &Osm, way: Way, p: Point)
    requires
        is_coastline(parent, way),
    ensures
        winding(parent, seq![way], p) == chain_winding(
            way_points(parent, way),
            p,
            way_points(parent, way).len() - 1,
        ),
{
    let one = seq![way];
    assert(one.drop_last().len() == 0);
    assert(winding(parent, one.drop_last(), p) == 0);
    assert(one.last() == way);
}

proof fn lemma_same_winding(a: &Osm, vs: Seq<Way>, b: &Osm, ws: Seq<Way>, p: Point)
    requires
        vs.len() == ws.len(),
        forall|i: int| 0 <= i < vs.len() ==> same_coast(a, #[trigger] vs[i], b, ws[i]),
    ensures
        winding(a, vs, p) == winding(b, ws, p),
    decreases vs.len(),
{
    if vs.len() > 0 {
        let (v, w) = (vs.drop_last(), ws.drop_last());
        assert forall|i: int| 0 <= i < v.len() implies same_coast(a, #[trigger] v[i], b, w[i]) by {
            assert(v[i] == vs[i] && w[i] == ws[i]);
        }
        lemma_same_winding(a, v, b, w, p);
        assert(same_coast(a, vs[vs.len() - 1], b, ws[ws.len() - 1]));
    }
}

proof fn lemma_around_way(parent: &Osm, ways: Seq<Way>, k: int, n: int, p: Point)
    requires
        0 <= k,
        0 <= n,
        k + n <= ways.len(),
    ensures
        winding(parent, ways, p) == winding(parent, ways.take(k), p) + winding(
            parent,
            ways.subrange(k, k + n),
            p,
        ) + winding(parent, ways.skip(k + n), p),
{
    ways_count_separately(parent, ways.take(k), ways.subrange(k, k + n), p);
    ways_count_separately(parent, ways.take(k + n), ways.skip(k + n), p);
    assert(ways.take(k) + ways.subrange(k, k + n) =~= ways.take(k + n));
    assert(ways.take(k + n) + ways.skip(k + n) =~= ways);
}

/// Cutting a coastline way at one of its nodes into two ways changes no point's
/// classification: `cut` has the ways of `whole`, but for way `k`, which it has as
/// the two ways up to and from node `i`.
pub proof fn cutting_a_way_moves_no_shore(whole: &Osm, cut: &Osm, k: int, i: int, p: Point)
    requires
        0 <= k < whole.ways@.len(),
        cut.ways@.len() == whole.ways@.len() + 1,
        0 <= i < way_points(whole, whole.ways@[k]).len(),
        is_coastline(whole, whole.ways@[k]),
        is_coastline(cut, cut.ways@[k]),
        is_coastline(cut, cut.ways@[k + 1]),
        way_points(cut, cut.ways@[k]) == way_points(whole, whole.ways@[k]).take(i + 1),
        way_points(cut, cut.ways@[k + 1]) == way_points(whole, whole.ways@[k]).skip(i),
        forall|j: int|
            0 <= j < k ==> same_coast(whole, #[trigger] whole.ways@[j], cut, cut.ways@[j]),
        forall|j: int|
            k < j < whole.ways@.len() ==> same_coast(
                whole,
                #[trigger] whole.ways@[j],
                cut,
                cut.ways@[j + 1],
            ),
    ensures
        winding(cut, cut.ways@, p) == winding(whole, whole.ways@, p),
        on_land(cut, p) == on_land(whole, p),
{
    let (vs, ws) = (whole.ways@, cut.ways@);
    lemma_around_way(whole, vs, k, 1, p);
    lemma_around_way(cut, ws, k, 2, p);
    assert forall|j: int| 0 <= j < k implies same_coast(
        whole,
        #[trigger] vs.take(k)[j],
        cut,
        ws.take(k)[j],
    ) by {
        assert(same_coast(whole, vs[j], cut, ws[j]));
    }
    lemma_same_winding(whole, vs.take(k), cut, ws.take(k), p);
    let (v, w) = (vs.skip(k + 1), ws.skip(k + 2));
    assert forall|j: int| 0 <= j < v.len() implies same_coast(whole, #[trigger] v[j], cut, w[j]) by {
        assert(same_coast(whole, vs[k + 1 + j], cut, ws[k + 2 + j]));
    }
    lemma_same_winding(whole, v, cut, w, p);
    assert(vs.subrange(k, k + 1) =~= seq![vs[k]]);
    assert(ws.subrange(k, k + 2) =~= seq![ws[k]] + seq![ws[k + 1]]);
    ways_count_separately(cut, seq![ws[k]], seq![ws[k + 1]], p);
    lemma_one_way(whole, vs[k], p);
    lemma_one_way(cut, ws[k], p);
    lemma_one_way(cut, ws[k + 1], p);
    a_cut_way_counts_the_same(way_points(whole, vs[k]), p, i);
}

proof fn lemma_only_way(parent: &Osm, k: int, p: Point)
    requires
        0 <= k < parent.ways@.len(),
        forall|j: int|
            0 <= j < parent.ways@.len() ==> is_coastline(parent, #[trigger] parent.ways@[j]) == (j
                == k),
    ensures
        winding(parent, parent.ways@, p) == chain_winding(
            way_points(parent, parent.ways@[k]),
            p,
            way_points(parent, parent.ways@[k]).len() - 1,
        ),
{
    let ways = parent.ways@;
    lemma_around_way(parent, ways, k, 1, p);
    assert(ways.subrange(k, k + 1) =~= seq![ways[k]]);
    assert(is_coastline(parent, ways[k]));
    lemma_one_way(parent, ways[k], p);
    assert forall|i: int| 0 <= i < k implies !is_coastline(parent, #[trigger] ways.take(k)[i]) by {
        assert(ways.take(k)[i] == ways[i]);
    }
    other_ways_do_not_count(parent, ways.take(k), p);
    let after = ways.skip(k + 1);
    assert forall|i: int| 0 <= i < after.len() implies !is_coastline(
        parent,
        #[trigger] after[i],
    ) by {
        assert(after[i] == ways[k + 1 + i]);
    }
    other_ways_do_not_count(parent, after, p);
}

/// Where the only coastline is a way of two nodes, land is what lies due west of it
/// where it runs north, between the latitudes of its ends; where it runs south
/// there is none.
pub proof fn land_lies_left_of_a_single_edge(parent: &Osm, k: int, a: Point, b: Point, p: Point)
    requires
        0 <= k < parent.ways@.len(),
        forall|j: int|
            0 <= j < parent.ways@.len() ==> is_coastline(parent, #[trigger] parent.ways@[j]) == (j
                == k),
        way_points(parent, parent.ways@[k]) == seq![a, b],
    ensures
        on_land(parent, p) <==> a.lat <= p.lat < b.lat && (b.lon - a.lon) * (p.lat - a.lat) - (p.lon
            - a.lon) * (b.lat - a.lat) > 0,
{
    lemma_only_way(parent, k, p);
    a_way_of_two_nodes_counts_as_its_edge(a, b, p);
}

/// Where the only coastline is a closed way, land is what the triangles of its fan
/// surround more often counter-clockwise than clockwise.
pub proof fn an_island_is_what_its_coastline_turns_around(
    parent: &Osm,
    k: int,
    ring: Seq<Point>,
    p: Point,
)
    requires
        0 <= k < parent.ways@.len(),
        forall|j: int|
            0 <= j < parent.ways@.len() ==> is_coastline(parent, #[trigger] parent.ways@[j]) == (j
                == k),
        ring.len() >= 3,
        way_points(parent, parent.ways@[k]) == ring.push(ring[0]),
        off_fan(p, ring, ring.len() as int),
    ensures
        on_land(parent, p) <==> fan_turns(p, ring) > 0,
{
    lemma_only_way(parent, k, p);
    a_closed_way_winds_as_its_fan_turns(ring, p);
}

/// Reversing every coastline way negates every count: no point is on land both
/// before and after.
pub proof fn a_reversed_coast_counts_the_other_way(a: &Osm, b: &Osm, p: Point)
    requires
        a.ways@.len() == b.ways@.len(),
        forall|j: int|
            0 <= j < a.ways@.len() ==> is_coastline(a, #[trigger] a.ways@[j]) == is_coastline(
                b,
                b.ways@[j],
            ) && way_points(b, b.ways@[j]) == way_points(a, a.ways@[j]).reverse(),
    ensures
        winding(b, b.ways@, p) == -winding(a, a.ways@, p),
        !(on_land(a, p) && on_land(b, p)),
{
    lemma_reversed_coast(a, a.ways@, b, b.ways@, p);
}

proof fn lemma_reversed_coast(a: &Osm, vs: Seq<Way>, b: &Osm, ws: Seq<Way>, p: Point)
    requires
        vs.len() == ws.len(),
        forall|j: int|
            0 <= j < vs.len() ==> is_coastline(a, #[trigger] vs[j]) == is_coastline(b, ws[j])
                && way_points(b, ws[j]) == way_points(a, vs[j]).reverse(),
    ensures
        winding(b, ws, p) == -winding(a, vs, p),
    decreases vs.len(),
{
    if vs.len() > 0 {
        let (v, w) = (vs.drop_last(), ws.drop_last());
        assert forall|j: int| 0 <= j < v.len() implies is_coastline(a, #[trigger] v[j])
            == is_coastline(b, w[j]) && way_points(b, w[j]) == way_points(a, v[j]).reverse() by {
            assert(v[j] == vs[j] && w[j] == ws[j]);
        }
        lemma_reversed_coast(a, v, b, w, p);
        let n = vs.len() - 1;
        assert(is_coastline(a, vs[n]) == is_coastline(b, ws[n]));
        let chain = way_points(a, vs[n]);
        if chain.len() > 0 {
            a_reversed_way_counts_the_other_way(chain, p);
        } else {
            assert(chain_winding(chain, p, -1) == 0);
            assert(chain_winding(chain.reverse(), p, -1) == 0);
        }
    }
}

} // verus!
