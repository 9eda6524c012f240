//! Non-bounding-box spatial queries over ways and relations: any part touches.
//!
//! A way is the line of its nodes; a closed way is still a line, so it does not
//! match a shape that it merely encloses. A relation is its member nodes and
//! ways, through the relations that it contains.
//!
//! A relation is a candidate by its stored extent, so one whose extent does not
//! cover its members can be missed.

use crate::geometry::Point;
use crate::lines::{
    is_line_distance, line_touches, way_distance, way_in_polygon, way_points,
};
use crate::order::{chains, lemma_same_items, merge_sort, preorder, total};
use crate::osm::{Osm, Relation};
use crate::query::Bbox;
use crate::reach::{
    is_relation_distance, relation_distance, relation_has, relation_in_polygon, relation_touches,
};
use crate::spatial::{ring_bbox, square, PolygonFilter, RadiusFilter};
use crate::wide::{lemma_ratio_chain, Ratio, Wide};
use vstd::prelude::*;

verus! {

/// An entity and its squared distance from a center.
pub type Ranked = (Ratio, usize);

/// What each entity of a type is away from a center; `None` where it has no
/// place.
pub type Distances = Seq<Option<Ratio>>;

/// The distance is within the limit, where there is one.
pub open spec fn in_limit(d: Ratio, limit: Option<Ratio>) -> bool {
    match limit {
        Some(r) => d.at_most(r),
        None => true,
    }
}

/// `a` is nearer than `b`, or as near with a smaller index.
pub open spec fn ranked_before(a: Ranked, b: Ranked) -> bool {
    a.0.at_most(b.0) && (b.0.at_most(a.0) ==> a.1 < b.1)
}

/// Entity `i` is at that distance, within the limit.
pub open spec fn at_distance(dists: Distances, limit: Option<Ratio>, hit: Ranked) -> bool {
    hit.1 < dists.len() && dists[hit.1 as int] == Some(hit.0) && in_limit(hit.0, limit)
}

/// `hits` are the entities within the limit, nearest first, ties by index.
pub open spec fn is_ranked(dists: Distances, limit: Option<Ratio>, hits: Seq<Ranked>) -> bool {
    &&& forall|k: int| 0 <= k < hits.len() ==> at_distance(dists, limit, #[trigger] hits[k])
    &&& forall|hit: Ranked| #[trigger] at_distance(dists, limit, hit) ==> hits.contains(hit)
    &&& forall|a: int, b: int|
        0 <= a < b < hits.len() ==> ranked_before(#[trigger] hits[a], #[trigger] hits[b])
}

/// The indices of the hits.
pub open spec fn ranked_indices(hits: Seq<Ranked>) -> Seq<usize> {
    hits.map_values(|h: Ranked| h.1)
}

/// Each distance is one that can be compared.
pub open spec fn comparable(dists: Distances) -> bool {
    forall|i: int| 0 <= i < dists.len() ==> ratio_ok(#[trigger] dists[i])
}

/// The distance can be compared.
pub open spec fn ratio_ok(d: Option<Ratio>) -> bool {
    match d {
        Some(r) => r.wf(),
        None => true,
    }
}

/// A denominator that is not zero.
spec fn den_of(r: Ratio) -> int {
    if r.den == 0 {
        1
    } else {
        r.den as int
    }
}

spec fn ratio_le(a: Ratio, b: Ratio) -> bool {
    a.num.val() * den_of(b) <= b.num.val() * den_of(a)
}

spec fn ranked_le(a: Ranked, b: Ranked) -> bool {
    ratio_le(a.0, b.0) && (ratio_le(b.0, a.0) ==> a.1 <= b.1)
}

proof fn lemma_ratio_le_chain(a: Ratio, b: Ratio, c: Ratio)
    requires
        ratio_le(a, b),
        ratio_le(b, c),
    ensures
        ratio_le(a, c),
{
    let f = |r: Ratio| Ratio { num: r.num, den: den_of(r) as u128 };
    lemma_ratio_chain(f(a), f(b), f(c));
}

proof fn lemma_ranked_le()
    ensures
        preorder(|a: Ranked, b: Ranked| ranked_le(a, b)),
{
    let leq = |a: Ranked, b: Ranked| ranked_le(a, b);
    assert forall|a: Ranked, b: Ranked| #[trigger] leq(a, b) || leq(b, a) by {
    }
    assert(total(leq));
    assert forall|a: Ranked, b: Ranked, c: Ranked| #[trigger] leq(a, b) && #[trigger] leq(
        b,
        c,
    ) implies leq(a, c) by {
        lemma_ratio_le_chain(a.0, b.0, c.0);
        if ratio_le(c.0, a.0) {
            lemma_ratio_le_chain(c.0, a.0, b.0);
            lemma_ratio_le_chain(b.0, c.0, a.0);
        }
    }
    assert(chains(leq));
}

/// Whether the distance is within the limit.
fn is_in_limit(d: Ratio, limit: Option<Ratio>) -> (out: bool)
    requires
        d.wf(),
        limit matches Some(r) ==> r.wf(),
    ensures
        out == in_limit(d, limit),
{
    match limit {
        Some(r) => d.le(r),
        None => true,
    }
}

/// The entities within the limit, nearest first.
fn rank(dists: &Vec<Option<Ratio>>, limit: Option<Ratio>) -> (out: Vec<Ranked>)
    requires
        comparable(dists@),
        limit matches Some(r) ==> r.wf(),
    ensures
        is_ranked(dists@, limit, out@),
{
    let mut hits: Vec<Ranked> = Vec::new();
    let mut i: usize = 0;
    while i < dists.len()
        invariant
            i <= dists@.len(),
            comparable(dists@),
            limit matches Some(r) ==> r.wf(),
            forall|a: int, b: int|
                0 <= a < b < hits@.len() ==> (#[trigger] hits@[a]).1 < (#[trigger] hits@[b]).1,
            forall|k: int|
                0 <= k < hits@.len() ==> at_distance(dists@, limit, #[trigger] hits@[k])
                    && hits@[k].1 < i,
            forall|hit: Ranked| #[trigger]
                at_distance(dists@, limit, hit) && hit.1 < i ==> hits@.contains(hit),
        decreases dists@.len() - i,
    {
        let ghost before = hits@;
        proof {
            assert(ratio_ok(dists@[i as int]));
        }
        if let Some(d) = dists[i] {
            if is_in_limit(d, limit) {
                hits.push((d, i));
                proof {
                    assert(hits@[before.len() as int] == (d, i));
                }
            }
        }
        proof {
            assert forall|hit: Ranked| #[trigger]
                at_distance(dists@, limit, hit) && hit.1 < i + 1 implies hits@.contains(hit) by {
                if hit.1 < i {
                    let k = choose|k: int| 0 <= k < before.len() && before[k] == hit;
                    assert(hits@[k] == hit);
                } else {
                    assert(hits@[before.len() as int] == hit);
                }
            }
        }
        i = i + 1;
    }
    let ghost start = hits@;
    let ghost model = |a: Ranked, b: Ranked| ranked_le(a, b);
    let leq = |a: Ranked, b: Ranked| -> (r: bool)
        requires
            a.0.wf(),
            b.0.wf(),
        ensures
            r == ranked_le(a, b),
        { a.0.le(b.0) && (!b.0.le(a.0) || a.1 <= b.1) };
    proof {
        lemma_ranked_le();
        assert forall|x: Ranked, y: Ranked| start.contains(x) && start.contains(y) implies
            #[trigger] call_requires(leq, (x, y)) by {
            let k = choose|k: int| 0 <= k < start.len() && start[k] == x;
            let m = choose|m: int| 0 <= m < start.len() && start[m] == y;
            assert(at_distance(dists@, limit, start[k]) && at_distance(dists@, limit, start[m]));
            assert(ratio_ok(dists@[x.1 as int]) && ratio_ok(dists@[y.1 as int]));
        }
    }
    let out = merge_sort(hits, &leq, Ghost(model));
    proof {
        lemma_same_items(start, out@);
        assert(start.no_duplicates());
        assert forall|k: int| 0 <= k < out@.len() implies at_distance(
            dists@,
            limit,
            #[trigger] out@[k],
        ) by {
            assert(out@.contains(out@[k]));
            let m = choose|m: int| 0 <= m < start.len() && start[m] == out@[k];
        }
        assert forall|a: int, b: int| 0 <= a < b < out@.len() implies ranked_before(
            #[trigger] out@[a],
            #[trigger] out@[b],
        ) by {
            assert(model(out@[a], out@[b]));
            let (x, y) = (out@[a], out@[b]);
            assert(at_distance(dists@, limit, x) && at_distance(dists@, limit, y));
            assert(ratio_ok(dists@[x.1 as int]) && ratio_ok(dists@[y.1 as int]));
            if x.1 == y.1 {
                assert(x == y);
            }
        }
    }
    out
}

/// The indices of the first `n` hits.
fn first_indices(hits: &Vec<Ranked>, n: usize) -> (out: Vec<usize>)
    ensures
        out@ == ranked_indices(
            if n <= hits@.len() {
                hits@.take(n as int)
            } else {
                hits@
            },
        ),
{
    let mut out: Vec<usize> = Vec::new();
    let mut i: usize = 0;
    while i < hits.len() && i < n
        invariant
            i <= hits@.len(),
            i <= n,
            out@.len() == i,
            forall|k: int| 0 <= k < i ==> #[trigger] out@[k] == hits@[k].1,
        decreases hits@.len() - i,
    {
        out.push(hits[i].1);
        i = i + 1;
    }
    proof {
        let kept = if n <= hits@.len() {
            hits@.take(n as int)
        } else {
            hits@
        };
        assert(out@ =~= ranked_indices(kept));
    }
    out
}

/// What each way is away from the center.
pub open spec fn way_distances(parent: &Osm, center: Point, dists: Distances) -> bool {
    &&& dists.len() == parent.ways.len()
    &&& forall|w: int|
        0 <= w < dists.len() ==> is_way_distance(parent, center, w, #[trigger] dists[w])
}

/// What way `w` is away from the center.
pub open spec fn is_way_distance(parent: &Osm, center: Point, w: int, d: Option<Ratio>) -> bool {
    match d {
        Some(r) => is_line_distance(way_points(parent, w), center, r),
        None => way_points(parent, w).len() == 0,
    }
}

fn measure_ways(parent: &Osm, center: Point) -> (out: Vec<Option<Ratio>>)
    requires
        parent.wf(),
    ensures
        way_distances(parent, center, out@),
        comparable(out@),
{
    let mut out: Vec<Option<Ratio>> = Vec::new();
    let mut w: usize = 0;
    while w < parent.ways.len()
        invariant
            parent.wf(),
            w <= parent.ways.len(),
            out@.len() == w,
            comparable(out@),
            forall|k: int|
                0 <= k < w ==> is_way_distance(parent, center, k, #[trigger] out@[k]),
        decreases parent.ways.len() - w,
    {
        out.push(way_distance(parent, w, center));
        w = w + 1;
    }
    out
}

/// The relation is a candidate: its extent meets the box, where there is one.
pub open spec fn is_candidate(relation: Relation, bbox: Option<Bbox>) -> bool {
    match bbox {
        Some(b) => b.meets_relation(relation),
        None => relation.extent is Some,
    }
}

fn candidate(relation: Relation, bbox: Option<Bbox>) -> (out: bool)
    ensures
        out == is_candidate(relation, bbox),
{
    match (relation.extent, bbox) {
        (Some(e), Some(b)) => e.min_lon as i64 <= b.max_lon && e.max_lon as i64 >= b.min_lon
            && e.min_lat as i64 <= b.max_lat && e.max_lat as i64 >= b.min_lat,
        (Some(_), None) => true,
        (None, _) => false,
    }
}

/// What each candidate relation is away from the center.
pub open spec fn relation_distances(
    parent: &Osm,
    center: Point,
    bbox: Option<Bbox>,
    dists: Distances,
) -> bool {
    &&& dists.len() == parent.relations.len()
    &&& forall|r: int|
        0 <= r < dists.len() ==> is_candidate_distance(
            parent,
            center,
            bbox,
            r,
            #[trigger] dists[r],
        )
}

/// What relation `r` is away from the center, if it is a candidate.
pub open spec fn is_candidate_distance(
    parent: &Osm,
    center: Point,
    bbox: Option<Bbox>,
    r: int,
    d: Option<Ratio>,
) -> bool {
    match d {
        Some(x) => is_candidate(parent.relations@[r], bbox) && is_relation_distance(
            parent,
            r,
            center,
            x,
        ),
        None => !is_candidate(parent.relations@[r], bbox) || forall|e: Ratio|
            !#[trigger] relation_has(parent, r, center, e),
    }
}

fn measure_relations(parent: &Osm, center: Point, bbox: Option<Bbox>) -> (out: Vec<Option<Ratio>>)
    requires
        parent.wf(),
    ensures
        relation_distances(parent, center, bbox, out@),
        comparable(out@),
{
    let mut out: Vec<Option<Ratio>> = Vec::new();
    let mut r: usize = 0;
    while r < parent.relations.len()
        invariant
            parent.wf(),
            r <= parent.relations.len(),
            out@.len() == r,
            comparable(out@),
            forall|k: int|
                0 <= k < r ==> is_candidate_distance(
                    parent,
                    center,
                    bbox,
                    k,
                    #[trigger] out@[k],
                ),
        decreases parent.relations.len() - r,
    {
        let d = if candidate(parent.relations[r], bbox) {
            relation_distance(parent, r, center)
        } else {
            None
        };
        out.push(d);
        r = r + 1;
    }
    out
}

/// The limit is the square of the radius.
pub open spec fn is_radius(limit: Ratio, radius: i32) -> bool {
    limit.wf() && limit.num.val() == radius * radius && limit.den == 1
}

fn radius_limit(radius: i32) -> (out: Ratio)
    ensures
        is_radius(out, radius),
{
    Ratio { num: Wide { hi: 0, lo: square(radius as i64) as u128 }, den: 1 }
}

/// `out` are the ways within `radius` of the center, nearest first.
pub open spec fn is_ways_within(parent: &Osm, center: Point, radius: i32, out: Seq<usize>) -> bool {
    if radius < 0 {
        out.len() == 0
    } else {
        exists|dists: Distances, limit: Ratio, hits: Seq<Ranked>|
            is_radius(limit, radius) && way_distances(parent, center, dists)
                && #[trigger] is_ranked(dists, Some(limit), hits) && out == ranked_indices(hits)
    }
}

/// Way indices within `radius` of `center`, nearest-first; none for a negative
/// radius.
pub fn ways_within_radius(archive: &Osm, center: Point, radius: i32) -> (out: Vec<usize>)
    requires
        archive.wf(),
    ensures
        is_ways_within(archive, center, radius, out@),
{
    if radius < 0 {
        return Vec::new();
    }
    let limit = radius_limit(radius);
    let dists = measure_ways(archive, center);
    let hits = rank(&dists, Some(limit));
    let out = first_indices(&hits, hits.len());
    proof {
        assert(hits@.take(hits@.len() as int) =~= hits@);
        assert(is_ranked(dists@, Some(limit), hits@));
    }
    out
}

/// The first `k` hits, or all where there are fewer.
pub open spec fn first_hits(hits: Seq<Ranked>, k: nat) -> Seq<Ranked> {
    if k <= hits.len() {
        hits.take(k as int)
    } else {
        hits
    }
}

/// `out` are the `k` ways nearest to the center.
pub open spec fn is_nearest_ways(parent: &Osm, center: Point, k: nat, out: Seq<usize>) -> bool {
    exists|dists: Distances, hits: Seq<Ranked>|
        way_distances(parent, center, dists) && #[trigger] is_ranked(dists, None, hits) && out
            == ranked_indices(first_hits(hits, k))
}

/// The `k` ways nearest to `center`, nearest-first; fewer where there are fewer.
pub fn k_nearest_ways(archive: &Osm, center: Point, k: usize) -> (out: Vec<usize>)
    requires
        archive.wf(),
    ensures
        is_nearest_ways(archive, center, k as nat, out@),
{
    let dists = measure_ways(archive, center);
    let hits = rank(&dists, None);
    let out = first_indices(&hits, k);
    proof {
        assert(is_ranked(dists@, None, hits@));
        assert(out@ == ranked_indices(first_hits(hits@, k as nat)));
    }
    out
}

/// `out` are the relations within `radius` of the center, nearest first.
pub open spec fn is_relations_within(
    parent: &Osm,
    center: Point,
    radius: i32,
    out: Seq<usize>,
) -> bool {
    if radius < 0 {
        out.len() == 0
    } else {
        exists|filter: RadiusFilter, dists: Distances, limit: Ratio, hits: Seq<Ranked>|
            filter.describes(center, radius) && is_radius(limit, radius)
                && #[trigger] relation_distances(parent, center, Some(filter.bbox), dists)
                && #[trigger] is_ranked(dists, Some(limit), hits) && out == ranked_indices(hits)
    }
}

/// Relation indices within `radius` of `center`, nearest-first; none for a
/// negative radius.
pub fn relations_within_radius(archive: &Osm, center: Point, radius: i32) -> (out: Vec<usize>)
    requires
        archive.wf(),
    ensures
        is_relations_within(archive, center, radius, out@),
{
    let filter = match RadiusFilter::new(center, radius) {
        Some(filter) => filter,
        None => {
            return Vec::new();
        },
    };
    let limit = radius_limit(radius);
    let dists = measure_relations(archive, center, Some(filter.bbox));
    let hits = rank(&dists, Some(limit));
    let out = first_indices(&hits, hits.len());
    proof {
        assert(hits@.take(hits@.len() as int) =~= hits@);
        assert(relation_distances(archive, center, Some(filter.bbox), dists@));
        assert(is_ranked(dists@, Some(limit), hits@));
    }
    out
}

/// `out` are the `k` relations nearest to the center.
pub open spec fn is_nearest_relations(parent: &Osm, center: Point, k: nat, out: Seq<usize>) -> bool {
    exists|dists: Distances, hits: Seq<Ranked>|
        relation_distances(parent, center, None, dists) && #[trigger] is_ranked(dists, None, hits)
            && out == ranked_indices(first_hits(hits, k))
}

/// The `k` relations nearest to `center`, nearest-first; fewer where there are
/// fewer.
pub fn k_nearest_relations(archive: &Osm, center: Point, k: usize) -> (out: Vec<usize>)
    requires
        archive.wf(),
    ensures
        is_nearest_relations(archive, center, k as nat, out@),
{
    let dists = measure_relations(archive, center, None);
    let hits = rank(&dists, None);
    let out = first_indices(&hits, k);
    proof {
        assert(is_ranked(dists@, None, hits@));
        assert(out@ == ranked_indices(first_hits(hits@, k as nat)));
    }
    out
}

/// Way indices that touch the `polygon` ring, ascending; none for fewer than 3
/// vertices.
pub fn ways_in_polygon(archive: &Osm, polygon: &[Point]) -> (out: Vec<usize>)
    requires
        archive.wf(),
    ensures
        forall|i: int, j: int| 0 <= i < j < out@.len() ==> out@[i] < out@[j],
        forall|w: usize| #[trigger]
            out@.contains(w) <==> polygon@.len() >= 3 && w < archive.ways.len() && line_touches(
                way_points(archive, w as int),
                polygon@,
            ),
{
    let mut out: Vec<usize> = Vec::new();
    if polygon.len() < 3 {
        return out;
    }
    let mut w: usize = 0;
    while w < archive.ways.len()
        invariant
            archive.wf(),
            w <= archive.ways.len(),
            forall|i: int, j: int| 0 <= i < j < out@.len() ==> out@[i] < out@[j],
            forall|i: int| 0 <= i < out@.len() ==> out@[i] < w,
            forall|x: usize| #[trigger]
                out@.contains(x) <==> x < w && line_touches(way_points(archive, x as int), polygon@),
        decreases archive.ways.len() - w,
    {
        let ghost before = out@;
        if way_in_polygon(archive, w, polygon) {
            out.push(w);
            proof {
                assert forall|x: usize| #[trigger] out@.contains(x) <==> x < w + 1 && line_touches(
                    way_points(archive, x as int),
                    polygon@,
                ) by {
                    vstd::seq_lib::lemma_seq_contains_after_push(before, w, x);
                    if x == w {
                        assert(out@[before.len() as int] == x);
                    }
                }
            }
        }
        w = w + 1;
    }
    out
}

/// The relation is a candidate for the ring, and a part of it touches the ring.
pub open spec fn touches_ring(parent: &Osm, ring: Seq<Point>, r: int) -> bool {
    is_candidate(parent.relations@[r], Some(ring_bbox(ring))) && relation_touches(parent, r, ring)
}

/// Relation indices that touch the `polygon` ring, ascending; none for fewer
/// than 3 vertices.
pub fn relations_in_polygon(archive: &Osm, polygon: &[Point]) -> (out: Vec<usize>)
    requires
        archive.wf(),
    ensures
        forall|i: int, j: int| 0 <= i < j < out@.len() ==> out@[i] < out@[j],
        forall|r: usize| #[trigger]
            out@.contains(r) <==> polygon@.len() >= 3 && r < archive.relations.len()
                && touches_ring(archive, polygon@, r as int),
{
    let mut out: Vec<usize> = Vec::new();
    let filter = match PolygonFilter::new(polygon) {
        Some(filter) => filter,
        None => {
            return out;
        },
    };
    let mut r: usize = 0;
    while r < archive.relations.len()
        invariant
            archive.wf(),
            filter.bbox == ring_bbox(polygon@),
            r <= archive.relations.len(),
            forall|i: int, j: int| 0 <= i < j < out@.len() ==> out@[i] < out@[j],
            forall|i: int| 0 <= i < out@.len() ==> out@[i] < r,
            forall|x: usize| #[trigger]
                out@.contains(x) <==> x < r && touches_ring(archive, polygon@, x as int),
        decreases archive.relations.len() - r,
    {
        let ghost before = out@;
        if candidate(archive.relations[r], Some(filter.bbox)) && relation_in_polygon(
            archive,
            r,
            polygon,
        ) {
            out.push(r);
            proof {
                assert forall|x: usize| #[trigger] out@.contains(x) <==> x < r + 1 && touches_ring(
                    archive,
                    polygon@,
                    x as int,
                ) by {
                    vstd::seq_lib::lemma_seq_contains_after_push(before, r, x);
                    if x == r {
                        assert(out@[before.len() as int] == x);
                    }
                }
            }
        }
        r = r + 1;
    }
    out
}

} // verus!
