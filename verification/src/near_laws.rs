//! What the searches by distance find, in terms of the points of what they search.

use crate::geometry::{cross, Point};
use crate::lines::{is_line_distance, line_has, part_distance, parts, way_points};
use crate::osm::Osm;
use crate::segments::{
    a_segment_distance_is_reached, along, no_point_of_a_segment_is_nearer,
    parted_sq,
};
use crate::select_laws::{lemma_offset, offset_sq};
use crate::spatial::{
    beyond, dist_sq, hit_lt, is_hit, is_nearest, is_within_radius,
    nearest_is_determined, node_dist, node_point, Hit,
};
use crate::way_spatial::{
    at_distance, first_hits, in_limit, is_nearest_ways, is_radius, is_ranked, is_way_distance,
    is_ways_within, ranked_before, ranked_indices, way_distances, Distances, Ranked,
};
use crate::wide::{lemma_ratio_chain, word, Ratio, Wide};
use vstd::prelude::*;

verus! {

/// Squared distances add up at a right angle, and along a parallel or a meridian
/// they are the square of the difference.
pub proof fn distances_are_those_of_the_plane(a: Point, b: Point)
    ensures
        dist_sq(a, b) == dist_sq(a, Point { lon: b.lon, lat: a.lat }) + dist_sq(
            Point { lon: b.lon, lat: a.lat },
            b,
        ),
        a.lat == b.lat ==> dist_sq(a, b) == (b.lon - a.lon) * (b.lon - a.lon),
        a.lon == b.lon ==> dist_sq(a, b) == (b.lat - a.lat) * (b.lat - a.lat),
        dist_sq(a, b) == dist_sq(b, a),
        dist_sq(a, b) == 0 <==> a == b,
{
    reveal(dist_sq);
    let (x, y) = (a.lon - b.lon, a.lat - b.lat);
    assert(x * x == (-x) * (-x)) by (nonlinear_arith);
    assert(y * y == (-y) * (-y)) by (nonlinear_arith);
    assert(0 * 0 == 0int);
    assert(x * x + y * y == 0 <==> x == 0 && y == 0) by (nonlinear_arith);
}

/// A node is within a radius exactly where the square of its offset is at most that
/// of the radius.
pub proof fn a_radius_reaches_its_circle(
    parent: &Osm,
    center: Point,
    radius: i32,
    hits: Seq<Hit>,
    i: int,
)
    requires
        is_within_radius(parent, center, radius, hits),
        0 <= i < parent.nodes.len(),
    ensures
        is_hit(hits, i) <==> radius >= 0 && (parent.nodes@[i].lon - center.lon) * (
        parent.nodes@[i].lon - center.lon) + (parent.nodes@[i].lat - center.lat) * (
        parent.nodes@[i].lat - center.lat) <= radius * radius,
{
    reveal(dist_sq);
    let (x, y) = (parent.nodes@[i].lon - center.lon, parent.nodes@[i].lat - center.lat);
    assert(x * x == (-x) * (-x)) by (nonlinear_arith);
    assert(y * y == (-y) * (-y)) by (nonlinear_arith);
    assert(is_hit(hits, i) <==> radius >= 0 && node_dist(parent, center, i) <= radius * radius);
}

/// Nodes within a radius come by distance, and those equally far by index.
pub proof fn nodes_within_come_by_distance(
    parent: &Osm,
    center: Point,
    radius: i32,
    hits: Seq<Hit>,
    i: int,
    j: int,
)
    requires
        is_within_radius(parent, center, radius, hits),
        0 <= i < j < hits.len(),
    ensures
        ({
            let (a, b) = (hits[i].1, hits[j].1);
            let (near, far) = (
                offset_sq(parent.nodes@[a as int], center),
                offset_sq(parent.nodes@[b as int], center),
            );
            near < far || (near == far && a < b)
        }),
{
    assert(hit_lt(hits[i], hits[j]));
    lemma_offset(parent.nodes@[hits[i].1 as int], center);
    lemma_offset(parent.nodes@[hits[j].1 as int], center);
}

/// The nearest nodes come by distance, and those equally far by index; a node that is
/// left out comes after all of them, and as many are listed as were asked for.
pub proof fn the_nearest_nodes_are_no_farther_than_others(
    parent: &Osm,
    center: Point,
    k: nat,
    hits: Seq<Hit>,
    i: int,
    b: int,
)
    requires
        is_nearest(parent, center, k, hits),
        0 <= i < hits.len(),
        0 <= b < parent.nodes.len(),
        forall|j: int| 0 <= j <= i ==> (#[trigger] hits[j]).1 != b,
    ensures
        hits.len() <= k,
        !is_hit(hits, b) ==> hits.len() == k,
        ({
            let a = hits[i].1;
            let (near, far) = (
                offset_sq(parent.nodes@[a as int], center),
                offset_sq(parent.nodes@[b], center),
            );
            near < far || (near == far && a < b)
        }),
{
    lemma_offset(parent.nodes@[hits[i].1 as int], center);
    lemma_offset(parent.nodes@[b], center);
    lemma_node_dist(parent, center, b);
    if is_hit(hits, b) {
        let j = choose|j: int| 0 <= j < hits.len() && (#[trigger] hits[j]).1 == b;
        assert(hit_lt(hits[i], hits[j]));
    } else {
        assert(beyond(hits, parent, center, b));
    }
}

proof fn lemma_start_is_nearest(parent: &Osm, center: Point, k: nat, m: nat, hits: Seq<Hit>)
    requires
        is_nearest(parent, center, m, hits),
        k <= m,
    ensures
        is_nearest(
            parent,
            center,
            k,
            if k <= hits.len() {
                hits.take(k as int)
            } else {
                hits
            },
        ),
{
    if k <= hits.len() {
        let start = hits.take(k as int);
        assert forall|i: int, j: int| 0 <= i < j < start.len() implies hit_lt(
            #[trigger] start[i],
            #[trigger] start[j],
        ) by {
            assert(hit_lt(hits[i], hits[j]));
        }
        assert forall|j: int| 0 <= j < start.len() implies (#[trigger] start[j]).1
            < parent.nodes.len() && start[j].0 == node_dist(parent, center, start[j].1 as int) by {
            assert(start[j] == hits[j]);
        }
        assert forall|i: int| 0 <= i < parent.nodes.len() && !(#[trigger] is_hit(start, i)) implies
            start.len() == k && beyond(start, parent, center, i) by {
            let far = (node_dist(parent, center, i) as i128, i as usize);
            assert forall|j: int| 0 <= j < start.len() implies hit_lt(#[trigger] start[j], far) by {
                assert(start[j] == hits[j]);
                if is_hit(hits, i) {
                    let n = choose|n: int| 0 <= n < hits.len() && (#[trigger] hits[n]).1 == i;
                    if n < k {
                        assert(start[n].1 == i);
                    }
                    assert(hits[n] == far);
                    assert(hit_lt(hits[j], hits[n]));
                } else {
                    assert(beyond(hits, parent, center, i));
                }
            }
        }
    } else {
        assert forall|i: int| 0 <= i < parent.nodes.len() && !(#[trigger] is_hit(hits, i)) implies
            hits.len() == k && beyond(hits, parent, center, i) by {
            assert(hits.len() == m);
        }
    }
}

/// The nearest nodes are the first of any longer list of nearest nodes.
pub proof fn the_nearest_come_first(
    parent: &Osm,
    center: Point,
    k: nat,
    m: nat,
    few: Seq<Hit>,
    many: Seq<Hit>,
)
    requires
        is_nearest(parent, center, k, few),
        is_nearest(parent, center, m, many),
        k <= m,
    ensures
        few.len() <= many.len(),
        few == many.take(few.len() as int),
{
    lemma_start_is_nearest(parent, center, k, m, many);
    if k <= many.len() {
        nearest_is_determined(parent, center, k, few, many.take(k as int));
    } else {
        nearest_is_determined(parent, center, k, few, many);
        assert(many.take(many.len() as int) =~= many);
    }
}

/// The nodes within a radius are the nearest, as many as they are.
pub proof fn what_is_within_is_nearest(
    parent: &Osm,
    center: Point,
    radius: i32,
    within: Seq<Hit>,
    near: Seq<Hit>,
)
    requires
        is_within_radius(parent, center, radius, within),
        is_nearest(parent, center, within.len(), near),
    ensures
        within == near,
{
    assert forall|i: int| 0 <= i < parent.nodes.len() && !(#[trigger] is_hit(within, i)) implies
        beyond(within, parent, center, i) by {
        let far = (node_dist(parent, center, i) as i128, i as usize);
        assert forall|m: int| 0 <= m < within.len() implies hit_lt(#[trigger] within[m], far) by {
            let j = within[m].1 as int;
            assert(is_hit(within, j));
            assert(node_dist(parent, center, j) <= radius * radius);
            lemma_node_dist(parent, center, i);
        }
    }
    nearest_is_determined(parent, center, within.len(), within, near);
}

proof fn lemma_node_dist(parent: &Osm, center: Point, i: int)
    ensures
        0 <= node_dist(parent, center, i) <= 0x2_0000_0000_0000_0000,
{
    lemma_dist_range(center, node_point(parent.nodes@[i]));
}

pub(crate) proof fn lemma_dist_range(a: Point, b: Point)
    ensures
        0 <= dist_sq(a, b) <= 0x2_0000_0000_0000_0000,
{
    reveal(dist_sq);
    let (x, y) = (a.lon - b.lon, a.lat - b.lat);
    assert(0 <= x * x <= 0x1_0000_0000_0000_0000) by (nonlinear_arith)
        requires
            -0x1_0000_0000 <= x <= 0x1_0000_0000,
    ;
    assert(0 <= y * y <= 0x1_0000_0000_0000_0000) by (nonlinear_arith)
        requires
            -0x1_0000_0000 <= y <= 0x1_0000_0000,
    ;
}

/// The end of part `i` of a line: the next vertex, or, of a line of one vertex,
/// that vertex.
pub open spec fn part_end(line: Seq<Point>, i: int) -> Point {
    if line.len() == 1 {
        line[0]
    } else {
        line[i + 1]
    }
}

/// The point `s` parts in `t` of the way along part `i` of the line is within
/// `radius` of `p`.
pub open spec fn point_within(
    line: Seq<Point>,
    p: Point,
    radius: int,
    i: int,
    s: int,
    t: int,
) -> bool {
    &&& 0 <= i < line.len()
    &&& i + 1 < line.len() || line.len() == 1
    &&& 0 <= s <= t
    &&& 0 < t
    &&& parted_sq(p, line[i], part_end(line, i), s, t) <= (radius * radius) * (t * t)
}

/// Some point of the line is within `radius` of `p`.
pub open spec fn comes_within(line: Seq<Point>, p: Point, radius: int) -> bool {
    exists|i: int, s: int, t: int| #[trigger] point_within(line, p, radius, i, s, t)
}

proof fn lemma_parted_on_point(p: Point, a: Point, s: int, t: int)
    ensures
        parted_sq(p, a, a, s, t) == dist_sq(p, a) * (t * t),
{
    reveal(dist_sq);
    let (x, y) = (p.lon - a.lon, p.lat - a.lat);
    assert(s * 0 == 0);
    assert((t * x) * (t * x) + (t * y) * (t * y) == (x * x + y * y) * (t * t)) by (nonlinear_arith);
}

proof fn lemma_scaled(n: int, den: int, part: int, r: int, sq: int)
    requires
        den > 0,
        sq > 0,
    ensures
        n * sq == part * den && n <= r * den ==> part <= r * sq,
        n * sq <= part * den && part <= r * sq ==> n <= r * den,
{
    if n * sq == part * den && n <= r * den {
        assert(part <= r * sq) by (nonlinear_arith)
            requires
                n * sq == part * den,
                n <= r * den,
                den > 0,
                sq > 0,
        ;
    }
    if n * sq <= part * den && part <= r * sq {
        assert(n <= r * den) by (nonlinear_arith)
            requires
                n * sq <= part * den,
                part <= r * sq,
                den > 0,
                sq > 0,
        ;
    }
}

/// A number as a wide integer.
pub(crate) proof fn lemma_as_wide(v: int) -> (w: Wide)
    requires
        0 <= v <= 64 * word(),
    ensures
        w.val() == v,
        w.hi <= 64,
{
    let (hi, lo) = (v / word(), v % word());
    assert(0 <= hi <= 64 && 0 <= lo < word() && v == hi * word() + lo);
    Wide { hi: hi as u128, lo: lo as u128 }
}

/// Every part of a line has a distance.
pub(crate) proof fn lemma_part_ratio(line: Seq<Point>, p: Point, i: int) -> (d: Ratio)
    requires
        0 <= i < parts(line),
    ensures
        d.wf(),
        part_distance(line, p, i, d),
{
    if line.len() == 1 {
        lemma_dist_range(p, line[0]);
        Ratio { num: lemma_as_wide(dist_sq(p, line[0])), den: 1 }
    } else {
        let (a, b) = (line[i], line[i + 1]);
        lemma_dist_range(p, a);
        lemma_dist_range(p, b);
        lemma_dist_range(a, b);
        if along(a, b, p) <= 0 {
            Ratio { num: lemma_as_wide(dist_sq(p, a)), den: 1 }
        } else if along(a, b, p) >= dist_sq(a, b) {
            Ratio { num: lemma_as_wide(dist_sq(p, b)), den: 1 }
        } else {
            let c = cross(a, b, p);
            lemma_cross_range(a, b, p);
            assert(0 <= c * c <= 4 * word()) by (nonlinear_arith)
                requires
                    -0x2_0000_0000_0000_0000 <= c <= 0x2_0000_0000_0000_0000,
                    word() == 0x1_0000_0000_0000_0000_0000_0000_0000_0000int,
            ;
            Ratio { num: lemma_as_wide(c * c), den: dist_sq(a, b) as u128 }
        }
    }
}

proof fn lemma_cross_range(a: Point, b: Point, p: Point)
    ensures
        -0x2_0000_0000_0000_0000 <= cross(a, b, p) <= 0x2_0000_0000_0000_0000,
{
    reveal(cross);
    let (x, y) = (b.lon - a.lon, p.lat - a.lat);
    let (u, v) = (b.lat - a.lat, p.lon - a.lon);
    assert(-0x1_0000_0000_0000_0000 <= x * y <= 0x1_0000_0000_0000_0000) by (nonlinear_arith)
        requires
            -0x1_0000_0000 <= x <= 0x1_0000_0000,
            -0x1_0000_0000 <= y <= 0x1_0000_0000,
    ;
    assert(-0x1_0000_0000_0000_0000 <= u * v <= 0x1_0000_0000_0000_0000) by (nonlinear_arith)
        requires
            -0x1_0000_0000 <= u <= 0x1_0000_0000,
            -0x1_0000_0000 <= v <= 0x1_0000_0000,
    ;
}

/// The distance of a line is the least radius that some point of it is within: it is
/// at most a radius exactly where a point of the line is within the radius.
pub proof fn a_line_is_as_near_as_its_nearest_point(
    line: Seq<Point>,
    p: Point,
    d: Ratio,
    radius: int,
)
    requires
        is_line_distance(line, p, d),
    ensures
        d.num.val() <= (radius * radius) * d.den <==> comes_within(line, p, radius),
{
    let r = radius * radius;
    let n = d.num.val();
    let den = d.den as int;
    assert(line_has(line, p, d));
    if n <= r * den {
        let i = choose|i: int| 0 <= i < parts(line) && #[trigger] part_distance(line, p, i, d);
        if line.len() == 1 {
            lemma_parted_on_point(p, line[0], 0, 1);
            assert(point_within(line, p, radius, 0, 0, 1));
        } else {
            let (s, t) = a_segment_distance_is_reached(p, line[i], line[i + 1], d);
            assert(t * t > 0) by (nonlinear_arith)
                requires
                    t > 0,
            ;
            lemma_scaled(n, den, parted_sq(p, line[i], line[i + 1], s, t), r, t * t);
            assert(point_within(line, p, radius, i, s, t));
        }
    }
    if comes_within(line, p, radius) {
        let (i, s, t) = choose|i: int, s: int, t: int| #[trigger]
            point_within(line, p, radius, i, s, t);
        assert(t * t > 0) by (nonlinear_arith)
            requires
                t > 0,
        ;
        let e = lemma_part_ratio(line, p, i);
        assert(line_has(line, p, e));
        assert(d.at_most(e));
        let (en, ed) = (e.num.val(), e.den as int);
        let part = parted_sq(p, line[i], part_end(line, i), s, t);
        if line.len() == 1 {
            lemma_parted_on_point(p, line[0], s, t);
            assert(ed == 1 && en * (t * t) == part);
        } else {
            no_point_of_a_segment_is_nearer(p, line[i], line[i + 1], e, s, t);
        }
        lemma_scaled(en, ed, part, r, t * t);
        assert(n * ed <= en * den);
        assert(n <= r * den) by (nonlinear_arith)
            requires
                n * ed <= en * den,
                en <= r * ed,
                ed > 0,
                den > 0,
        ;
    }
}

proof fn lemma_hit_of_way(
    parent: &Osm,
    center: Point,
    dists: Distances,
    limit: Option<Ratio>,
    hits: Seq<Ranked>,
    w: usize,
)
    requires
        way_distances(parent, center, dists),
        is_ranked(dists, limit, hits),
    ensures
        ranked_indices(hits).contains(w) <==> w < parent.ways.len() && dists[w as int] is Some
            && in_limit(dists[w as int]->0, limit),
{
    let out = ranked_indices(hits);
    if out.contains(w) {
        let k = choose|k: int| 0 <= k < out.len() && out[k] == w;
        assert(at_distance(dists, limit, hits[k]));
    }
    if w < parent.ways.len() && dists[w as int] is Some && in_limit(dists[w as int]->0, limit) {
        let hit = (dists[w as int]->0, w);
        assert(at_distance(dists, limit, hit));
        let k = choose|k: int| 0 <= k < hits.len() && hits[k] == hit;
        assert(out[k] == w);
    }
}

/// The ways within a radius are those of which some point is within it.
pub proof fn ways_within_are_those_that_come_within(
    parent: &Osm,
    center: Point,
    radius: i32,
    out: Seq<usize>,
    w: usize,
)
    requires
        is_ways_within(parent, center, radius, out),
    ensures
        out.contains(w) <==> radius >= 0 && w < parent.ways.len() && comes_within(
            way_points(parent, w as int),
            center,
            radius as int,
        ),
{
    if radius >= 0 {
        let (dists, limit, hits) = choose|dists: Distances, limit: Ratio, hits: Seq<Ranked>|
            is_radius(limit, radius) && way_distances(parent, center, dists)
                && #[trigger] is_ranked(dists, Some(limit), hits) && out == ranked_indices(hits);
        lemma_hit_of_way(parent, center, dists, Some(limit), hits, w);
        if w < parent.ways.len() {
            let line = way_points(parent, w as int);
            assert(is_way_distance(parent, center, w as int, dists[w as int]));
            match dists[w as int] {
                Some(d) => {
                    a_line_is_as_near_as_its_nearest_point(line, center, d, radius as int);
                    assert(d.num.val() * 1 == d.num.val());
                },
                None => {
                    assert(!comes_within(line, center, radius as int));
                },
            }
        }
    }
}

proof fn lemma_nearer_way(
    parent: &Osm,
    center: Point,
    dists: Distances,
    v: int,
    w: int,
    radius: int,
)
    requires
        way_distances(parent, center, dists),
        0 <= v < dists.len(),
        0 <= w < dists.len(),
        dists[v] is Some,
        dists[w] is Some,
        dists[v]->0.at_most(dists[w]->0),
        comes_within(way_points(parent, w), center, radius),
    ensures
        comes_within(way_points(parent, v), center, radius),
{
    assert(is_way_distance(parent, center, v, dists[v]));
    assert(is_way_distance(parent, center, w, dists[w]));
    let (d, e) = (dists[v]->0, dists[w]->0);
    a_line_is_as_near_as_its_nearest_point(way_points(parent, v), center, d, radius);
    a_line_is_as_near_as_its_nearest_point(way_points(parent, w), center, e, radius);
    assert(line_has(way_points(parent, v), center, d));
    assert(line_has(way_points(parent, w), center, e));
    let (n, p, m, q) = (d.num.val(), d.den as int, e.num.val(), e.den as int);
    let r = radius * radius;
    assert(n <= r * p) by (nonlinear_arith)
        requires
            n * q <= m * p,
            m <= r * q,
            p > 0,
            q > 0,
    ;
}

/// The ways within a radius come by distance: a radius that a way comes within, every
/// way before it comes within.
pub proof fn ways_within_come_by_distance(
    parent: &Osm,
    center: Point,
    radius: i32,
    out: Seq<usize>,
    j: int,
    k: int,
    r: int,
)
    requires
        is_ways_within(parent, center, radius, out),
        0 <= j < k < out.len(),
        comes_within(way_points(parent, out[k] as int), center, r),
    ensures
        comes_within(way_points(parent, out[j] as int), center, r),
        out[j] != out[k],
{
    let (dists, limit, hits) = choose|dists: Distances, limit: Ratio, hits: Seq<Ranked>|
        is_radius(limit, radius) && way_distances(parent, center, dists)
            && #[trigger] is_ranked(dists, Some(limit), hits) && out == ranked_indices(hits);
    assert(at_distance(dists, Some(limit), hits[j]));
    assert(at_distance(dists, Some(limit), hits[k]));
    assert(ranked_before(hits[j], hits[k]));
    lemma_nearer_way(parent, center, dists, hits[j].1 as int, hits[k].1 as int, r);
    if hits[j].1 == hits[k].1 {
        assert(hits[j] == hits[k]);
    }
}

/// Two distances of one line are equal.
pub(crate) proof fn lemma_line_distances(line: Seq<Point>, p: Point, d: Ratio, e: Ratio)
    requires
        is_line_distance(line, p, d),
        is_line_distance(line, p, e),
    ensures
        d.at_most(e),
        e.at_most(d),
        d.wf(),
        e.wf(),
{
    assert(line_has(line, p, d));
    assert(line_has(line, p, e));
}

/// The distances decide the order, and where they are equal the index does.
proof fn lemma_order_of_ways(
    parent: &Osm,
    center: Point,
    dists: Distances,
    a: Ranked,
    b: Ranked,
    d: Ratio,
    e: Ratio,
)
    requires
        way_distances(parent, center, dists),
        at_distance(dists, None, a),
        at_distance(dists, None, b),
        ranked_before(a, b),
        is_line_distance(way_points(parent, a.1 as int), center, d),
        is_line_distance(way_points(parent, b.1 as int), center, e),
    ensures
        d.at_most(e),
        e.at_most(d) ==> a.1 < b.1,
{
    assert(is_way_distance(parent, center, a.1 as int, dists[a.1 as int]));
    assert(is_way_distance(parent, center, b.1 as int, dists[b.1 as int]));
    lemma_line_distances(way_points(parent, a.1 as int), center, d, a.0);
    lemma_line_distances(way_points(parent, b.1 as int), center, e, b.0);
    lemma_ratio_chain(d, a.0, b.0);
    lemma_ratio_chain(d, b.0, e);
    if e.at_most(d) {
        lemma_ratio_chain(b.0, e, d);
        lemma_ratio_chain(b.0, d, a.0);
    }
}

/// Ways that are equally far come by index, among those within a radius.
pub proof fn ways_within_that_are_equally_far_come_by_index(
    parent: &Osm,
    center: Point,
    radius: i32,
    out: Seq<usize>,
    j: int,
    k: int,
    d: Ratio,
    e: Ratio,
)
    requires
        is_ways_within(parent, center, radius, out),
        0 <= j < k < out.len(),
        is_line_distance(way_points(parent, out[j] as int), center, d),
        is_line_distance(way_points(parent, out[k] as int), center, e),
    ensures
        d.at_most(e),
        e.at_most(d) ==> out[j] < out[k],
{
    let (dists, limit, hits) = choose|dists: Distances, limit: Ratio, hits: Seq<Ranked>|
        is_radius(limit, radius) && way_distances(parent, center, dists)
            && #[trigger] is_ranked(dists, Some(limit), hits) && out == ranked_indices(hits);
    assert(at_distance(dists, Some(limit), hits[j]));
    assert(at_distance(dists, Some(limit), hits[k]));
    assert(ranked_before(hits[j], hits[k]));
    lemma_order_of_ways(parent, center, dists, hits[j], hits[k], d, e);
}

/// Ways that are equally far come by index, among the nearest.
pub proof fn nearest_ways_that_are_equally_far_come_by_index(
    parent: &Osm,
    center: Point,
    n: nat,
    out: Seq<usize>,
    j: int,
    k: int,
    d: Ratio,
    e: Ratio,
)
    requires
        is_nearest_ways(parent, center, n, out),
        0 <= j < k < out.len(),
        is_line_distance(way_points(parent, out[j] as int), center, d),
        is_line_distance(way_points(parent, out[k] as int), center, e),
    ensures
        d.at_most(e),
        e.at_most(d) ==> out[j] < out[k],
{
    let (dists, hits) = choose|dists: Distances, hits: Seq<Ranked>|
        way_distances(parent, center, dists) && #[trigger] is_ranked(dists, None, hits) && out
            == ranked_indices(first_hits(hits, n));
    assert(at_distance(dists, None, hits[j]));
    assert(at_distance(dists, None, hits[k]));
    assert(ranked_before(hits[j], hits[k]));
    lemma_order_of_ways(parent, center, dists, hits[j], hits[k], d, e);
}

/// The nearest ways: at most as many as were asked for, by distance, and all where
/// fewer; a radius that one comes within that is left out, every one that is listed
/// comes within.
pub proof fn the_nearest_ways_are_no_farther_than_others(
    parent: &Osm,
    center: Point,
    k: nat,
    out: Seq<usize>,
    w: usize,
    j: int,
    r: int,
)
    requires
        is_nearest_ways(parent, center, k, out),
        w < parent.ways.len(),
        !out.contains(w),
        way_points(parent, w as int).len() > 0,
    ensures
        out.len() == k,
        0 <= j < k && comes_within(way_points(parent, w as int), center, r) ==> comes_within(
            way_points(parent, out[j] as int),
            center,
            r,
        ),
{
    let (dists, hits) = choose|dists: Distances, hits: Seq<Ranked>|
        way_distances(parent, center, dists) && #[trigger] is_ranked(dists, None, hits) && out
            == ranked_indices(first_hits(hits, k));
    let first = first_hits(hits, k);
    lemma_hit_of_way(parent, center, dists, None, hits, w);
    assert(is_way_distance(parent, center, w as int, dists[w as int]));
    let all = ranked_indices(hits);
    let m = choose|m: int| 0 <= m < all.len() && all[m] == w;
    assert(at_distance(dists, None, hits[m]));
    if m < first.len() {
        assert(first[m] == hits[m]);
        assert(out[m] == w);
    }
    assert(first.len() == k);
    if 0 <= j < k && comes_within(way_points(parent, w as int), center, r) {
        assert(first[j] == hits[j]);
        assert(at_distance(dists, None, hits[j]));
        assert(ranked_before(hits[j], hits[m]));
        lemma_nearer_way(parent, center, dists, hits[j].1 as int, w as int, r);
    }
}

/// The nearest ways come by distance, each once, and none without a node.
pub proof fn the_nearest_ways_come_by_distance(
    parent: &Osm,
    center: Point,
    k: nat,
    out: Seq<usize>,
    i: int,
    j: int,
    r: int,
)
    requires
        is_nearest_ways(parent, center, k, out),
        0 <= i < j < out.len(),
    ensures
        out.len() <= k,
        out[i] < parent.ways.len(),
        out[j] < parent.ways.len(),
        out[i] != out[j],
        comes_within(way_points(parent, out[j] as int), center, r) ==> comes_within(
            way_points(parent, out[i] as int),
            center,
            r,
        ),
{
    let (dists, hits) = choose|dists: Distances, hits: Seq<Ranked>|
        way_distances(parent, center, dists) && #[trigger] is_ranked(dists, None, hits) && out
            == ranked_indices(first_hits(hits, k));
    assert(at_distance(dists, None, hits[i]));
    assert(at_distance(dists, None, hits[j]));
    assert(ranked_before(hits[i], hits[j]));
    if hits[i].1 == hits[j].1 {
        assert(hits[i] == hits[j]);
    }
    if comes_within(way_points(parent, out[j] as int), center, r) {
        lemma_nearer_way(parent, center, dists, hits[i].1 as int, hits[j].1 as int, r);
    }
}

} // verus!
