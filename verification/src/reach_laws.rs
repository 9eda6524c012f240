//! What the searches by distance find among relations, in terms of their members,
//! direct and nested.

use crate::covering::{
    a_covered_relation_is_a_candidate, a_covered_relation_is_a_candidate_for_a_ring, covers_members,
};
use crate::geometry::{in_polygon, Point};
use crate::lines::{line_has, line_touches, part_distance, parts, way_points};
use crate::near_laws::{
    a_line_is_as_near_as_its_nearest_point, comes_within, lemma_as_wide, lemma_dist_range,
    lemma_part_ratio,
};
use crate::osm::{Member, Osm};
use crate::query::EntityType;
use crate::reach::{
    contains_relation, is_path, is_relation_distance, member_distance, member_touches, members_have,
    members_touch, names_relation, reaches, relation_has, relation_touches, steps,
};
use crate::spatial::{dist_sq, node_point, RadiusFilter};
use crate::way_spatial::{
    at_distance, first_hits, in_limit, is_candidate_distance, is_nearest_relations,
    is_radius, is_ranked, is_relations_within, ranked_before, ranked_indices, relation_distances,
    touches_ring, Distances, Ranked,
};
use crate::wide::{lemma_ratio_chain, lemma_ratio_total, Ratio, Wide};
use vstd::prelude::*;

verus! {

/// Member `m` of relation `r` is relation `c`.
pub open spec fn is_member_relation(parent: &Osm, r: int, m: int, c: int) -> bool {
    &&& 0 <= m < parent.relation_members@[r]@.len()
    &&& parent.relation_members@[r]@[m].kind == EntityType::Relation
    &&& parent.relation_members@[r]@[m].idx is Some
    &&& parent.relation_members@[r]@[m].idx->0 == c
}

/// A relation reaches itself, and what its member relations reach, and nothing else.
pub proof fn a_relation_reaches_what_its_members_reach(parent: &Osm, r: int, c: int)
    ensures
        reaches(parent, r, c) <==> r == c || exists|m: int, x: int| #[trigger]
            is_member_relation(parent, r, m, x) && reaches(parent, x, c),
{
    if reaches(parent, r, c) && r != c {
        let path = choose|path: Seq<int>| #[trigger]
            is_path(parent, path) && path.first() == r && path.last() == c;
        assert(path.len() > 1);
        assert(steps(parent, path, 0));
        let x = path[1];
        let m = choose|m: int|
            0 <= m < parent.relation_members@[r]@.len() && names_relation(
                #[trigger] parent.relation_members@[r]@[m],
                x,
            );
        let rest = path.skip(1);
        assert forall|i: int| 0 <= i < rest.len() - 1 implies #[trigger] steps(
            parent,
            rest,
            i,
        ) by {
            assert(steps(parent, path, i + 1));
        }
        assert(is_path(parent, rest) && rest.first() == x && rest.last() == c);
        assert(is_member_relation(parent, r, m, x));
    }
    if r == c {
        let path = seq![r];
        assert(is_path(parent, path) && path.first() == r && path.last() == c);
    }
    if exists|m: int, x: int| #[trigger]
        is_member_relation(parent, r, m, x) && reaches(parent, x, c) {
        let (m, x) = choose|m: int, x: int| #[trigger]
            is_member_relation(parent, r, m, x) && reaches(parent, x, c);
        let rest = choose|path: Seq<int>| #[trigger]
            is_path(parent, path) && path.first() == x && path.last() == c;
        let path = seq![r] + rest;
        assert(names_relation(parent.relation_members@[r]@[m], x));
        assert(contains_relation(parent, r, x));
        assert forall|i: int| 0 <= i < path.len() - 1 implies #[trigger] steps(
            parent,
            path,
            i,
        ) by {
            if i > 0 {
                assert(steps(parent, rest, i - 1));
                assert(path[i] == rest[i - 1] && path[i + 1] == rest[i]);
            } else {
                assert(path[1] == rest[0]);
            }
        }
        assert(path.last() == rest.last());
        assert(is_path(parent, path) && path.first() == r && path.last() == c);
    }
}

/// The member is a node within `radius` of `p`, or a way of which some point is.
pub open spec fn member_within(parent: &Osm, member: Member, p: Point, radius: int) -> bool {
    match (member.kind, member.idx) {
        (EntityType::Node, Some(n)) => {
            let q = parent.nodes@[n as int];
            (q.lon - p.lon) * (q.lon - p.lon) + (q.lat - p.lat) * (q.lat - p.lat) <= radius * radius
        },
        (EntityType::Way, Some(w)) => comes_within(way_points(parent, w as int), p, radius),
        _ => false,
    }
}

/// Member `m` of relation `c`, which `r` reaches, is within `radius` of `p`.
pub open spec fn reaches_within(
    parent: &Osm,
    r: int,
    p: Point,
    radius: int,
    c: int,
    m: int,
) -> bool {
    &&& 0 <= c < parent.relations.len()
    &&& reaches(parent, r, c)
    &&& 0 <= m < parent.relation_members@[c]@.len()
    &&& member_within(parent, parent.relation_members@[c]@[m], p, radius)
}

/// Some member of the relation, direct or nested, is within `radius` of `p`.
pub open spec fn relation_comes_within(parent: &Osm, r: int, p: Point, radius: int) -> bool {
    exists|c: int, m: int| #[trigger] reaches_within(parent, r, p, radius, c, m)
}

/// The first `n` parts of a line have a least distance.
proof fn lemma_least_part(line: Seq<Point>, p: Point, n: int) -> (d: Ratio)
    requires
        0 < n <= parts(line),
    ensures
        d.wf(),
        exists|i: int| 0 <= i < n && #[trigger] part_distance(line, p, i, d),
        forall|i: int, e: Ratio|
            0 <= i < n && e.wf() && #[trigger] part_distance(line, p, i, e) ==> d.at_most(e),
    decreases n,
{
    let own = lemma_part_ratio(line, p, n - 1);
    if n == 1 {
        own
    } else {
        let least = lemma_least_part(line, p, n - 1);
        lemma_ratio_total(own, least);
        let d = if own.at_most(least) {
            own
        } else {
            least
        };
        assert forall|i: int, e: Ratio|
            0 <= i < n && e.wf() && #[trigger] part_distance(line, p, i, e) implies d.at_most(
            e,
        ) by {
            if i < n - 1 {
                assert(least.at_most(e));
                lemma_ratio_chain(d, least, e);
            } else {
                assert(own.at_most(e));
                lemma_ratio_chain(d, own, e);
            }
        }
        if own.at_most(least) {
            assert(part_distance(line, p, n - 1, d));
        } else {
            let i = choose|i: int| 0 <= i < n - 1 && #[trigger] part_distance(line, p, i, least);
            assert(part_distance(line, p, i, d));
        }
        d
    }
}

proof fn lemma_member_distance(parent: &Osm, member: Member, p: Point, d: Ratio, radius: int)
    requires
        member_distance(parent, member, p, d),
    ensures
        d.wf(),
        d.num.val() <= (radius * radius) * d.den <==> member_within(parent, member, p, radius),
{
    match (member.kind, member.idx) {
        (EntityType::Node, Some(n)) => {
            reveal(dist_sq);
            let q = parent.nodes@[n as int];
            let (x, y) = (q.lon - p.lon, q.lat - p.lat);
            assert(x * x == (-x) * (-x)) by (nonlinear_arith);
            assert(y * y == (-y) * (-y)) by (nonlinear_arith);
            assert((radius * radius) * 1 == radius * radius);
        },
        (EntityType::Way, Some(w)) => {
            let line = way_points(parent, w as int);
            assert(line_has(line, p, d));
            a_line_is_as_near_as_its_nearest_point(line, p, d, radius);
        },
        _ => {},
    }
}

/// A member that is within some radius has a distance.
proof fn lemma_member_has(parent: &Osm, member: Member, p: Point, radius: int) -> (d: Ratio)
    requires
        member_within(parent, member, p, radius),
    ensures
        member_distance(parent, member, p, d),
{
    match (member.kind, member.idx) {
        (EntityType::Node, Some(n)) => {
            let at = node_point(parent.nodes@[n as int]);
            lemma_dist_range(p, at);
            Ratio { num: lemma_as_wide(dist_sq(p, at)), den: 1 }
        },
        (EntityType::Way, Some(w)) => {
            let line = way_points(parent, w as int);
            let d = lemma_least_part(line, p, parts(line));
            assert(line_has(line, p, d));
            assert forall|e: Ratio| #[trigger] line_has(line, p, e) implies d.at_most(e) by {
                let i = choose|i: int|
                    0 <= i < parts(line) && #[trigger] part_distance(line, p, i, e);
                assert(part_distance(line, p, i, e));
            }
            d
        },
        _ => Ratio { num: Wide { hi: 0, lo: 0 }, den: 1 },
    }
}

proof fn lemma_relation_has(parent: &Osm, r: int, p: Point, radius: int, c: int, m: int) -> (d:
    Ratio)
    requires
        reaches_within(parent, r, p, radius, c, m),
    ensures
        relation_has(parent, r, p, d),
        d.wf(),
        d.num.val() <= (radius * radius) * d.den,
{
    let member = parent.relation_members@[c]@[m];
    let d = lemma_member_has(parent, member, p, radius);
    lemma_member_distance(parent, member, p, d, radius);
    assert(member_distance(parent, parent.relation_members@[c]@[m], p, d));
    assert(members_have(parent, c, parent.relation_members@[c]@.len() as int, p, d));
    d
}

proof fn lemma_has_within(parent: &Osm, r: int, p: Point, radius: int, d: Ratio)
    requires
        relation_has(parent, r, p, d),
    ensures
        d.wf(),
        d.num.val() <= (radius * radius) * d.den ==> relation_comes_within(parent, r, p, radius),
{
    let c = choose|c: int|
        0 <= c < parent.relations.len() && #[trigger] reaches(parent, r, c) && members_have(
            parent,
            c,
            parent.relation_members@[c]@.len() as int,
            p,
            d,
        );
    let m = choose|m: int|
        0 <= m < parent.relation_members@[c]@.len() && member_distance(
            parent,
            #[trigger] parent.relation_members@[c]@[m],
            p,
            d,
        );
    lemma_member_distance(parent, parent.relation_members@[c]@[m], p, d, radius);
    if d.num.val() <= (radius * radius) * d.den {
        assert(reaches_within(parent, r, p, radius, c, m));
    }
}

/// The distance of a relation is the least radius that some member of it, direct or
/// nested, is within.
pub proof fn a_relation_is_as_near_as_its_nearest_member(
    parent: &Osm,
    r: int,
    p: Point,
    d: Ratio,
    radius: int,
)
    requires
        is_relation_distance(parent, r, p, d),
    ensures
        d.num.val() <= (radius * radius) * d.den <==> relation_comes_within(parent, r, p, radius),
{
    lemma_has_within(parent, r, p, radius, d);
    if relation_comes_within(parent, r, p, radius) {
        let (c, m) = choose|c: int, m: int| #[trigger] reaches_within(parent, r, p, radius, c, m);
        let e = lemma_relation_has(parent, r, p, radius, c, m);
        assert(d.at_most(e));
        let (n, den, en, ed) = (d.num.val(), d.den as int, e.num.val(), e.den as int);
        let sq = radius * radius;
        assert(n <= sq * den) by (nonlinear_arith)
            requires
                n * ed <= en * den,
                en <= sq * ed,
                ed > 0,
                den > 0,
        ;
    }
}

proof fn lemma_hit_of_relation(
    parent: &Osm,
    dists: Distances,
    limit: Option<Ratio>,
    hits: Seq<Ranked>,
    r: usize,
)
    requires
        dists.len() == parent.relations.len(),
        is_ranked(dists, limit, hits),
    ensures
        ranked_indices(hits).contains(r) <==> r < parent.relations.len() && dists[r as int] is Some
            && in_limit(dists[r as int]->0, limit),
{
    let out = ranked_indices(hits);
    if out.contains(r) {
        let k = choose|k: int| 0 <= k < out.len() && out[k] == r;
        assert(at_distance(dists, limit, hits[k]));
    }
    if r < parent.relations.len() && dists[r as int] is Some && in_limit(
        dists[r as int]->0,
        limit,
    ) {
        let hit = (dists[r as int]->0, r);
        assert(at_distance(dists, limit, hit));
        let k = choose|k: int| 0 <= k < hits.len() && hits[k] == hit;
        assert(out[k] == r);
    }
}

/// The relations within a radius have a member within it, and every relation with
/// one is found whose stored extent covers its members.
pub proof fn relations_within_are_those_that_come_within(
    parent: &Osm,
    center: Point,
    radius: i32,
    out: Seq<usize>,
    r: usize,
)
    requires
        is_relations_within(parent, center, radius, out),
    ensures
        out.contains(r) ==> radius >= 0 && r < parent.relations.len() && relation_comes_within(
            parent,
            r as int,
            center,
            radius as int,
        ),
        radius >= 0 && r < parent.relations.len() && parent.relations@[r as int].extent is Some
            && covers_members(parent, r as int, parent.relations@[r as int].extent->0)
            && relation_comes_within(parent, r as int, center, radius as int) ==> out.contains(r),
{
    if radius >= 0 {
        let (filter, dists, limit, hits) = choose|
            filter: RadiusFilter,
            dists: Distances,
            limit: Ratio,
            hits: Seq<Ranked>,
        |
            filter.describes(center, radius) && is_radius(limit, radius)
                && #[trigger] relation_distances(parent, center, Some(filter.bbox), dists)
                && #[trigger] is_ranked(dists, Some(limit), hits) && out == ranked_indices(hits);
        lemma_hit_of_relation(parent, dists, Some(limit), hits, r);
        if r < parent.relations.len() {
            let i = r as int;
            assert(is_candidate_distance(parent, center, Some(filter.bbox), i, dists[i]));
            if dists[i] is Some {
                let d = dists[i]->0;
                a_relation_is_as_near_as_its_nearest_member(parent, i, center, d, radius as int);
                assert(d.num.val() * 1 == d.num.val());
            } else if parent.relations@[i].extent is Some && covers_members(
                parent,
                i,
                parent.relations@[i].extent->0,
            ) && relation_comes_within(parent, i, center, radius as int) {
                let (c, m) = choose|c: int, m: int| #[trigger]
                    reaches_within(parent, i, center, radius as int, c, m);
                let e = lemma_relation_has(parent, i, center, radius as int, c, m);
                assert(e.num.val() * 1 == e.num.val());
                assert(e.at_most(limit));
                a_covered_relation_is_a_candidate(parent, i, center, radius, filter, limit, e);
            }
        }
    }
}

proof fn lemma_nearer_relation(
    parent: &Osm,
    center: Point,
    dists: Distances,
    q: int,
    r: int,
    radius: int,
)
    requires
        relation_distances(parent, center, None, dists),
        0 <= q < dists.len(),
        0 <= r < dists.len(),
        dists[q] is Some,
        dists[r] is Some,
        dists[q]->0.at_most(dists[r]->0),
        relation_comes_within(parent, r, center, radius),
    ensures
        relation_comes_within(parent, q, center, radius),
{
    assert(is_candidate_distance(parent, center, None, q, dists[q]));
    assert(is_candidate_distance(parent, center, None, r, dists[r]));
    let (d, e) = (dists[q]->0, dists[r]->0);
    a_relation_is_as_near_as_its_nearest_member(parent, q, center, d, radius);
    a_relation_is_as_near_as_its_nearest_member(parent, r, center, e, radius);
    lemma_has_within(parent, q, center, radius, d);
    lemma_has_within(parent, r, center, radius, e);
    let (n, p, m, s) = (d.num.val(), d.den as int, e.num.val(), e.den as int);
    let sq = radius * radius;
    assert(n <= sq * p) by (nonlinear_arith)
        requires
            n * s <= m * p,
            m <= sq * s,
            p > 0,
            s > 0,
    ;
}

/// Relations that are equally far come by index.
proof fn lemma_order_of_relations(
    parent: &Osm,
    center: Point,
    a: Ranked,
    b: Ranked,
    d: Ratio,
    e: Ratio,
)
    requires
        is_relation_distance(parent, a.1 as int, center, a.0),
        is_relation_distance(parent, b.1 as int, center, b.0),
        ranked_before(a, b),
        is_relation_distance(parent, a.1 as int, center, d),
        is_relation_distance(parent, b.1 as int, center, e),
    ensures
        d.at_most(e),
        e.at_most(d) ==> a.1 < b.1,
{
    lemma_has_within(parent, a.1 as int, center, 0, a.0);
    lemma_has_within(parent, b.1 as int, center, 0, b.0);
    lemma_has_within(parent, a.1 as int, center, 0, d);
    lemma_has_within(parent, b.1 as int, center, 0, e);
    lemma_ratio_chain(d, a.0, b.0);
    lemma_ratio_chain(d, b.0, e);
    if e.at_most(d) {
        lemma_ratio_chain(b.0, e, d);
        lemma_ratio_chain(b.0, d, a.0);
    }
}

/// The relations within a radius come by distance, and those equally far by index.
pub proof fn relations_within_come_by_distance(
    parent: &Osm,
    center: Point,
    radius: i32,
    out: Seq<usize>,
    j: int,
    k: int,
    d: Ratio,
    e: Ratio,
)
    requires
        is_relations_within(parent, center, radius, out),
        0 <= j < k < out.len(),
        is_relation_distance(parent, out[j] as int, center, d),
        is_relation_distance(parent, out[k] as int, center, e),
    ensures
        d.at_most(e),
        e.at_most(d) ==> out[j] < out[k],
{
    let (filter, dists, limit, hits) = choose|
        filter: RadiusFilter,
        dists: Distances,
        limit: Ratio,
        hits: Seq<Ranked>,
    |
        filter.describes(center, radius) && is_radius(limit, radius)
            && #[trigger] relation_distances(parent, center, Some(filter.bbox), dists)
            && #[trigger] is_ranked(dists, Some(limit), hits) && out == ranked_indices(hits);
    assert(at_distance(dists, Some(limit), hits[j]));
    assert(at_distance(dists, Some(limit), hits[k]));
    assert(ranked_before(hits[j], hits[k]));
    let (a, b) = (hits[j].1 as int, hits[k].1 as int);
    assert(is_candidate_distance(parent, center, Some(filter.bbox), a, dists[a]));
    assert(is_candidate_distance(parent, center, Some(filter.bbox), b, dists[b]));
    lemma_order_of_relations(parent, center, hits[j], hits[k], d, e);
}

/// Relations that are equally far come by index, among the nearest.
pub proof fn nearest_relations_that_are_equally_far_come_by_index(
    parent: &Osm,
    center: Point,
    n: nat,
    out: Seq<usize>,
    j: int,
    k: int,
    d: Ratio,
    e: Ratio,
)
    requires
        is_nearest_relations(parent, center, n, out),
        0 <= j < k < out.len(),
        is_relation_distance(parent, out[j] as int, center, d),
        is_relation_distance(parent, out[k] as int, center, e),
    ensures
        d.at_most(e),
        e.at_most(d) ==> out[j] < out[k],
{
    let (dists, hits) = choose|dists: Distances, hits: Seq<Ranked>|
        relation_distances(parent, center, None, dists) && #[trigger] is_ranked(dists, None, hits)
            && out == ranked_indices(first_hits(hits, n));
    assert(at_distance(dists, None, hits[j]));
    assert(at_distance(dists, None, hits[k]));
    assert(ranked_before(hits[j], hits[k]));
    let (a, b) = (hits[j].1 as int, hits[k].1 as int);
    assert(is_candidate_distance(parent, center, None, a, dists[a]));
    assert(is_candidate_distance(parent, center, None, b, dists[b]));
    lemma_order_of_relations(parent, center, hits[j], hits[k], d, e);
}

/// The nearest relations: at most as many as were asked for, each once, with an
/// extent, by distance.
pub proof fn the_nearest_relations_come_by_distance(
    parent: &Osm,
    center: Point,
    k: nat,
    out: Seq<usize>,
    i: int,
    j: int,
    radius: int,
)
    requires
        is_nearest_relations(parent, center, k, out),
        0 <= i < j < out.len(),
    ensures
        out.len() <= k,
        out[i] != out[j],
        out[i] < parent.relations.len() && parent.relations@[out[i] as int].extent is Some,
        out[j] < parent.relations.len() && parent.relations@[out[j] as int].extent is Some,
        relation_comes_within(parent, out[j] as int, center, radius) ==> relation_comes_within(
            parent,
            out[i] as int,
            center,
            radius,
        ),
{
    let (dists, hits) = choose|dists: Distances, hits: Seq<Ranked>|
        relation_distances(parent, center, None, dists) && #[trigger] is_ranked(dists, None, hits)
            && out == ranked_indices(first_hits(hits, k));
    assert(at_distance(dists, None, hits[i]));
    assert(at_distance(dists, None, hits[j]));
    assert(ranked_before(hits[i], hits[j]));
    let (a, b) = (hits[i].1 as int, hits[j].1 as int);
    assert(is_candidate_distance(parent, center, None, a, dists[a]));
    assert(is_candidate_distance(parent, center, None, b, dists[b]));
    if a == b {
        assert(hits[i] == hits[j]);
    }
    if relation_comes_within(parent, b, center, radius) {
        lemma_nearer_relation(parent, center, dists, a, b, radius);
    }
}

/// A relation with an extent that comes within some radius is among the nearest,
/// unless as many as were asked for come within that radius too.
pub proof fn the_nearest_relations_are_no_farther_than_others(
    parent: &Osm,
    center: Point,
    k: nat,
    out: Seq<usize>,
    r: usize,
    j: int,
    radius: int,
)
    requires
        is_nearest_relations(parent, center, k, out),
        r < parent.relations.len(),
        parent.relations@[r as int].extent is Some,
        relation_comes_within(parent, r as int, center, radius),
        !out.contains(r),
    ensures
        out.len() == k,
        0 <= j < k ==> relation_comes_within(parent, out[j] as int, center, radius),
{
    let (dists, hits) = choose|dists: Distances, hits: Seq<Ranked>|
        relation_distances(parent, center, None, dists) && #[trigger] is_ranked(dists, None, hits)
            && out == ranked_indices(first_hits(hits, k));
    let first = first_hits(hits, k);
    lemma_hit_of_relation(parent, dists, None, hits, r);
    assert(is_candidate_distance(parent, center, None, r as int, dists[r as int]));
    assert(dists[r as int] is Some) by {
        let (c, m) = choose|c: int, m: int| #[trigger]
            reaches_within(parent, r as int, center, radius, c, m);
        let e = lemma_relation_has(parent, r as int, center, radius, c, m);
        assert(relation_has(parent, r as int, center, e));
    }
    let all = ranked_indices(hits);
    let m = choose|m: int| 0 <= m < all.len() && all[m] == r;
    assert(at_distance(dists, None, hits[m]));
    if m < first.len() {
        assert(first[m] == hits[m]);
        assert(out[m] == r);
    }
    assert(first.len() == k);
    if 0 <= j < k {
        assert(first[j] == hits[j]);
        assert(at_distance(dists, None, hits[j]));
        assert(ranked_before(hits[j], hits[m]));
        lemma_nearer_relation(parent, center, dists, hits[j].1 as int, r as int, radius);
    }
}

/// The member is a node in the polygon, or a way that touches it.
pub open spec fn member_enters(parent: &Osm, c: int, m: int, ring: Seq<Point>) -> bool {
    let member = parent.relation_members@[c]@[m];
    &&& 0 <= m < parent.relation_members@[c]@.len()
    &&& member.idx is Some
    &&& (member.kind == EntityType::Node && in_polygon(
        node_point(parent.nodes@[member.idx->0 as int]),
        ring,
    )) || (member.kind == EntityType::Way && line_touches(
        way_points(parent, member.idx->0 as int),
        ring,
    ))
}

/// Member `m` of relation `c`, which `r` reaches, enters the polygon.
pub open spec fn reaches_into(parent: &Osm, r: int, ring: Seq<Point>, c: int, m: int) -> bool {
    0 <= c < parent.relations.len() && reaches(parent, r, c) && member_enters(parent, c, m, ring)
}

/// A relation touches a polygon exactly where some member of it, direct or nested,
/// is a node in the polygon or a way that touches it.
pub proof fn a_relation_touches_what_its_members_enter(parent: &Osm, r: int, ring: Seq<Point>)
    ensures
        relation_touches(parent, r, ring) <==> exists|c: int, m: int| #[trigger]
            reaches_into(parent, r, ring, c, m),
{
    if relation_touches(parent, r, ring) {
        let c = choose|c: int|
            0 <= c < parent.relations.len() && #[trigger] reaches(parent, r, c) && members_touch(
                parent,
                c,
                ring,
            );
        let m = choose|m: int|
            0 <= m < parent.relation_members@[c]@.len() && member_touches(
                parent,
                #[trigger] parent.relation_members@[c]@[m],
                ring,
            );
        assert(reaches_into(parent, r, ring, c, m));
    }
    if exists|c: int, m: int| #[trigger] reaches_into(parent, r, ring, c, m) {
        let (c, m) = choose|c: int, m: int| #[trigger] reaches_into(parent, r, ring, c, m);
        assert(member_touches(parent, parent.relation_members@[c]@[m], ring));
        assert(members_touch(parent, c, ring));
    }
}

/// A relation is found in a polygon only where some member of it enters the polygon,
/// and every relation with such a member is found whose stored extent covers its
/// members.
pub proof fn relations_in_a_polygon_are_those_that_enter_it(
    parent: &Osm,
    r: int,
    ring: Seq<Point>,
)
    requires
        0 <= r < parent.relations.len(),
        ring.len() > 0,
    ensures
        touches_ring(parent, ring, r) ==> exists|c: int, m: int| #[trigger]
            reaches_into(parent, r, ring, c, m),
        parent.relations@[r].extent is Some && covers_members(
            parent,
            r,
            parent.relations@[r].extent->0,
        ) && (exists|c: int, m: int| #[trigger] reaches_into(parent, r, ring, c, m))
            ==> touches_ring(parent, ring, r),
{
    a_relation_touches_what_its_members_enter(parent, r, ring);
    if parent.relations@[r].extent is Some && covers_members(
        parent,
        r,
        parent.relations@[r].extent->0,
    ) && relation_touches(parent, r, ring) {
        a_covered_relation_is_a_candidate_for_a_ring(parent, r, ring);
    }
}

} // verus!
