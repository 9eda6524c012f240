//! Why candidates by extent suffice: a relation whose stored extent covers its
//! members is not missed, and rankings by distance have one outcome.

use crate::geometry::{cross, in_polygon, previous, Point};
use crate::lines::{
    edge_meets, is_line_distance, line_has, line_touches, part_distance, parts, touches_from,
    way_points,
};
use crate::osm::{Extent, Osm};
use crate::query::{Bbox, EntityType};
use crate::reach::{
    member_distance, member_touches, members_have, members_touch, reaches, relation_has,
    relation_touches,
};
use crate::segments::{
    along, is_segment_distance, lemma_distribute, lemma_expand, lemma_lengths, meeting_is_mutual,
    opposite, segments_meet,
};
use crate::spatial::{
    a_polygon_lies_in_its_bbox, bbox_holds, bounds, dist_sq, node_point, ring_bbox, RadiusFilter,
};
use crate::way_spatial::{
    at_distance, is_radius, is_ranked, ranked_before, Distances, Ranked,
};
use crate::wide::Ratio;
use vstd::prelude::*;

verus! {

/// The point lies in the extent.
pub open spec fn extent_holds(e: Extent, p: Point) -> bool {
    e.min_lon <= p.lon <= e.max_lon && e.min_lat <= p.lat <= e.max_lat
}

/// Every point of the line lies in the extent.
pub open spec fn extent_holds_line(e: Extent, line: Seq<Point>) -> bool {
    forall|i: int| 0 <= i < line.len() ==> extent_holds(e, #[trigger] line[i])
}

/// The members of `c` lie in the extent.
pub open spec fn extent_holds_members(parent: &Osm, c: int, e: Extent) -> bool {
    forall|m: int|
        0 <= m < parent.relation_members@[c]@.len() ==> extent_holds_member(
            parent,
            e,
            c,
            m,
        )
}

/// Member `m` of `c` lies in the extent.
pub open spec fn extent_holds_member(parent: &Osm, e: Extent, c: int, m: int) -> bool {
    let member = parent.relation_members@[c]@[m];
    match (member.kind, member.idx) {
        (EntityType::Node, Some(n)) => extent_holds(e, node_point(parent.nodes@[n as int])),
        (EntityType::Way, Some(w)) => extent_holds_line(e, way_points(parent, w as int)),
        _ => true,
    }
}

/// The extent covers the member geometry of relation `r`.
pub open spec fn covers_members(parent: &Osm, r: int, e: Extent) -> bool {
    forall|c: int|
        0 <= c < parent.relations.len() && #[trigger] reaches(parent, r, c)
            ==> extent_holds_members(parent, c, e)
}

/// Both offsets lie beyond `r` on the same side.
spec fn beyond(x: int, y: int, r: int) -> bool {
    (x < -r && y < -r) || (x > r && y > r)
}

/// What lies beyond `r` on one axis is farther than `r`.
proof fn lemma_axis(x: int, y: int, r: int)
    requires
        r >= 0,
        x < -r || x > r,
    ensures
        x * x + y * y > r * r,
{
    assert(x * x > r * r) by (nonlinear_arith)
        requires
            r >= 0,
            x < -r || x > r,
    ;
    assert(y * y >= 0) by (nonlinear_arith);
}

/// Where both ends of a segment lie beyond `r` on one side, so does the foot of
/// the perpendicular.
proof fn lemma_perpendicular(x: int, y: int, vx: int, vy: int, r: int)
    requires
        r >= 0,
        beyond(x, x - vx, r),
        0 < vx * x + vy * y < vx * vx + vy * vy,
    ensures
        (vx * y - vy * x) * (vx * y - vy * x) > r * r * (vx * vx + vy * vy),
{
    let (s, t) = (vx * x + vy * y, vx * vx + vy * vy);
    let c = vx * y - vy * x;
    let u = x * x + y * y;
    let off = t * x - s * vx;
    let other = t * y - s * vy;
    // The foot lies between the ends, and so beyond `r` too.
    assert(off == (t - s) * x + s * (x - vx)) by (nonlinear_arith)
        requires
            off == t * x - s * vx,
    ;
    let q = r + 1;
    if x < -r {
        assert((t - s) * x <= (t - s) * -q) by (nonlinear_arith)
            requires
                t - s >= 0,
                x <= -q,
        ;
        assert(s * (x - vx) <= s * -q) by (nonlinear_arith)
            requires
                s >= 0,
                x - vx <= -q,
        ;
        assert((t - s) * -q + s * -q == -(t * q)) by (nonlinear_arith);
        assert(off <= -(t * q));
    } else {
        assert((t - s) * x >= (t - s) * q) by (nonlinear_arith)
            requires
                t - s >= 0,
                x >= q,
        ;
        assert(s * (x - vx) >= s * q) by (nonlinear_arith)
            requires
                s >= 0,
                x - vx >= q,
        ;
        assert((t - s) * q + s * q == t * q) by (nonlinear_arith);
        assert(off >= t * q);
    }
    let tq = t * q;
    assert(tq >= 0) by (nonlinear_arith)
        requires
            tq == t * q,
            t >= 0,
            q >= 0,
    ;
    assert(off * off >= tq * tq) by (nonlinear_arith)
        requires
            off <= -tq || off >= tq,
            tq >= 0,
    ;
    assert(other * other >= 0) by (nonlinear_arith);
    // The square of the foot's distance, scaled.
    lemma_expand(t, s, x, vx);
    lemma_expand(t, s, y, vy);
    lemma_distribute(t * t, x * x, y * y);
    lemma_distribute(2 * (s * t), vx * x, vy * y);
    lemma_distribute(s * s, vx * vx, vy * vy);
    assert(off * off + other * other == t * t * u - 2 * (s * t) * s + s * s * t);
    lemma_lengths(x, y, vx, vy);
    assert(u * t == c * c + s * s);
    assert(t * t * u - 2 * (s * t) * s + s * s * t == t * (c * c)) by {
        assert(t * t * u == t * (u * t)) by (nonlinear_arith);
        lemma_distribute(t, c * c, s * s);
        assert((s * t) * s == t * (s * s)) by (nonlinear_arith);
        assert(2 * (s * t) * s == 2 * ((s * t) * s)) by (nonlinear_arith);
        assert(s * s * t == t * (s * s)) by (nonlinear_arith);
    }
    assert(t * (c * c) >= tq * tq);
    assert(tq * tq == t * (t * (q * q))) by (nonlinear_arith)
        requires
            tq == t * q,
    ;
    let (cc, tqq) = (c * c, t * (q * q));
    assert(cc >= tqq) by (nonlinear_arith)
        requires
            t * cc >= t * tqq,
            t > 0,
    ;
    assert(q * q > r * r) by (nonlinear_arith)
        requires
            q == r + 1,
            r >= 0,
    ;
    let (qq, rr) = (q * q, r * r);
    assert(t * qq > rr * t) by (nonlinear_arith)
        requires
            qq > rr,
            t > 0,
    ;
}

/// A segment whose ends lie beyond `r` on one side is farther than `r`.
proof fn lemma_segment_beyond(p: Point, a: Point, b: Point, d: Ratio, r: int)
    requires
        r >= 0,
        is_segment_distance(p, a, b, d),
        beyond(p.lon - a.lon, p.lon - b.lon, r) || beyond(p.lat - a.lat, p.lat - b.lat, r),
    ensures
        d.num.val() > r * r * d.den,
{
    reveal(along);
    reveal(dist_sq);
    reveal(cross);
    let (ux, uy) = (p.lon - a.lon, p.lat - a.lat);
    let (wx, wy) = (p.lon - b.lon, p.lat - b.lat);
    let (vx, vy) = (b.lon - a.lon, b.lat - a.lat);
    assert(dist_sq(a, b) == vx * vx + vy * vy) by (nonlinear_arith)
        requires
            dist_sq(a, b) == (0 - vx) * (0 - vx) + (0 - vy) * (0 - vy),
    ;
    assert(r * r * 1 == r * r);
    if beyond(ux, wx, r) {
        lemma_axis(ux, uy, r);
        lemma_axis(wx, wy, r);
        if 0 < along(a, b, p) < dist_sq(a, b) {
            lemma_perpendicular(ux, uy, vx, vy, r);
        }
    } else {
        lemma_axis(uy, ux, r);
        lemma_axis(wy, wx, r);
        if 0 < along(a, b, p) < dist_sq(a, b) {
            assert(vy * uy + vx * ux == along(a, b, p));
            lemma_perpendicular(uy, ux, vy, vx, r);
            let c = vx * uy - vy * ux;
            assert((vy * ux - vx * uy) * (vy * ux - vx * uy) == c * c) by (nonlinear_arith)
                requires
                    c == vx * uy - vy * ux,
            ;
        }
    }
}

/// The extent lies beyond `r` from the point on one side.
spec fn apart(e: Extent, p: Point, r: int) -> bool {
    e.min_lon > p.lon + r || e.max_lon < p.lon - r || e.min_lat > p.lat + r || e.max_lat < p.lat - r
}

proof fn lemma_point_apart(p: Point, a: Point, e: Extent, r: int)
    requires
        r >= 0,
        extent_holds(e, a),
        apart(e, p, r),
    ensures
        dist_sq(p, a) > r * r,
{
    reveal(dist_sq);
    let (x, y) = (p.lon - a.lon, p.lat - a.lat);
    if x < -r || x > r {
        lemma_axis(x, y, r);
    } else {
        lemma_axis(y, x, r);
    }
}

proof fn lemma_line_apart(line: Seq<Point>, p: Point, d: Ratio, e: Extent, r: int)
    requires
        r >= 0,
        extent_holds_line(e, line),
        apart(e, p, r),
        line_has(line, p, d),
    ensures
        d.num.val() > r * r * d.den,
{
    let i = choose|i: int| 0 <= i < parts(line) && #[trigger] part_distance(line, p, i, d);
    assert(extent_holds(e, line[i]));
    if line.len() == 1 {
        lemma_point_apart(p, line[0], e, r);
        assert(r * r * 1 == r * r);
    } else {
        assert(extent_holds(e, line[i + 1]));
        lemma_segment_beyond(p, line[i], line[i + 1], d, r);
    }
}

/// A relation whose stored extent covers its members is not missed: where a
/// member of it lies within the radius, its extent meets the box that the
/// candidates are found by.
pub proof fn a_covered_relation_is_a_candidate(
    parent: &Osm,
    r: int,
    center: Point,
    radius: i32,
    filter: RadiusFilter,
    limit: Ratio,
    d: Ratio,
)
    requires
        0 <= r < parent.relations.len(),
        parent.relations@[r].extent is Some,
        covers_members(parent, r, parent.relations@[r].extent->0),
        filter.describes(center, radius),
        is_radius(limit, radius),
        relation_has(parent, r, center, d),
        d.at_most(limit),
    ensures
        filter.bbox.meets_relation(parent.relations@[r]),
{
    let e = parent.relations@[r].extent->0;
    let q = radius as int;
    if apart(e, center, q) {
        let c = choose|c: int|
            0 <= c < parent.relations.len() && #[trigger] reaches(parent, r, c) && members_have(
                parent,
                c,
                parent.relation_members@[c]@.len() as int,
                center,
                d,
            );
        let m = choose|m: int|
            0 <= m < parent.relation_members@[c]@.len() && member_distance(
                parent,
                #[trigger] parent.relation_members@[c]@[m],
                center,
                d,
            );
        assert(extent_holds_member(parent, e, c, m));
        let member = parent.relation_members@[c]@[m];
        match (member.kind, member.idx) {
            (EntityType::Node, Some(n)) => {
                lemma_point_apart(center, node_point(parent.nodes@[n as int]), e, q);
                assert(q * q * 1 == q * q);
            },
            (EntityType::Way, Some(w)) => {
                let line = way_points(parent, w as int);
                assert(is_line_distance(line, center, d));
                lemma_line_apart(line, center, d, e, q);
            },
            _ => {},
        }
        assert(d.num.val() > q * q * d.den);
        assert(d.num.val() * 1 == d.num.val());
    }
}

/// The point with its coordinates exchanged.
spec fn turned(p: Point) -> Point {
    Point { lon: p.lat, lat: p.lon }
}

proof fn lemma_turned(a: Point, b: Point, c: Point)
    ensures
        cross(turned(a), turned(b), turned(c)) == -cross(a, b, c),
{
    reveal(cross);
}

/// Segments meet with their coordinates exchanged too.
proof fn lemma_meet_turned(a: Point, b: Point, c: Point, d: Point)
    requires
        segments_meet(a, b, c, d),
    ensures
        segments_meet(turned(a), turned(b), turned(c), turned(d)),
{
    lemma_turned(c, d, a);
    lemma_turned(c, d, b);
    lemma_turned(a, b, c);
    lemma_turned(a, b, d);
}

/// Two segments on either side of a line do not pass between each other's ends:
/// everything is relative to the start of the first.
proof fn lemma_no_passing(bx: int, by: int, cx: int, cy: int, dx: int, dy: int, x: int)
    requires
        0 > x,
        bx > x,
        cx <= x,
        dx <= x,
    ensures
        !(opposite(
            (dx - cx) * (0 - cy) - (dy - cy) * (0 - cx),
            (dx - cx) * (by - cy) - (dy - cy) * (bx - cx),
        ) && opposite(bx * cy - by * cx, bx * dy - by * dx)),
{
    let da = (dx - cx) * (0 - cy) - (dy - cy) * (0 - cx);
    let db = (dx - cx) * (by - cy) - (dy - cy) * (bx - cx);
    let dc = bx * cy - by * cx;
    let dd = bx * dy - by * dx;
    assert(da == cx * dy - dx * cy) by (nonlinear_arith)
        requires
            da == (dx - cx) * (0 - cy) - (dy - cy) * (0 - cx),
    ;
    assert((dx - cx) * (by - cy) == dx * by - dx * cy - cx * by + cx * cy) by (nonlinear_arith);
    assert((dy - cy) * (bx - cx) == bx * dy - dy * cx - bx * cy + cy * cx) by (nonlinear_arith);
    assert(cx * cy == cy * cx && dy * cx == cx * dy && dx * by == by * dx && cx * by == by * cx)
        by (nonlinear_arith);
    assert(da - db == dd - dc);
    assert(bx * da == cx * dd - dx * dc) by {
        let (p, q) = (cx * dy, dx * cy);
        assert(bx * (p - q) == bx * p - bx * q) by (nonlinear_arith);
        let (r, s) = (bx * dy, by * dx);
        assert(cx * (r - s) == cx * r - cx * s) by (nonlinear_arith);
        let (t, u) = (bx * cy, by * cx);
        assert(dx * (t - u) == dx * t - dx * u) by (nonlinear_arith);
        assert(bx * (cx * dy) == cx * (bx * dy)) by (nonlinear_arith);
        assert(bx * (dx * cy) == dx * (bx * cy)) by (nonlinear_arith);
        assert(cx * (by * dx) == dx * (by * cx)) by (nonlinear_arith);
    }
    if opposite(da, db) && opposite(dc, dd) {
        assert(x * da - x * db == x * dd - x * dc) by (nonlinear_arith)
            requires
                da - db == dd - dc,
        ;
        if da > 0 {
            assert(bx * da > x * da) by (nonlinear_arith)
                requires
                    bx > x,
                    da > 0,
            ;
            assert(x * db > 0) by (nonlinear_arith)
                requires
                    x < 0,
                    db < 0,
            ;
            assert(cx * dd <= x * dd) by (nonlinear_arith)
                requires
                    cx <= x,
                    dd > 0,
            ;
            assert(dx * dc >= x * dc) by (nonlinear_arith)
                requires
                    dx <= x,
                    dc < 0,
            ;
        } else {
            assert(bx * da < x * da) by (nonlinear_arith)
                requires
                    bx > x,
                    da < 0,
            ;
            assert(x * db < 0) by (nonlinear_arith)
                requires
                    x < 0,
                    db > 0,
            ;
            assert(cx * dd >= x * dd) by (nonlinear_arith)
                requires
                    cx <= x,
                    dd < 0,
            ;
            assert(dx * dc <= x * dc) by (nonlinear_arith)
                requires
                    dx <= x,
                    dc > 0,
            ;
        }
    }
}

/// Segments on either side of a meridian do not meet.
proof fn lemma_apart_do_not_meet(a: Point, b: Point, c: Point, d: Point, x: int)
    requires
        a.lon > x,
        b.lon > x,
        c.lon <= x,
        d.lon <= x,
    ensures
        !segments_meet(a, b, c, d),
        !segments_meet(c, d, a, b),
{
    meeting_is_mutual(a, b, c, d);
    reveal(cross);
    lemma_no_passing(
        b.lon - a.lon,
        b.lat - a.lat,
        c.lon - a.lon,
        c.lat - a.lat,
        d.lon - a.lon,
        d.lat - a.lat,
        x - a.lon,
    );
}

/// Segments in boxes that have no point in common do not meet.
proof fn lemma_boxes_apart(e: Extent, bbox: Bbox, a: Point, b: Point, c: Point, d: Point)
    requires
        extent_holds(e, a),
        extent_holds(e, b),
        bbox_holds(bbox, c),
        bbox_holds(bbox, d),
        !bbox.meets_extent(e),
    ensures
        !segments_meet(a, b, c, d),
{
    if segments_meet(a, b, c, d) {
        lemma_meet_turned(a, b, c, d);
        if e.min_lon > bbox.max_lon {
            lemma_apart_do_not_meet(a, b, c, d, bbox.max_lon as int);
        } else if e.max_lon < bbox.min_lon {
            lemma_apart_do_not_meet(c, d, a, b, e.max_lon as int);
        } else if e.min_lat > bbox.max_lat {
            lemma_apart_do_not_meet(
                turned(a),
                turned(b),
                turned(c),
                turned(d),
                bbox.max_lat as int,
            );
        } else {
            lemma_apart_do_not_meet(turned(c), turned(d), turned(a), turned(b), e.max_lat as int);
        }
    }
}

/// The box of a ring holds its vertices.
proof fn lemma_ring_bounds(ring: Seq<Point>)
    requires
        ring.len() > 0,
    ensures
        bounds(ring, ring_bbox(ring)),
    decreases ring.len(),
{
    if ring.len() > 1 {
        let fewer = ring.drop_last();
        lemma_ring_bounds(fewer);
        assert forall|i: int| 0 <= i < ring.len() implies bbox_holds(
            ring_bbox(ring),
            #[trigger] ring[i],
        ) by {
            if i < fewer.len() {
                assert(bbox_holds(ring_bbox(fewer), fewer[i]));
            }
        }
    }
}

/// A line in an extent that does not meet a ring's box does not touch the ring.
proof fn lemma_line_misses(line: Seq<Point>, ring: Seq<Point>, e: Extent)
    requires
        ring.len() > 0,
        extent_holds_line(e, line),
        !ring_bbox(ring).meets_extent(e),
    ensures
        !line_touches(line, ring),
{
    let bbox = ring_bbox(ring);
    lemma_ring_bounds(ring);
    if line_touches(line, ring) {
        let i = choose|i: int| 0 <= i < line.len() && #[trigger] touches_from(line, ring, i);
        assert(extent_holds(e, line[i]));
        if in_polygon(line[i], ring) {
            a_polygon_lies_in_its_bbox(line[i], ring, bbox);
        } else {
            assert(extent_holds(e, line[i + 1]));
            let j = choose|j: int|
                0 <= j < ring.len() && #[trigger] edge_meets(line[i], line[i + 1], ring, j);
            assert(bbox_holds(bbox, ring[j]));
            if j == 0 {
                assert(bbox_holds(bbox, ring[ring.len() - 1]));
            } else {
                assert(bbox_holds(bbox, ring[j - 1]));
            }
            lemma_boxes_apart(e, bbox, line[i], line[i + 1], previous(ring, j), ring[j]);
        }
    }
}

/// A relation whose stored extent covers its members is not missed: where a part
/// of it touches a ring, its extent meets the box that the candidates are found
/// by.
pub proof fn a_covered_relation_is_a_candidate_for_a_ring(parent: &Osm, r: int, ring: Seq<Point>)
    requires
        ring.len() > 0,
        0 <= r < parent.relations.len(),
        parent.relations@[r].extent is Some,
        covers_members(parent, r, parent.relations@[r].extent->0),
        relation_touches(parent, r, ring),
    ensures
        ring_bbox(ring).meets_relation(parent.relations@[r]),
{
    let e = parent.relations@[r].extent->0;
    let bbox = ring_bbox(ring);
    if !bbox.meets_extent(e) {
        let c = choose|c: int|
            0 <= c < parent.relations.len() && #[trigger] reaches(parent, r, c) && members_touch(
                parent,
                c,
                ring,
            );
        let m = choose|m: int|
            0 <= m < parent.relation_members@[c]@.len() && member_touches(
                parent,
                #[trigger] parent.relation_members@[c]@[m],
                ring,
            );
        assert(extent_holds_member(parent, e, c, m));
        let member = parent.relation_members@[c]@[m];
        match (member.kind, member.idx) {
            (EntityType::Node, Some(n)) => {
                lemma_ring_bounds(ring);
                a_polygon_lies_in_its_bbox(node_point(parent.nodes@[n as int]), ring, bbox);
            },
            (EntityType::Way, Some(w)) => {
                lemma_line_misses(way_points(parent, w as int), ring, e);
            },
            _ => {},
        }
    }
}

/// Rankings by distance have one outcome.
pub proof fn a_ranking_by_distance_is_determined(
    dists: Distances,
    limit: Option<Ratio>,
    a: Seq<Ranked>,
    b: Seq<Ranked>,
)
    requires
        is_ranked(dists, limit, a),
        is_ranked(dists, limit, b),
    ensures
        a == b,
{
    assert forall|hit: Ranked| #[trigger] a.contains(hit) <==> b.contains(hit) by {
        if a.contains(hit) {
            let k = choose|k: int| 0 <= k < a.len() && a[k] == hit;
            assert(at_distance(dists, limit, a[k]));
        }
        if b.contains(hit) {
            let k = choose|k: int| 0 <= k < b.len() && b[k] == hit;
            assert(at_distance(dists, limit, b[k]));
        }
    }
    lemma_same_order(a, b, 0);
}

/// Two lists in order with the same hits agree from `i` on, where they agree up
/// to `i`.
proof fn lemma_same_order(a: Seq<Ranked>, b: Seq<Ranked>, i: int)
    requires
        forall|x: int, y: int|
            0 <= x < y < a.len() ==> ranked_before(#[trigger] a[x], #[trigger] a[y]),
        forall|x: int, y: int|
            0 <= x < y < b.len() ==> ranked_before(#[trigger] b[x], #[trigger] b[y]),
        forall|hit: Ranked| #[trigger] a.contains(hit) <==> b.contains(hit),
        0 <= i <= a.len(),
        0 <= i <= b.len(),
        forall|k: int| 0 <= k < i ==> #[trigger] a[k] == b[k],
    ensures
        a == b,
    decreases a.len() - i,
{
    if i < a.len() {
        assert(a.contains(a[i]));
        let j = choose|j: int| 0 <= j < b.len() && b[j] == a[i];
        if j < i {
            assert(a[j] == b[j]);
            assert(ranked_before(a[j], a[i]));
        }
        assert(a.contains(b[i]) <==> b.contains(b[i]));
        let k = choose|k: int| 0 <= k < a.len() && a[k] == b[i];
        if k < i {
            assert(a[k] == b[k]);
            assert(ranked_before(b[k], b[i]));
        }
        if j > i && k > i {
            assert(ranked_before(b[i], b[j]));
            assert(ranked_before(a[i], a[k]));
        }
        assert(a[i] == b[i]);
        lemma_same_order(a, b, i + 1);
    } else {
        if i < b.len() {
            assert(a.contains(b[i]) <==> b.contains(b[i]));
            let k = choose|k: int| 0 <= k < a.len() && a[k] == b[i];
            assert(a[k] == b[k]);
            assert(ranked_before(b[k], b[i]));
        }
        assert(a =~= b);
    }
}

} // verus!
