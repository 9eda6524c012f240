//! What lying on a segment and meeting a segment mean, in terms of the points of
//! the segments: a point of a segment is its start and a fraction of the way to its
//! end.

use crate::geometry::{cross, in_polygon, on_segment, previous, Point};
use crate::lines::{edge_meets, line_touches, meets_ring, touches_from};
use crate::segments::{opposite, segments_meet};
use crate::shape_laws::{cross_is_twice_the_triangle, lemma_cyclic};
use vstd::prelude::*;

verus! {

/// `p` is `s` parts in `t` of the way from `a` to `b`.
pub open spec fn part_way(p: Point, a: Point, b: Point, s: int, t: int) -> bool {
    &&& 0 <= s <= t
    &&& 0 < t
    &&& t * (p.lon - a.lon) == s * (b.lon - a.lon)
    &&& t * (p.lat - a.lat) == s * (b.lat - a.lat)
}

/// The point `s` parts in `t` of the way from `a` to `b` is the point `u` parts in
/// `t` of the way from `c` to `d`.
pub open spec fn same_place(
    a: Point,
    b: Point,
    s: int,
    c: Point,
    d: Point,
    u: int,
    t: int,
) -> bool {
    &&& 0 <= s <= t
    &&& 0 <= u <= t
    &&& 0 < t
    &&& t * a.lon + s * (b.lon - a.lon) == t * c.lon + u * (d.lon - c.lon)
    &&& t * a.lat + s * (b.lat - a.lat) == t * c.lat + u * (d.lat - c.lat)
}

/// The segments have a point in common.
pub open spec fn share_a_point(a: Point, b: Point, c: Point, d: Point) -> bool {
    exists|s: int, u: int, t: int| #[trigger] same_place(a, b, s, c, d, u, t)
}

/// What is a part of the way lies between.
proof fn lemma_between(x: int, q: int, s: int, t: int)
    requires
        0 <= s <= t,
        0 < t,
        t * x == s * q,
    ensures
        0 <= x <= q || q <= x <= 0,
{
    if q >= 0 {
        assert(0 <= s * q <= t * q) by (nonlinear_arith)
            requires
                0 <= s <= t,
                q >= 0,
        ;
        assert(0 <= x <= q) by (nonlinear_arith)
            requires
                0 <= t * x <= t * q,
                t > 0,
        ;
    } else {
        assert(t * q <= s * q <= 0) by (nonlinear_arith)
            requires
                0 <= s <= t,
                q < 0,
        ;
        assert(q <= x <= 0) by (nonlinear_arith)
            requires
                t * q <= t * x <= 0,
                t > 0,
        ;
    }
}

proof fn lemma_part_way_on(p: Point, a: Point, b: Point, s: int, t: int)
    requires
        part_way(p, a, b, s, t),
    ensures
        on_segment(p, a, b),
{
    let (x, y) = (p.lon - a.lon, p.lat - a.lat);
    let (qx, qy) = (b.lon - a.lon, b.lat - a.lat);
    lemma_between(x, qx, s, t);
    lemma_between(y, qy, s, t);
    cross_is_twice_the_triangle(a, b, p);
    assert(t * (qx * y - x * qy) == 0) by (nonlinear_arith)
        requires
            t * x == s * qx,
            t * y == s * qy,
    ;
    assert(qx * y - x * qy == 0) by (nonlinear_arith)
        requires
            t * (qx * y - x * qy) == 0,
            t > 0,
    ;
}

proof fn lemma_on_part_way(p: Point, a: Point, b: Point) -> (r: (int, int))
    requires
        on_segment(p, a, b),
    ensures
        part_way(p, a, b, r.0, r.1),
{
    let (x, y) = (p.lon - a.lon, p.lat - a.lat);
    let (qx, qy) = (b.lon - a.lon, b.lat - a.lat);
    cross_is_twice_the_triangle(a, b, p);
    assert(qx * y == x * qy);
    if qx == 0 && qy == 0 {
        assert(part_way(p, a, b, 0, 1)) by (nonlinear_arith)
            requires
                x == 0,
                y == 0,
                x == p.lon - a.lon,
                y == p.lat - a.lat,
        ;
        (0, 1)
    } else {
        let (s, t) = (qx * x + qy * y, qx * qx + qy * qy);
        assert(0 <= qx * x <= qx * qx) by (nonlinear_arith)
            requires
                0 <= x <= qx || qx <= x <= 0,
        ;
        assert(0 <= qy * y <= qy * qy) by (nonlinear_arith)
            requires
                0 <= y <= qy || qy <= y <= 0,
        ;
        assert(t > 0) by (nonlinear_arith)
            requires
                qx != 0 || qy != 0,
                t == qx * qx + qy * qy,
        ;
        assert((qx * qx + qy * qy) * x == (qx * x + qy * y) * qx) by (nonlinear_arith)
            requires
                qx * y == x * qy,
        ;
        assert((qx * qx + qy * qy) * y == (qx * x + qy * y) * qy) by (nonlinear_arith)
            requires
                qx * y == x * qy,
        ;
        (s, t)
    }
}

/// A point is on a segment exactly where it is some part of the way from one end to
/// the other.
pub proof fn a_segment_is_the_points_between_its_ends(p: Point, a: Point, b: Point)
    ensures
        on_segment(p, a, b) <==> exists|s: int, t: int| #[trigger] part_way(p, a, b, s, t),
{
    if on_segment(p, a, b) {
        let (s, t) = lemma_on_part_way(p, a, b);
        assert(part_way(p, a, b, s, t));
    }
    if exists|s: int, t: int| #[trigger] part_way(p, a, b, s, t) {
        let (s, t) = choose|s: int, t: int| #[trigger] part_way(p, a, b, s, t);
        lemma_part_way_on(p, a, b, s, t);
    }
}

/// An end of one segment that is on the other is a common point.
proof fn lemma_end_shared(e: Point, f: Point, c: Point, d: Point)
    requires
        on_segment(e, c, d),
    ensures
        share_a_point(e, f, c, d),
        share_a_point(f, e, c, d),
        share_a_point(c, d, e, f),
        share_a_point(c, d, f, e),
{
    let (u, t) = lemma_on_part_way(e, c, d);
    let (ex, fx, cx, dx) = (e.lon as int, f.lon as int, c.lon as int, d.lon as int);
    let (ey, fy, cy, dy) = (e.lat as int, f.lat as int, c.lat as int, d.lat as int);
    lemma_end_sum(ex, fx, cx, dx, u, t);
    lemma_end_sum(ey, fy, cy, dy, u, t);
    assert(same_place(e, f, 0, c, d, u, t));
    assert(same_place(f, e, t, c, d, u, t));
    assert(same_place(c, d, u, e, f, 0, t));
    assert(same_place(c, d, u, f, e, t, t));
}

proof fn lemma_end_sum(e: int, f: int, c: int, d: int, u: int, t: int)
    requires
        t * (e - c) == u * (d - c),
    ensures
        t * e + 0 * (f - e) == t * c + u * (d - c),
        t * f + t * (e - f) == t * c + u * (d - c),
{
    assert(t * (e - c) == t * e - t * c) by (nonlinear_arith);
    assert(t * (e - f) == t * e - t * f) by (nonlinear_arith);
}

/// Segments that cross have the crossing in common.
proof fn lemma_crossing_shared(a: Point, b: Point, c: Point, d: Point)
    requires
        opposite(cross(c, d, a), cross(c, d, b)),
        opposite(cross(a, b, c), cross(a, b, d)),
    ensures
        share_a_point(a, b, c, d),
{
    let (ca, cb) = (cross(c, d, a), cross(c, d, b));
    let (ac, ad) = (cross(a, b, c), cross(a, b, d));
    let (rx, ry) = (b.lon - a.lon, b.lat - a.lat);
    let (qx, qy) = (d.lon - c.lon, d.lat - c.lat);
    let (wx, wy) = (c.lon - a.lon, c.lat - a.lat);
    let n = rx * qy - qx * ry;
    lemma_sides(a, b, c, d);
    lemma_cyclic(rx, ry, qx, qy, wx, wy);
    lemma_cyclic(ry, rx, qy, qx, wy, wx);
    // (q x w) r + (w x r) q + (r x q) w is zero in both coordinates.
    assert(n * wx == ca * rx + ac * qx && n * wy == ca * ry + ac * qy) by (nonlinear_arith)
        requires
            n == rx * qy - qx * ry,
            ca == wx * qy - qx * wy,
            ac == rx * wy - wx * ry,
    ;
    if n > 0 {
        lemma_place(n, wx, a.lon as int, b.lon as int, c.lon as int, d.lon as int, ca, -ac);
        lemma_place(n, wy, a.lat as int, b.lat as int, c.lat as int, d.lat as int, ca, -ac);
        assert(same_place(a, b, ca, c, d, -ac, n));
    } else {
        assert((-n) * wx == (-ca) * rx + (-ac) * qx && (-n) * wy == (-ca) * ry + (-ac) * qy)
            by (nonlinear_arith)
            requires
                n * wx == ca * rx + ac * qx,
                n * wy == ca * ry + ac * qy,
        ;
        lemma_place(-n, wx, a.lon as int, b.lon as int, c.lon as int, d.lon as int, -ca, ac);
        lemma_place(-n, wy, a.lat as int, b.lat as int, c.lat as int, d.lat as int, -ca, ac);
        assert(same_place(a, b, -ca, c, d, ac, -n));
    }
}

proof fn lemma_place(t: int, w: int, a: int, b: int, c: int, d: int, s: int, u: int)
    requires
        w == c - a,
        t * w == s * (b - a) + (-u) * (d - c),
    ensures
        t * a + s * (b - a) == t * c + u * (d - c),
{
    assert(t * (c - a) == t * c - t * a) by (nonlinear_arith);
    assert((-u) * (d - c) == -(u * (d - c))) by (nonlinear_arith);
}

/// The sides on which the ends lie, in terms of the segments' directions.
proof fn lemma_sides(a: Point, b: Point, c: Point, d: Point)
    ensures
        ({
            let (rx, ry) = (b.lon - a.lon, b.lat - a.lat);
            let (qx, qy) = (d.lon - c.lon, d.lat - c.lat);
            let (wx, wy) = (c.lon - a.lon, c.lat - a.lat);
            let n = rx * qy - qx * ry;
            &&& cross(c, d, a) == wx * qy - qx * wy
            &&& cross(c, d, b) == cross(c, d, a) - n
            &&& cross(a, b, c) == rx * wy - wx * ry
            &&& cross(a, b, d) == cross(a, b, c) + n
        }),
{
    let (rx, ry) = (b.lon - a.lon, b.lat - a.lat);
    let (qx, qy) = (d.lon - c.lon, d.lat - c.lat);
    let (wx, wy) = (c.lon - a.lon, c.lat - a.lat);
    cross_is_twice_the_triangle(c, d, a);
    cross_is_twice_the_triangle(c, d, b);
    cross_is_twice_the_triangle(a, b, c);
    cross_is_twice_the_triangle(a, b, d);
    assert(qx * (-wy) - (-wx) * qy == wx * qy - qx * wy) by (nonlinear_arith);
    assert(qx * (ry - wy) - (rx - wx) * qy == (wx * qy - qx * wy) - (rx * qy - qx * ry))
        by (nonlinear_arith);
    assert(rx * (wy + qy) - (wx + qx) * ry == (rx * wy - wx * ry) + (rx * qy - qx * ry))
        by (nonlinear_arith);
}

proof fn lemma_meeting_shares(a: Point, b: Point, c: Point, d: Point)
    requires
        segments_meet(a, b, c, d),
    ensures
        share_a_point(a, b, c, d),
{
    if on_segment(a, c, d) {
        lemma_end_shared(a, b, c, d);
    } else if on_segment(b, c, d) {
        lemma_end_shared(b, a, c, d);
    } else if on_segment(c, a, b) {
        lemma_end_shared(c, d, a, b);
    } else if on_segment(d, a, b) {
        lemma_end_shared(d, c, a, b);
    } else {
        lemma_crossing_shared(a, b, c, d);
    }
}

/// A part of the way lies between the ends, in one coordinate.
proof fn lemma_span(a: int, b: int, s: int, t: int)
    requires
        0 <= s <= t,
        0 < t,
    ensures
        a <= b ==> t * a <= t * a + s * (b - a) <= t * b,
        b <= a ==> t * b <= t * a + s * (b - a) <= t * a,
{
    if a <= b {
        assert(t * a <= t * a + s * (b - a) <= t * b) by (nonlinear_arith)
            requires
                0 <= s <= t,
                a <= b,
        ;
    }
    if b <= a {
        assert(t * b <= t * a + s * (b - a) <= t * a) by (nonlinear_arith)
            requires
                0 <= s <= t,
                b <= a,
        ;
    }
}

/// Ranges with a value in common: an end of one is in the other.
proof fn lemma_ranges_overlap(a: int, b: int, s: int, c: int, d: int, u: int, t: int)
    requires
        0 <= s <= t,
        0 <= u <= t,
        0 < t,
        t * a + s * (b - a) == t * c + u * (d - c),
    ensures
        (c <= a <= d || d <= a <= c) || (c <= b <= d || d <= b <= c) || (a <= c <= b || b <= c <= a)
            || (a <= d <= b || b <= d <= a),
{
    lemma_span(a, b, s, t);
    lemma_span(c, d, u, t);
    let (lo, hi) = if a <= b {
        (a, b)
    } else {
        (b, a)
    };
    let (min, max) = if c <= d {
        (c, d)
    } else {
        (d, c)
    };
    assert(lo <= max) by (nonlinear_arith)
        requires
            t * lo <= t * max,
            t > 0,
    ;
    assert(min <= hi) by (nonlinear_arith)
        requires
            t * min <= t * hi,
            t > 0,
    ;
}

/// On a line that is not upright, what lies between in one coordinate lies between
/// in the other.
proof fn lemma_slanted(qx: int, qy: int, x: int, y: int)
    requires
        qx != 0,
        qx * y == x * qy,
        0 <= x <= qx || qx <= x <= 0,
    ensures
        0 <= y <= qy || qy <= y <= 0,
{
    if qx > 0 {
        assert(qx * y == x * qy);
        lemma_between(y, qy, x, qx);
    } else {
        assert((-qx) * y == (-x) * qy) by (nonlinear_arith)
            requires
                qx * y == x * qy,
        ;
        lemma_between(y, qy, -x, -qx);
    }
}

proof fn lemma_on_by_lon(e: Point, c: Point, d: Point)
    requires
        cross(c, d, e) == 0,
        c.lon != d.lon,
        c.lon <= e.lon <= d.lon || d.lon <= e.lon <= c.lon,
    ensures
        on_segment(e, c, d),
{
    cross_is_twice_the_triangle(c, d, e);
    lemma_slanted(d.lon - c.lon, d.lat - c.lat, e.lon - c.lon, e.lat - c.lat);
}

proof fn lemma_on_by_lat(e: Point, c: Point, d: Point)
    requires
        cross(c, d, e) == 0,
        c.lat != d.lat,
        c.lat <= e.lat <= d.lat || d.lat <= e.lat <= c.lat,
    ensures
        on_segment(e, c, d),
{
    cross_is_twice_the_triangle(c, d, e);
    let (qx, qy, x, y) = (d.lon - c.lon, d.lat - c.lat, e.lon - c.lon, e.lat - c.lat);
    assert(qy * x == y * qx) by (nonlinear_arith)
        requires
            qx * y - x * qy == 0,
    ;
    lemma_slanted(qy, qx, y, x);
}

/// Segments of one line with a point in common: an end of one is on the other.
proof fn lemma_in_line(a: Point, b: Point, s: int, c: Point, d: Point, u: int, t: int)
    requires
        same_place(a, b, s, c, d, u, t),
        cross(c, d, a) == 0,
        cross(c, d, b) == 0,
        cross(a, b, c) == 0,
        cross(a, b, d) == 0,
        a != b,
        c != d,
    ensures
        segments_meet(a, b, c, d),
{
    let (rx, ry) = (b.lon - a.lon, b.lat - a.lat);
    let (qx, qy) = (d.lon - c.lon, d.lat - c.lat);
    lemma_sides(a, b, c, d);
    assert(rx * qy == qx * ry);
    if rx != 0 {
        assert(qx != 0) by (nonlinear_arith)
            requires
                rx * qy == qx * ry,
                rx != 0,
                qx != 0 || qy != 0,
        ;
        lemma_ranges_overlap(
            a.lon as int,
            b.lon as int,
            s,
            c.lon as int,
            d.lon as int,
            u,
            t,
        );
        if c.lon <= a.lon <= d.lon || d.lon <= a.lon <= c.lon {
            lemma_on_by_lon(a, c, d);
        } else if c.lon <= b.lon <= d.lon || d.lon <= b.lon <= c.lon {
            lemma_on_by_lon(b, c, d);
        } else if a.lon <= c.lon <= b.lon || b.lon <= c.lon <= a.lon {
            lemma_on_by_lon(c, a, b);
        } else {
            lemma_on_by_lon(d, a, b);
        }
    } else {
        assert(ry != 0);
        assert(qy != 0) by (nonlinear_arith)
            requires
                rx * qy == qx * ry,
                rx == 0,
                ry != 0,
                qx != 0 || qy != 0,
        ;
        lemma_ranges_overlap(
            a.lat as int,
            b.lat as int,
            s,
            c.lat as int,
            d.lat as int,
            u,
            t,
        );
        if c.lat <= a.lat <= d.lat || d.lat <= a.lat <= c.lat {
            lemma_on_by_lat(a, c, d);
        } else if c.lat <= b.lat <= d.lat || d.lat <= b.lat <= c.lat {
            lemma_on_by_lat(b, c, d);
        } else if a.lat <= c.lat <= b.lat || b.lat <= c.lat <= a.lat {
            lemma_on_by_lat(c, a, b);
        } else {
            lemma_on_by_lat(d, a, b);
        }
    }
}

proof fn lemma_start_on(a: int, b: int, s: int, c: int, d: int, u: int, t: int)
    requires
        t * a + s * (b - a) == t * c + u * (d - c),
    ensures
        s == 0 || b == a ==> t * (a - c) == u * (d - c),
        s == t ==> t * (b - c) == u * (d - c),
        u == 0 || d == c ==> t * (c - a) == s * (b - a),
        u == t ==> t * (d - a) == s * (b - a),
{
    assert(t * (a - c) == t * a - t * c) by (nonlinear_arith);
    assert(t * (c - a) == t * c - t * a) by (nonlinear_arith);
    assert(t * (b - c) == t * a + t * (b - a) - t * c) by (nonlinear_arith);
    assert(t * (d - a) == t * c + t * (d - c) - t * a) by (nonlinear_arith);
    if s == 0 || b == a {
        assert(s * (b - a) == 0) by (nonlinear_arith)
            requires
                s == 0 || b == a,
        ;
    }
    if u == 0 || d == c {
        assert(u * (d - c) == 0) by (nonlinear_arith)
            requires
                u == 0 || d == c,
        ;
    }
}

/// How far the ends are from the other segment's line, where the segments have a
/// point in common.
proof fn lemma_shared_sides(a: Point, b: Point, s: int, c: Point, d: Point, u: int, t: int)
    requires
        same_place(a, b, s, c, d, u, t),
    ensures
        ({
            let n = (b.lon - a.lon) * (d.lat - c.lat) - (d.lon - c.lon) * (b.lat - a.lat);
            &&& t * cross(c, d, a) == s * n
            &&& t * cross(c, d, b) == (s - t) * n
            &&& t * cross(a, b, c) == (-u) * n
            &&& t * cross(a, b, d) == (t - u) * n
        }),
{
    let (rx, ry) = (b.lon - a.lon, b.lat - a.lat);
    let (qx, qy) = (d.lon - c.lon, d.lat - c.lat);
    let (wx, wy) = (c.lon - a.lon, c.lat - a.lat);
    let n = rx * qy - qx * ry;
    lemma_sides(a, b, c, d);
    assert(t * wx == s * rx - u * qx) by (nonlinear_arith)
        requires
            t * a.lon + s * rx == t * c.lon + u * qx,
            wx == c.lon - a.lon,
    ;
    assert(t * wy == s * ry - u * qy) by (nonlinear_arith)
        requires
            t * a.lat + s * ry == t * c.lat + u * qy,
            wy == c.lat - a.lat,
    ;
    assert(t * (wx * qy - qx * wy) == (t * wx) * qy - qx * (t * wy)) by (nonlinear_arith);
    assert((s * rx - u * qx) * qy - qx * (s * ry - u * qy) == s * (rx * qy - qx * ry))
        by (nonlinear_arith);
    assert(t * (rx * wy - wx * ry) == rx * (t * wy) - (t * wx) * ry) by (nonlinear_arith);
    assert(rx * (s * ry - u * qy) - (s * rx - u * qx) * ry == (-u) * (rx * qy - qx * ry))
        by (nonlinear_arith);
    let (ca, ac) = (cross(c, d, a), cross(a, b, c));
    assert(t * (ca - n) == t * ca - t * n) by (nonlinear_arith);
    assert(t * (ac + n) == t * ac + t * n) by (nonlinear_arith);
    assert((s - t) * n == s * n - t * n) by (nonlinear_arith);
    assert((t - u) * n == t * n + (-u) * n) by (nonlinear_arith);
}

proof fn lemma_opposite_sides(x: int, y: int, i: int, j: int, n: int, t: int)
    requires
        t > 0,
        t * x == i * n,
        t * y == j * n,
        (i > 0 && j < 0) || (i < 0 && j > 0),
        n != 0,
    ensures
        opposite(x, y),
{
    assert((x > 0 && y < 0) || (x < 0 && y > 0)) by {
        if (i > 0) == (n > 0) {
            assert(i * n > 0 && j * n < 0) by (nonlinear_arith)
                requires
                    (i > 0 && j < 0 && n > 0) || (i < 0 && j > 0 && n < 0),
            ;
            assert(x > 0 && y < 0) by (nonlinear_arith)
                requires
                    t * x > 0,
                    t * y < 0,
                    t > 0,
            ;
        } else {
            assert(i * n < 0 && j * n > 0) by (nonlinear_arith)
                requires
                    (i > 0 && j < 0 && n < 0) || (i < 0 && j > 0 && n > 0),
            ;
            assert(x < 0 && y > 0) by (nonlinear_arith)
                requires
                    t * x < 0,
                    t * y > 0,
                    t > 0,
            ;
        }
    }
}

proof fn lemma_zero(t: int, x: int, i: int, n: int)
    requires
        t > 0,
        t * x == i * n,
        n == 0,
    ensures
        x == 0,
{
    assert(x == 0) by (nonlinear_arith)
        requires
            t > 0,
            t * x == i * n,
            n == 0,
    ;
}

proof fn lemma_shared_meets(a: Point, b: Point, s: int, c: Point, d: Point, u: int, t: int)
    requires
        same_place(a, b, s, c, d, u, t),
    ensures
        segments_meet(a, b, c, d),
{
    lemma_start_on(a.lon as int, b.lon as int, s, c.lon as int, d.lon as int, u, t);
    lemma_start_on(a.lat as int, b.lat as int, s, c.lat as int, d.lat as int, u, t);
    if s == 0 || a == b {
        lemma_part_way_on(a, c, d, u, t);
    } else if s == t {
        lemma_part_way_on(b, c, d, u, t);
    } else if u == 0 || c == d {
        lemma_part_way_on(c, a, b, s, t);
    } else if u == t {
        lemma_part_way_on(d, a, b, s, t);
    } else {
        lemma_shared_sides(a, b, s, c, d, u, t);
        let n = (b.lon - a.lon) * (d.lat - c.lat) - (d.lon - c.lon) * (b.lat - a.lat);
        if n == 0 {
            lemma_zero(t, cross(c, d, a), s, n);
            lemma_zero(t, cross(c, d, b), s - t, n);
            lemma_zero(t, cross(a, b, c), -u, n);
            lemma_zero(t, cross(a, b, d), t - u, n);
            lemma_in_line(a, b, s, c, d, u, t);
        } else {
            lemma_opposite_sides(cross(c, d, a), cross(c, d, b), s, s - t, n, t);
            lemma_opposite_sides(cross(a, b, c), cross(a, b, d), -u, t - u, n, t);
        }
    }
}

/// Segments meet exactly where they have a point in common.
pub proof fn segments_meet_where_they_share_a_point(a: Point, b: Point, c: Point, d: Point)
    ensures
        segments_meet(a, b, c, d) <==> share_a_point(a, b, c, d),
{
    if segments_meet(a, b, c, d) {
        lemma_meeting_shares(a, b, c, d);
    }
    if share_a_point(a, b, c, d) {
        let (s, u, t) = choose|s: int, u: int, t: int| #[trigger]
            same_place(a, b, s, c, d, u, t);
        lemma_shared_meets(a, b, s, c, d, u, t);
    }
}

/// An edge of the line and an edge of the ring have a point in common.
pub open spec fn edges_share(line: Seq<Point>, i: int, ring: Seq<Point>, j: int) -> bool {
    &&& 0 <= i < line.len() - 1
    &&& 0 <= j < ring.len()
    &&& share_a_point(
        line[i],
        line[i + 1],
        if j == 0 {
            ring.last()
        } else {
            ring[j - 1]
        },
        ring[j],
    )
}

/// A line touches a polygon exactly where a vertex of the line is in the polygon, or
/// an edge of the line and an edge of the polygon have a point in common.
pub proof fn a_line_touches_what_it_enters_or_crosses(line: Seq<Point>, ring: Seq<Point>)
    ensures
        line_touches(line, ring) <==> (exists|i: int|
            0 <= i < line.len() && in_polygon(#[trigger] line[i], ring)) || exists|i: int, j: int|
            #[trigger] edges_share(line, i, ring, j),
{
    if line_touches(line, ring) {
        let i = choose|i: int| 0 <= i < line.len() && #[trigger] touches_from(line, ring, i);
        if !in_polygon(line[i], ring) {
            let j = choose|j: int|
                0 <= j < ring.len() && #[trigger] edge_meets(line[i], line[i + 1], ring, j);
            segments_meet_where_they_share_a_point(
                line[i],
                line[i + 1],
                previous(ring, j),
                ring[j],
            );
            assert(edges_share(line, i, ring, j));
        }
    }
    if exists|i: int| 0 <= i < line.len() && in_polygon(#[trigger] line[i], ring) {
        let i = choose|i: int| 0 <= i < line.len() && in_polygon(#[trigger] line[i], ring);
        assert(touches_from(line, ring, i));
    }
    if exists|i: int, j: int| #[trigger] edges_share(line, i, ring, j) {
        let (i, j) = choose|i: int, j: int| #[trigger] edges_share(line, i, ring, j);
        segments_meet_where_they_share_a_point(line[i], line[i + 1], previous(ring, j), ring[j]);
        assert(edge_meets(line[i], line[i + 1], ring, j));
        assert(meets_ring(line[i], line[i + 1], ring));
        assert(touches_from(line, ring, i));
    }
}

} // verus!
