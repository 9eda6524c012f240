//! Exact distance from a point to a segment, and whether two segments meet.

use crate::geometry::{cross, cross_product, on_segment, point_on_segment, Point};
use crate::spatial::{dist_sq, distance_sq};
use crate::wide::{word, Ratio, Wide};
use vstd::arithmetic::mul::{lemma_mul_is_associative, lemma_mul_is_commutative};
use vstd::prelude::*;

verus! {

/// How far `p` lies along the way from `a` to `b`, times the length of the way.
#[verifier::opaque]
pub open spec fn along(a: Point, b: Point, p: Point) -> int {
    (b.lon - a.lon) * (p.lon - a.lon) + (b.lat - a.lat) * (p.lat - a.lat)
}

/// How far `p` lies along the way from `a` to `b`, times the length of the way.
fn along_product(a: Point, b: Point, p: Point) -> (out: i128)
    ensures
        out == along(a, b, p),
{
    let (bx, by): (i128, i128) = (b.lon as i128 - a.lon as i128, b.lat as i128 - a.lat as i128);
    let (px, py): (i128, i128) = (p.lon as i128 - a.lon as i128, p.lat as i128 - a.lat as i128);
    proof {
        reveal(along);
        lemma_product(bx as int, px as int);
        lemma_product(by as int, py as int);
    }
    bx * px + by * py
}

proof fn lemma_product(x: int, y: int)
    requires
        -0x1_0000_0000 <= x <= 0x1_0000_0000,
        -0x1_0000_0000 <= y <= 0x1_0000_0000,
    ensures
        -0x1_0000_0000_0000_0000 <= x * y <= 0x1_0000_0000_0000_0000,
{
    assert(-0x1_0000_0000_0000_0000 <= x * y <= 0x1_0000_0000_0000_0000) by (nonlinear_arith)
        requires
            -0x1_0000_0000 <= x <= 0x1_0000_0000,
            -0x1_0000_0000 <= y <= 0x1_0000_0000,
    ;
}

/// `d` is the squared distance from `p` to the segment between `a` and `b`: that
/// to an end, where the foot of the perpendicular is not between the ends, and
/// else the length of the perpendicular.
pub open spec fn is_segment_distance(p: Point, a: Point, b: Point, d: Ratio) -> bool {
    if along(a, b, p) <= 0 {
        d.num.val() == dist_sq(p, a) && d.den == 1
    } else if along(a, b, p) >= dist_sq(a, b) {
        d.num.val() == dist_sq(p, b) && d.den == 1
    } else {
        d.num.val() == cross(a, b, p) * cross(a, b, p) && d.den == dist_sq(a, b)
    }
}

/// The squared distance between two points.
pub fn point_distance(a: Point, b: Point) -> (out: Ratio)
    ensures
        out.wf(),
        out.num.val() == dist_sq(a, b),
        out.den == 1,
{
    Ratio { num: Wide { hi: 0, lo: distance_sq(a, b) as u128 }, den: 1 }
}

/// The squared distance from `p` to the segment between `a` and `b`.
pub fn segment_distance(p: Point, a: Point, b: Point) -> (out: Ratio)
    ensures
        out.wf(),
        is_segment_distance(p, a, b, out),
{
    let dot: i128 = along_product(a, b, p);
    if dot <= 0 {
        return point_distance(p, a);
    }
    let len: i128 = distance_sq(a, b);
    if dot >= len {
        return point_distance(p, b);
    }
    let c: i128 = cross_product(a, b, p);
    let size: u128 = if c < 0 {
        (-c) as u128
    } else {
        c as u128
    };
    let num = Wide::product(size, size);
    proof {
        assert(size * size == c * c) by (nonlinear_arith)
            requires
                size == c || size == -c,
        ;
        assert(size * size <= 0x4_0000_0000_0000_0000_0000_0000_0000_0000int) by (nonlinear_arith)
            requires
                0 <= size <= 0x2_0000_0000_0000_0000,
        ;
        assert(num.hi <= 64) by (nonlinear_arith)
            requires
                num.hi * word() + num.lo <= 0x4_0000_0000_0000_0000_0000_0000_0000_0000int,
                num.lo >= 0,
                word() == 0x1_0000_0000_0000_0000_0000_0000_0000_0000int,
        ;
    }
    Ratio { num, den: len as u128 }
}

/// No point of the segment is nearer: the squared distance to the point that
/// divides the segment at `s` of `t` parts is no less than the segment's.
pub proof fn no_point_of_a_segment_is_nearer(
    p: Point,
    a: Point,
    b: Point,
    d: Ratio,
    s: int,
    t: int,
)
    requires
        is_segment_distance(p, a, b, d),
        0 <= s <= t,
        0 < t,
    ensures
        d.num.val() * (t * t) <= parted_sq(p, a, b, s, t) * d.den,
{
    reveal(along);
    reveal(dist_sq);
    reveal(cross);
    let (ux, uy) = (p.lon - a.lon, p.lat - a.lat);
    let (vx, vy) = (b.lon - a.lon, b.lat - a.lat);
    let (dot, len) = (along(a, b, p), dist_sq(a, b));
    let far = parted_sq(p, a, b, s, t);
    let u = ux * ux + uy * uy;
    assert(dot == vx * ux + vy * uy);
    assert(len == vx * vx + vy * vy) by (nonlinear_arith)
        requires
            len == (0 - vx) * (0 - vx) + (0 - vy) * (0 - vy),
    ;
    assert(dist_sq(p, a) == u);
    assert(far == t * t * u - 2 * (s * t) * dot + s * s * len) by {
        lemma_expand(t, s, ux, vx);
        lemma_expand(t, s, uy, vy);
        lemma_distribute(t * t, ux * ux, uy * uy);
        lemma_distribute(2 * (s * t), vx * ux, vy * uy);
        lemma_distribute(s * s, vx * vx, vy * vy);
    }
    assert(len >= 0) by (nonlinear_arith)
        requires
            len == vx * vx + vy * vy,
    ;
    if dot <= 0 {
        assert(far >= t * t * u) by (nonlinear_arith)
            requires
                far == t * t * u - 2 * (s * t) * dot + s * s * len,
                0 <= s,
                0 < t,
                dot <= 0,
                len >= 0,
        ;
        assert(u * (t * t) == t * t * u) by (nonlinear_arith);
    } else if dot >= len {
        let r = t - s;
        let w = u - 2 * dot + len;
        assert(dist_sq(p, b) == w) by (nonlinear_arith)
            requires
                dist_sq(p, b) == (ux - vx) * (ux - vx) + (uy - vy) * (uy - vy),
                w == u - 2 * dot + len,
                u == ux * ux + uy * uy,
                dot == vx * ux + vy * uy,
                len == vx * vx + vy * vy,
        ;
        let (tt, st, ss) = (t * t, s * t, s * s);
        assert(r * t == tt - st) by (nonlinear_arith)
            requires
                r == t - s,
                tt == t * t,
                st == s * t,
        ;
        assert(r * r == tt - 2 * st + ss) by (nonlinear_arith)
            requires
                r == t - s,
                tt == t * t,
                st == s * t,
                ss == s * s,
        ;
        assert(tt * u - 2 * st * dot + ss * len == tt * (u - 2 * dot + len) + 2 * (tt - st) * (dot
            - len) + (tt - 2 * st + ss) * len) by (nonlinear_arith);
        assert(far >= t * t * w) by (nonlinear_arith)
            requires
                far == t * t * w + 2 * (r * t) * (dot - len) + r * r * len,
                0 <= r,
                0 < t,
                dot - len >= 0,
                len >= 0,
        ;
        assert(w * (t * t) == t * t * w) by (nonlinear_arith);
    } else {
        let c = cross(a, b, p);
        let off = t * dot - s * len;
        lemma_lengths(ux, uy, vx, vy);
        assert((t * t * u - 2 * (s * t) * dot + s * s * len) * len == t * t * (u * len) - 2 * (s
            * t) * dot * len + s * s * len * len) by (nonlinear_arith);
        lemma_expand(t, s, dot, len);
        assert(2 * (s * t) * dot * len == 2 * (s * t) * (len * dot)) by (nonlinear_arith);
        assert(s * s * len * len == s * s * (len * len)) by (nonlinear_arith);
        assert(t * t * (u * len) == t * t * (c * c) + t * t * (dot * dot)) by (nonlinear_arith)
            requires
                u * len == c * c + dot * dot,
        ;
        assert(off * off >= 0) by (nonlinear_arith);
        assert(c * c * (t * t) == t * t * (c * c)) by (nonlinear_arith);
    }
}

proof fn lemma_regroup(a: int, b: int, c: int, d: int)
    ensures
        (a * b) * (c * d) == (a * c) * (b * d),
{
    lemma_mul_is_associative(a, b, c * d);
    lemma_mul_is_associative(b, c, d);
    lemma_mul_is_commutative(b, c);
    lemma_mul_is_associative(c, b, d);
    lemma_mul_is_associative(a, c, b * d);
}

/// Some point of the segment is that near: the one that divides it at the first
/// of the returned parts of the second.
pub proof fn a_segment_distance_is_reached(p: Point, a: Point, b: Point, d: Ratio) -> (st: (
    int,
    int,
))
    requires
        is_segment_distance(p, a, b, d),
    ensures
        0 <= st.0 <= st.1,
        0 < st.1,
        d.num.val() * (st.1 * st.1) == parted_sq(p, a, b, st.0, st.1) * d.den,
{
    reveal(along);
    reveal(dist_sq);
    reveal(cross);
    let (ux, uy) = (p.lon - a.lon, p.lat - a.lat);
    let (vx, vy) = (b.lon - a.lon, b.lat - a.lat);
    let (dot, len) = (along(a, b, p), dist_sq(a, b));
    assert(len == vx * vx + vy * vy) by (nonlinear_arith)
        requires
            len == (0 - vx) * (0 - vx) + (0 - vy) * (0 - vy),
    ;
    if dot <= 0 {
        assert(1 * ux - 0 * vx == ux && 1 * uy - 0 * vy == uy);
        (0, 1)
    } else if dot >= len {
        assert(1 * ux - 1 * vx == p.lon - b.lon && 1 * uy - 1 * vy == p.lat - b.lat);
        (1, 1)
    } else {
        let c = cross(a, b, p);
        let u = ux * ux + uy * uy;
        let far = parted_sq(p, a, b, dot, len);
        lemma_expand(len, dot, ux, vx);
        lemma_expand(len, dot, uy, vy);
        lemma_distribute(len * len, ux * ux, uy * uy);
        lemma_distribute(2 * (dot * len), vx * ux, vy * uy);
        lemma_distribute(dot * dot, vx * vx, vy * vy);
        assert(far == len * len * u - 2 * (dot * len) * dot + dot * dot * len);
        lemma_lengths(ux, uy, vx, vy);
        assert(u * len == c * c + dot * dot);
        assert(far == len * (c * c)) by {
            assert(len * len * u == len * (u * len)) by (nonlinear_arith);
            lemma_distribute(len, c * c, dot * dot);
            assert((dot * len) * dot == len * (dot * dot)) by (nonlinear_arith);
            assert(2 * (dot * len) * dot == 2 * ((dot * len) * dot)) by (nonlinear_arith);
            assert(dot * dot * len == len * (dot * dot)) by (nonlinear_arith);
        }
        assert(len * (c * c) * len == c * c * (len * len)) by (nonlinear_arith);
        (dot, len)
    }
}

pub proof fn lemma_expand(t: int, s: int, u: int, v: int)
    ensures
        (t * u - s * v) * (t * u - s * v) == t * t * (u * u) - 2 * (s * t) * (v * u) + s * s * (v
            * v),
{
    let (x, y) = (t * u, s * v);
    assert((x - y) * (x - y) == x * x - 2 * (x * y) + y * y) by (nonlinear_arith);
    lemma_regroup(t, u, t, u);
    lemma_regroup(t, u, s, v);
    lemma_regroup(s, v, s, v);
    lemma_mul_is_commutative(t, s);
    lemma_mul_is_commutative(u, v);
    lemma_mul_is_associative(2, s * t, v * u);
}

/// The product of two squared lengths is the sum of the squares of the cross and
/// the inner product.
pub proof fn lemma_lengths(a: int, b: int, c: int, d: int)
    ensures
        (a * a + b * b) * (c * c + d * d) == (c * b - d * a) * (c * b - d * a) + (c * a + d * b) * (c
            * a + d * b),
{
    let (p, q, r, s) = (c * b, d * a, c * a, d * b);
    assert((p - q) * (p - q) == p * p - 2 * (p * q) + q * q) by (nonlinear_arith);
    assert((r + s) * (r + s) == r * r + 2 * (r * s) + s * s) by (nonlinear_arith);
    lemma_regroup(c, b, d, a);
    lemma_regroup(c, a, d, b);
    lemma_mul_is_commutative(a, b);
    lemma_regroup(c, b, c, b);
    lemma_regroup(d, a, d, a);
    lemma_regroup(c, a, c, a);
    lemma_regroup(d, b, d, b);
    let (e, f, g, h) = (a * a, b * b, c * c, d * d);
    assert((e + f) * (g + h) == g * e + h * e + g * f + h * f) by (nonlinear_arith);
}

pub proof fn lemma_distribute(k: int, x: int, y: int)
    ensures
        k * (x + y) == k * x + k * y,
{
    assert(k * (x + y) == k * x + k * y) by (nonlinear_arith);
}

/// The squared distance from `p` to the point that divides the segment between
/// `a` and `b` at `s` of `t` parts, times the square of `t`.
pub open spec fn parted_sq(p: Point, a: Point, b: Point, s: int, t: int) -> int {
    (t * (p.lon - a.lon) - s * (b.lon - a.lon)) * (t * (p.lon - a.lon) - s * (b.lon - a.lon)) + (t
        * (p.lat - a.lat) - s * (b.lat - a.lat)) * (t * (p.lat - a.lat) - s * (b.lat - a.lat))
}

/// One is less than zero and the other greater.
pub open spec fn opposite(x: int, y: int) -> bool {
    (x < 0 && 0 < y) || (y < 0 && 0 < x)
}

/// The segments have a point in common: each passes between the ends of the
/// other, or one of them has an end on the other.
pub open spec fn segments_meet(a: Point, b: Point, c: Point, d: Point) -> bool {
    ||| opposite(cross(c, d, a), cross(c, d, b)) && opposite(cross(a, b, c), cross(a, b, d))
    ||| on_segment(a, c, d)
    ||| on_segment(b, c, d)
    ||| on_segment(c, a, b)
    ||| on_segment(d, a, b)
}

/// Whether the two segments have a point in common, ends included.
pub fn segments_touch(a: Point, b: Point, c: Point, d: Point) -> (out: bool)
    ensures
        out == segments_meet(a, b, c, d),
{
    if point_on_segment(a, c, d) || point_on_segment(b, c, d) || point_on_segment(c, a, b)
        || point_on_segment(d, a, b) {
        return true;
    }
    let (x, y): (i128, i128) = (cross_product(c, d, a), cross_product(c, d, b));
    if !((x < 0 && 0 < y) || (y < 0 && 0 < x)) {
        return false;
    }
    let (x, y): (i128, i128) = (cross_product(a, b, c), cross_product(a, b, d));
    (x < 0 && 0 < y) || (y < 0 && 0 < x)
}

/// Two segments meet whichever comes first.
pub proof fn meeting_is_mutual(a: Point, b: Point, c: Point, d: Point)
    ensures
        segments_meet(a, b, c, d) <==> segments_meet(c, d, a, b),
{
}

} // verus!
