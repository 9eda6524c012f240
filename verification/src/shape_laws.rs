//! What being inside a polygon, winding around a point and enclosing area mean,
//! in terms of triangles and of cuts.

use crate::coastline::{
    chain_winding, classified, encloses_land, following, shoelace, shoelace_term, CoastlineRing,
};
use crate::geometry::{
    contribution, cross, crosses, crossings, in_polygon, inside_ring, on_edge, on_segment,
    rises_past, turned_ring, Point,
};
use crate::multipolygon::positions;
use crate::rings::Vertex;
use vstd::prelude::*;

verus! {

/// What `f` gives for each edge of a path, added up.
pub open spec fn path_sum(f: spec_fn(Point, Point) -> int, s: Seq<Point>) -> int
    decreases s.len(),
{
    if s.len() <= 1 {
        0
    } else {
        path_sum(f, s.drop_last()) + f(s[s.len() - 2], s[s.len() - 1])
    }
}

/// What `f` gives for each edge of a ring, added up.
pub open spec fn ring_sum(f: spec_fn(Point, Point) -> int, s: Seq<Point>) -> int {
    if s.len() == 0 {
        0
    } else {
        path_sum(f, s) + f(s.last(), s[0])
    }
}

/// What `g` gives for each triangle of the fan from the first vertex, added up
/// over the first `n` vertices.
pub open spec fn fan_sum(g: spec_fn(Point, Point, Point) -> int, s: Seq<Point>, n: int) -> int
    decreases n,
{
    if n <= 2 {
        0
    } else {
        fan_sum(g, s, n - 1) + g(s[0], s[n - 2], s[n - 1])
    }
}

/// The sum over the edges of a triangle.
pub open spec fn around(f: spec_fn(Point, Point) -> int) -> spec_fn(Point, Point, Point) -> int {
    |a: Point, b: Point, c: Point| f(a, b) + f(b, c) + f(c, a)
}

proof fn lemma_path_join(f: spec_fn(Point, Point) -> int, a: Seq<Point>, b: Seq<Point>)
    requires
        a.len() > 0,
        b.len() > 0,
    ensures
        path_sum(f, a + b) == path_sum(f, a) + f(a.last(), b[0]) + path_sum(f, b),
    decreases b.len(),
{
    let ab = a + b;
    if b.len() == 1 {
        assert(ab.drop_last() =~= a);
        assert(ab[ab.len() - 2] == a.last());
    } else {
        lemma_path_join(f, a, b.drop_last());
        assert(ab.drop_last() =~= a + b.drop_last());
        assert(ab[ab.len() - 2] == b[b.len() - 2]);
    }
}

/// A path cut at a vertex is the sum of its parts.
pub(crate) proof fn lemma_path_cut(f: spec_fn(Point, Point) -> int, s: Seq<Point>, i: int)
    requires
        0 <= i < s.len(),
    ensures
        path_sum(f, s) == path_sum(f, s.take(i + 1)) + path_sum(f, s.skip(i)),
{
    if i + 1 < s.len() {
        let one = seq![s[i]];
        lemma_path_join(f, s.take(i + 1), s.skip(i + 1));
        lemma_path_join(f, one, s.skip(i + 1));
        assert(s.take(i + 1) + s.skip(i + 1) =~= s);
        assert(one + s.skip(i + 1) =~= s.skip(i));
    } else {
        assert(s.take(i + 1) =~= s);
        assert(s.skip(i).len() == 1);
    }
}

/// What is cut off a ring that is cut from vertex `i` to vertex `j`: the part
/// between them.
pub open spec fn cut_off(ring: Seq<Point>, i: int, j: int) -> Seq<Point> {
    ring.subrange(i, j + 1)
}

/// What remains of a ring that is cut from vertex `i` to vertex `j`.
pub open spec fn cut_from(ring: Seq<Point>, i: int, j: int) -> Seq<Point> {
    ring.take(i + 1) + ring.skip(j)
}

proof fn lemma_ring_cut(f: spec_fn(Point, Point) -> int, ring: Seq<Point>, i: int, j: int)
    requires
        0 <= i < j < ring.len(),
    ensures
        ring_sum(f, cut_off(ring, i, j)) + ring_sum(f, cut_from(ring, i, j)) == ring_sum(f, ring)
            + f(ring[i], ring[j]) + f(ring[j], ring[i]),
{
    let (mid, rest) = (cut_off(ring, i, j), cut_from(ring, i, j));
    lemma_path_cut(f, ring, i);
    lemma_path_cut(f, ring.skip(i), j - i);
    assert(ring.skip(i).take(j - i + 1) =~= mid);
    assert(ring.skip(i).skip(j - i) =~= ring.skip(j));
    lemma_path_join(f, ring.take(i + 1), ring.skip(j));
    assert(ring.take(i + 1).last() == ring[i]);
    assert(ring.skip(j)[0] == ring[j]);
    assert(rest.last() == ring.last());
    assert(rest[0] == ring[0]);
    assert(mid.last() == ring[j]);
    assert(mid[0] == ring[i]);
}

/// A sum that changes sign with the direction of an edge is the sum over the
/// triangles of the fan.
proof fn lemma_fan(f: spec_fn(Point, Point) -> int, s: Seq<Point>, n: int)
    requires
        2 <= n <= s.len(),
        forall|a: Point, b: Point| #[trigger] f(a, b) == -f(b, a),
    ensures
        ring_sum(f, s.take(n)) == fan_sum(around(f), s, n),
    decreases n,
{
    let t = s.take(n);
    assert(t.drop_last() =~= s.take(n - 1));
    assert(t.last() == s[n - 1] && t[0] == s[0] && t[n - 2] == s[n - 2]);
    if n == 2 {
        assert(path_sum(f, s.take(1)) == 0);
        assert(path_sum(f, t) == f(s[0], s[1]));
        assert(f(s[0], s[1]) == -f(s[1], s[0]));
        assert(fan_sum(around(f), s, 2) == 0);
    } else {
        lemma_fan(f, s, n - 1);
        assert(s.take(n - 1).last() == s[n - 2]);
        assert(s.take(n - 1)[0] == s[0]);
        assert(f(s[n - 2], s[0]) == -f(s[0], s[n - 2]));
        let three = around(f)(s[0], s[n - 2], s[n - 1]);
        assert(three == f(s[0], s[n - 2]) + f(s[n - 2], s[n - 1]) + f(s[n - 1], s[0]));
        assert(path_sum(f, t) == path_sum(f, s.take(n - 1)) + f(s[n - 2], s[n - 1]));
        assert(fan_sum(around(f), s, n) == fan_sum(around(f), s, n - 1) + three);
    }
}

/// How an edge counts for the signed crossing count of `p`.
pub open spec fn winds(p: Point) -> spec_fn(Point, Point) -> int {
    |a: Point, b: Point| contribution(p, a, b)
}

/// Whether an edge counts for the crossing count of `p`.
pub open spec fn hits(p: Point) -> spec_fn(Point, Point) -> int {
    |a: Point, b: Point|
        if crosses(p, a, b) {
            1
        } else {
            0
        }
}

/// The term of an edge in the shoelace sum.
pub open spec fn spans() -> spec_fn(Point, Point) -> int {
    |a: Point, b: Point| shoelace_term(a, b)
}

proof fn lemma_crossings_sum(p: Point, ring: Seq<Point>, n: int)
    requires
        1 <= n <= ring.len(),
    ensures
        crossings(p, ring, n) == path_sum(hits(p), ring.take(n)) + hits(p)(ring.last(), ring[0]),
    decreases n,
{
    let t = ring.take(n);
    assert(t.drop_last() =~= ring.take(n - 1));
    if n > 1 {
        lemma_crossings_sum(p, ring, n - 1);
        assert(t[n - 2] == ring[n - 2] && t[n - 1] == ring[n - 1]);
    } else {
        assert(crossings(p, ring, 0) == 0);
    }
}

proof fn lemma_shoelace_sum(ring: Seq<Point>, n: int)
    requires
        0 <= n < ring.len(),
    ensures
        shoelace(ring, n) == path_sum(spans(), ring.take(n + 1)),
    decreases n,
{
    let t = ring.take(n + 1);
    if n > 0 {
        lemma_shoelace_sum(ring, n - 1);
        assert(t.drop_last() =~= ring.take(n));
        assert(t[n - 1] == ring[n - 1] && t[n] == following(ring, n - 1));
    }
}

pub(crate) proof fn lemma_area_sum(ring: Seq<Point>)
    requires
        ring.len() > 0,
    ensures
        shoelace(ring, ring.len() as int) == ring_sum(spans(), ring),
{
    let n = ring.len() as int;
    lemma_shoelace_sum(ring, n - 1);
    assert(ring.take(n) =~= ring);
    assert(following(ring, n - 1) == ring[0]);
}

pub(crate) proof fn lemma_winding_sum(chain: Seq<Point>, p: Point, n: int)
    requires
        0 <= n < chain.len(),
    ensures
        chain_winding(chain, p, n) == path_sum(winds(p), chain.take(n + 1)),
    decreases n,
{
    let t = chain.take(n + 1);
    if n > 0 {
        lemma_winding_sum(chain, p, n - 1);
        assert(t.drop_last() =~= chain.take(n));
        assert(t[n - 1] == chain[n - 1] && t[n] == chain[n]);
    } else {
        assert(chain_winding(chain, p, 0) == 0);
    }
}

/// The signed area of a triangle, twice: the product of its sides' offsets.
pub proof fn cross_is_twice_the_triangle(o: Point, a: Point, b: Point)
    ensures
        cross(o, a, b) == (a.lon - o.lon) * (b.lat - o.lat) - (b.lon - o.lon) * (a.lat - o.lat),
        cross(o, a, b) == cross(a, b, o),
        cross(o, a, b) == -cross(a, o, b),
{
    reveal(cross);
    let (ax, ay, bx, by) = (a.lon - o.lon, a.lat - o.lat, b.lon - o.lon, b.lat - o.lat);
    assert(ay * bx == bx * ay) by (nonlinear_arith);
    assert((bx - ax) * (0 - ay) - (by - ay) * (0 - ax) == ax * by - ay * bx) by (nonlinear_arith);
    assert((0 - ax) * (by - ay) - (0 - ay) * (bx - ax) == -(ax * by - ay * bx))
        by (nonlinear_arith);
}

/// How a triangle surrounds a point: one where its vertices run counter-clockwise
/// around it, minus one where they run clockwise, and zero where they do not
/// surround it.
pub open spec fn turn(p: Point, a: Point, b: Point, c: Point) -> int {
    let (d1, d2, d3) = (cross(a, b, p), cross(b, c, p), cross(c, a, p));
    if d1 > 0 && d2 > 0 && d3 > 0 {
        1
    } else if d1 < 0 && d2 < 0 && d3 < 0 {
        -1
    } else {
        0
    }
}

/// The point is on no edge of the triangle.
pub open spec fn off_triangle(p: Point, a: Point, b: Point, c: Point) -> bool {
    !on_segment(p, a, b) && !on_segment(p, b, c) && !on_segment(p, c, a)
}

/// The cross product, relative to the point.
proof fn lemma_relative(p: Point, a: Point, b: Point)
    ensures
        cross(a, b, p) == (a.lon - p.lon) * (b.lat - p.lat) - (b.lon - p.lon) * (a.lat - p.lat),
        cross(b, a, p) == -cross(a, b, p),
{
    cross_is_twice_the_triangle(p, a, b);
    cross_is_twice_the_triangle(a, b, p);
    cross_is_twice_the_triangle(p, b, a);
    cross_is_twice_the_triangle(b, a, p);
}

/// A point on the line of an edge that passes its latitude is on the edge.
proof fn lemma_on_passing_edge(p: Point, a: Point, b: Point)
    requires
        a.lat <= p.lat < b.lat,
        cross(a, b, p) == 0,
    ensures
        on_segment(p, a, b),
        on_segment(p, b, a),
{
    lemma_relative(p, a, b);
    let (ax, ay, bx, by) = (a.lon - p.lon, a.lat - p.lat, b.lon - p.lon, b.lat - p.lat);
    assert(ax * by == bx * ay);
    if ax > 0 {
        assert(ax * by > 0) by (nonlinear_arith)
            requires
                ax > 0,
                by > 0,
        ;
        assert(bx < 0) by (nonlinear_arith)
            requires
                bx * ay > 0,
                ay <= 0,
        ;
    } else if ax < 0 {
        assert(ax * by < 0) by (nonlinear_arith)
            requires
                ax < 0,
                by > 0,
        ;
        assert(bx > 0) by (nonlinear_arith)
            requires
                bx * ay < 0,
                ay <= 0,
        ;
    }
}

/// The point as a weighted mean of the vertices.
proof fn lemma_weights(p: Point, a: Point, b: Point, c: Point)
    ensures
        cross(b, c, p) * (a.lat - p.lat) + cross(c, a, p) * (b.lat - p.lat) + cross(a, b, p) * (
        c.lat - p.lat) == 0,
        cross(b, c, p) * (a.lon - p.lon) + cross(c, a, p) * (b.lon - p.lon) + cross(a, b, p) * (
        c.lon - p.lon) == 0,
{
    lemma_relative(p, a, b);
    lemma_relative(p, b, c);
    lemma_relative(p, c, a);
    let (ax, ay) = (a.lon - p.lon, a.lat - p.lat);
    let (bx, by) = (b.lon - p.lon, b.lat - p.lat);
    let (cx, cy) = (c.lon - p.lon, c.lat - p.lat);
    lemma_cyclic(ax, ay, bx, by, cx, cy);
    lemma_cyclic(ay, ax, by, bx, cy, cx);
    assert(bx * cy - cx * by == -(by * cx - cy * bx)) by (nonlinear_arith);
    assert(cx * ay - ax * cy == -(cy * ax - ay * cx)) by (nonlinear_arith);
    assert(ax * by - bx * ay == -(ay * bx - by * ax)) by (nonlinear_arith);
    let (d1, d2, d3) = (ay * bx - by * ax, by * cx - cy * bx, cy * ax - ay * cx);
    assert((-d2) * ax + (-d3) * bx + (-d1) * cx == -(d2 * ax + d3 * bx + d1 * cx))
        by (nonlinear_arith);
}

pub(crate) proof fn lemma_cyclic(ax: int, ay: int, bx: int, by: int, cx: int, cy: int)
    ensures
        (bx * cy - cx * by) * ay + (cx * ay - ax * cy) * by + (ax * by - bx * ay) * cy == 0,
{
    let (p, q) = (bx * cy, cx * by);
    assert((p - q) * ay == p * ay - q * ay) by (nonlinear_arith);
    let (r, s) = (cx * ay, ax * cy);
    assert((r - s) * by == r * by - s * by) by (nonlinear_arith);
    let (t, u) = (ax * by, bx * ay);
    assert((t - u) * cy == t * cy - u * cy) by (nonlinear_arith);
    assert((bx * cy) * ay == (bx * ay) * cy) by (nonlinear_arith);
    assert((cx * by) * ay == (cx * ay) * by) by (nonlinear_arith);
    assert((ax * cy) * by == (ax * by) * cy) by (nonlinear_arith);
}

/// The signed crossings of a triangle, where its third vertex alone is above the
/// ray.
proof fn lemma_turn_above(p: Point, a: Point, b: Point, c: Point)
    requires
        off_triangle(p, a, b, c),
        a.lat <= p.lat,
        b.lat <= p.lat,
        p.lat < c.lat,
    ensures
        around(winds(p))(a, b, c) == turn(p, a, b, c),
{
    lemma_relative(p, a, b);
    lemma_relative(p, b, c);
    lemma_relative(p, c, a);
    lemma_weights(p, a, b, c);
    let (d1, d2, d3) = (cross(a, b, p), cross(b, c, p), cross(c, a, p));
    if d2 == 0 {
        lemma_on_passing_edge(p, b, c);
    }
    if d3 == 0 {
        lemma_on_passing_edge(p, a, c);
    }
    let (ay, by, cy) = (a.lat - p.lat, b.lat - p.lat, c.lat - p.lat);
    let (ax, bx, cx) = (a.lon - p.lon, b.lon - p.lon, c.lon - p.lon);
    if (d2 > 0 && d3 > 0) || (d2 < 0 && d3 < 0) {
        if d2 > 0 {
            assert(d2 * ay <= 0 && d3 * by <= 0) by (nonlinear_arith)
                requires
                    d2 > 0,
                    d3 > 0,
                    ay <= 0,
                    by <= 0,
            ;
            assert(d1 >= 0) by (nonlinear_arith)
                requires
                    d1 * cy >= 0,
                    cy > 0,
            ;
        } else {
            assert(d2 * ay >= 0 && d3 * by >= 0) by (nonlinear_arith)
                requires
                    d2 < 0,
                    d3 < 0,
                    ay <= 0,
                    by <= 0,
            ;
            assert(d1 <= 0) by (nonlinear_arith)
                requires
                    d1 * cy <= 0,
                    cy > 0,
            ;
        }
        if d1 == 0 {
            assert(d1 * cy == 0 && d1 * cx == 0) by (nonlinear_arith)
                requires
                    d1 == 0,
            ;
            assert(ay == 0) by (nonlinear_arith)
                requires
                    d2 * ay == 0,
                    d2 != 0,
            ;
            assert(by == 0) by (nonlinear_arith)
                requires
                    d3 * by == 0,
                    d3 != 0,
            ;
            assert((ax <= 0 && 0 <= bx) || (bx <= 0 && 0 <= ax)) by (nonlinear_arith)
                requires
                    d2 * ax + d3 * bx == 0,
                    (d2 > 0 && d3 > 0) || (d2 < 0 && d3 < 0),
            ;
            assert(on_segment(p, a, b));
        }
    }
}

/// The signed crossings of a triangle, where its third vertex alone is not above
/// the ray.
proof fn lemma_turn_below(p: Point, a: Point, b: Point, c: Point)
    requires
        off_triangle(p, a, b, c),
        p.lat < a.lat,
        p.lat < b.lat,
        c.lat <= p.lat,
    ensures
        around(winds(p))(a, b, c) == turn(p, a, b, c),
{
    lemma_relative(p, a, b);
    lemma_relative(p, b, c);
    lemma_relative(p, c, a);
    lemma_weights(p, a, b, c);
    let (d1, d2, d3) = (cross(a, b, p), cross(b, c, p), cross(c, a, p));
    if d2 == 0 {
        lemma_on_passing_edge(p, c, b);
    }
    if d3 == 0 {
        lemma_on_passing_edge(p, c, a);
    }
    let (ay, by, cy) = (a.lat - p.lat, b.lat - p.lat, c.lat - p.lat);
    if d2 > 0 && d3 > 0 {
        assert(d2 * ay > 0 && d3 * by > 0) by (nonlinear_arith)
            requires
                d2 > 0,
                d3 > 0,
                ay > 0,
                by > 0,
        ;
        assert(d1 > 0) by (nonlinear_arith)
            requires
                d1 * cy < 0,
                cy <= 0,
        ;
    } else if d2 < 0 && d3 < 0 {
        assert(d2 * ay < 0 && d3 * by < 0) by (nonlinear_arith)
            requires
                d2 < 0,
                d3 < 0,
                ay > 0,
                by > 0,
        ;
        assert(d1 < 0) by (nonlinear_arith)
            requires
                d1 * cy > 0,
                cy <= 0,
        ;
    }
}

/// A triangle does not surround a point that all its vertices are above, or that
/// none is above.
proof fn lemma_turn_level(p: Point, a: Point, b: Point, c: Point)
    requires
        (p.lat < a.lat && p.lat < b.lat && p.lat < c.lat) || (a.lat <= p.lat && b.lat <= p.lat
            && c.lat <= p.lat),
    ensures
        turn(p, a, b, c) == 0,
{
    lemma_weights(p, a, b, c);
    lemma_relative(p, a, b);
    let (d1, d2, d3) = (cross(a, b, p), cross(b, c, p), cross(c, a, p));
    let (ay, by, cy) = (a.lat - p.lat, b.lat - p.lat, c.lat - p.lat);
    if turn(p, a, b, c) != 0 {
        if p.lat < a.lat {
            assert(d2 * ay + d3 * by + d1 * cy != 0) by (nonlinear_arith)
                requires
                    ay > 0,
                    by > 0,
                    cy > 0,
                    (d1 > 0 && d2 > 0 && d3 > 0) || (d1 < 0 && d2 < 0 && d3 < 0),
            ;
        } else {
            assert(ay == 0 && by == 0) by (nonlinear_arith)
                requires
                    d2 * ay + d3 * by + d1 * cy == 0,
                    ay <= 0,
                    by <= 0,
                    cy <= 0,
                    (d1 > 0 && d2 > 0 && d3 > 0) || (d1 < 0 && d2 < 0 && d3 < 0),
            ;
            let (ax, bx) = (a.lon - p.lon, b.lon - p.lon);
            assert(ax * by - bx * ay == 0) by (nonlinear_arith)
                requires
                    ay == 0,
                    by == 0,
            ;
        }
    }
}

/// The signed crossings of a triangle say whether it surrounds the point, and in
/// which direction.
pub proof fn a_triangle_winds_around_what_it_surrounds(p: Point, a: Point, b: Point, c: Point)
    requires
        off_triangle(p, a, b, c),
    ensures
        contribution(p, a, b) + contribution(p, b, c) + contribution(p, c, a) == turn(p, a, b, c),
{
    let above = |q: Point| p.lat < q.lat;
    assert(turn(p, a, b, c) == turn(p, b, c, a) && turn(p, a, b, c) == turn(p, c, a, b));
    if above(a) == above(b) && above(b) == above(c) {
        lemma_turn_level(p, a, b, c);
    } else if above(a) == above(b) {
        if above(c) {
            lemma_turn_above(p, a, b, c);
        } else {
            lemma_turn_below(p, a, b, c);
        }
    } else if above(b) == above(c) {
        if above(a) {
            lemma_turn_above(p, b, c, a);
        } else {
            lemma_turn_below(p, b, c, a);
        }
    } else {
        if above(b) {
            lemma_turn_above(p, c, a, b);
        } else {
            lemma_turn_below(p, c, a, b);
        }
    }
}

/// The point is on no edge of a triangle of the fan over the first `n` vertices.
pub open spec fn off_fan(p: Point, ring: Seq<Point>, n: int) -> bool {
    forall|i: int|
        2 <= i < n ==> off_triangle(p, ring[0], ring[i - 1], #[trigger] ring[i])
}

/// How often the triangles of the fan surround the point: those that run
/// counter-clockwise less those that run clockwise.
pub open spec fn fan_turns(p: Point, ring: Seq<Point>) -> int {
    fan_sum(|a: Point, b: Point, c: Point| turn(p, a, b, c), ring, ring.len() as int)
}

proof fn lemma_fan_turns(p: Point, ring: Seq<Point>, n: int)
    requires
        0 <= n <= ring.len(),
        off_fan(p, ring, n),
    ensures
        fan_sum(around(winds(p)), ring, n) == fan_sum(
            |a: Point, b: Point, c: Point| turn(p, a, b, c),
            ring,
            n,
        ),
    decreases n,
{
    if n > 2 {
        lemma_fan_turns(p, ring, n - 1);
        assert(off_triangle(p, ring[0], ring[n - 2], ring[n - 1]));
        a_triangle_winds_around_what_it_surrounds(p, ring[0], ring[n - 2], ring[n - 1]);
    }
}

pub(crate) proof fn lemma_winds_opposite(p: Point)
    ensures
        forall|a: Point, b: Point| #[trigger] winds(p)(a, b) == -winds(p)(b, a),
{
    assert forall|a: Point, b: Point| #[trigger] winds(p)(a, b) == -winds(p)(b, a) by {
        if rises_past(p, a, b) {
            assert(!rises_past(p, b, a));
        }
    }
}

pub(crate) proof fn lemma_spans_opposite()
    ensures
        forall|a: Point, b: Point| #[trigger] spans()(a, b) == -spans()(b, a),
{
    assert forall|a: Point, b: Point| #[trigger] spans()(a, b) == -spans()(b, a) by {
    }
}

/// The crossings and the signed crossings of a path differ by an even number.
proof fn lemma_same_parity(p: Point, s: Seq<Point>)
    ensures
        (path_sum(hits(p), s) - path_sum(winds(p), s)) % 2 == 0,
    decreases s.len(),
{
    if s.len() > 1 {
        lemma_same_parity(p, s.drop_last());
        let (a, b) = (s[s.len() - 2], s[s.len() - 1]);
        assert(hits(p)(a, b) - winds(p)(a, b) == 0 || hits(p)(a, b) - winds(p)(a, b) == 2);
    }
}

/// Being inside is a matter of parity: a point off the edges is in a polygon
/// exactly where an odd number of the triangles of its fan surround it.
pub proof fn a_polygon_is_a_fan_of_triangles(p: Point, ring: Seq<Point>)
    requires
        ring.len() >= 3,
        off_fan(p, ring, ring.len() as int),
    ensures
        inside_ring(p, ring) <==> fan_turns(p, ring) % 2 == 1,
        !on_edge(p, ring, ring.len() as int) ==> (in_polygon(p, ring) <==> fan_turns(p, ring) % 2
            == 1),
{
    let n = ring.len() as int;
    assert(ring.take(n) =~= ring);
    lemma_crossings_sum(p, ring, n);
    lemma_same_parity(p, ring);
    lemma_winds_opposite(p);
    lemma_fan(winds(p), ring, n);
    lemma_fan_turns(p, ring, n);
    let (a, b) = (ring.last(), ring[0]);
    assert(hits(p)(a, b) - winds(p)(a, b) == 0 || hits(p)(a, b) - winds(p)(a, b) == 2);
}

/// A triangle holds, off its edges, exactly what it surrounds.
pub proof fn a_triangle_holds_what_it_surrounds(p: Point, a: Point, b: Point, c: Point)
    requires
        off_triangle(p, a, b, c),
    ensures
        inside_ring(p, seq![a, b, c]) <==> turn(p, a, b, c) != 0,
{
    let ring = seq![a, b, c];
    assert(off_fan(p, ring, 3));
    a_polygon_is_a_fan_of_triangles(p, ring);
    let g = |a: Point, b: Point, c: Point| turn(p, a, b, c);
    assert(fan_sum(g, ring, 2) == 0);
    assert(fan_sum(g, ring, 3) == turn(p, a, b, c));
}

/// A polygon that is cut from one vertex to another holds, of each point, what
/// exactly one of the two parts holds.
pub proof fn a_cut_polygon_is_either_of_its_parts(p: Point, ring: Seq<Point>, i: int, j: int)
    requires
        0 <= i < j < ring.len(),
    ensures
        inside_ring(p, ring) <==> inside_ring(p, cut_off(ring, i, j)) != inside_ring(
            p,
            cut_from(ring, i, j),
        ),
{
    let (mid, rest) = (cut_off(ring, i, j), cut_from(ring, i, j));
    lemma_ring_cut(hits(p), ring, i, j);
    lemma_crossings_sum(p, ring, ring.len() as int);
    lemma_crossings_sum(p, mid, mid.len() as int);
    lemma_crossings_sum(p, rest, rest.len() as int);
    assert(ring.take(ring.len() as int) =~= ring);
    assert(mid.take(mid.len() as int) =~= mid);
    assert(rest.take(rest.len() as int) =~= rest);
    assert(hits(p)(ring[i], ring[j]) == hits(p)(ring[j], ring[i]));
}

/// Adding a vertex to a polygon takes in or leaves out exactly what the triangle
/// with the ends of the edge that it replaces surrounds.
pub proof fn a_new_vertex_adds_its_triangle(p: Point, ring: Seq<Point>, v: Point)
    requires
        ring.len() >= 2,
        off_triangle(p, ring.last(), v, ring[0]),
    ensures
        inside_ring(p, ring.push(v)) <==> inside_ring(p, ring) != (turn(
            p,
            ring.last(),
            v,
            ring[0],
        ) != 0),
{
    let more = ring.push(v);
    let n = ring.len() as int;
    lemma_crossings_sum(p, ring, n);
    lemma_crossings_sum(p, more, n + 1);
    assert(ring.take(n) =~= ring);
    assert(more.take(n + 1) =~= more);
    assert(more.drop_last() =~= ring);
    let (a, b) = (ring.last(), ring[0]);
    a_triangle_holds_what_it_surrounds(p, a, v, b);
    let tri = seq![a, v, b];
    lemma_crossings_sum(p, tri, 3);
    assert(tri.take(3) =~= tri);
    assert(tri.drop_last() =~= seq![a, v]);
    assert(seq![a, v].drop_last() =~= seq![a]);
    assert(path_sum(hits(p), seq![a]) == 0);
    assert(path_sum(hits(p), seq![a, v]) == hits(p)(a, v));
    assert(path_sum(hits(p), tri) == hits(p)(a, v) + hits(p)(v, b));
    assert(path_sum(hits(p), more) == path_sum(hits(p), ring) + hits(p)(a, v));
    assert(hits(p)(a, b) == hits(p)(b, a));
}

/// Twice the signed area of a ring, as the sum over the triangles of its fan.
pub open spec fn fan_area(ring: Seq<Point>) -> int {
    fan_sum(|a: Point, b: Point, c: Point| cross(a, b, c), ring, ring.len() as int)
}

proof fn lemma_triangle_area(a: Point, b: Point, c: Point)
    ensures
        around(spans())(a, b, c) == cross(a, b, c),
{
    cross_is_twice_the_triangle(a, b, c);
    let (ax, ay, bx, by, cx, cy) = (
        a.lon as int,
        a.lat as int,
        b.lon as int,
        b.lat as int,
        c.lon as int,
        c.lat as int,
    );
    assert((bx - ax) * (cy - ay) - (cx - ax) * (by - ay) == (ax * by - bx * ay) + (bx * cy - cx
        * by) + (cx * ay - ax * cy)) by (nonlinear_arith);
}

proof fn lemma_fan_area(ring: Seq<Point>, n: int)
    requires
        0 <= n <= ring.len(),
    ensures
        fan_sum(around(spans()), ring, n) == fan_sum(
            |a: Point, b: Point, c: Point| cross(a, b, c),
            ring,
            n,
        ),
    decreases n,
{
    if n > 2 {
        lemma_fan_area(ring, n - 1);
        lemma_triangle_area(ring[0], ring[n - 2], ring[n - 1]);
    }
}

/// The shoelace sum is twice the signed area: the sum of the triangles of the fan,
/// over all vertices.
pub proof fn the_shoelace_sum_is_the_fan_area(ring: Seq<Point>)
    ensures
        shoelace(ring, ring.len() as int) == fan_area(ring),
        encloses_land(ring) <==> fan_area(ring) > 0,
{
    let n = ring.len() as int;
    if n >= 2 {
        lemma_area_sum(ring);
        assert(ring.take(n) =~= ring);
        lemma_spans_opposite();
        lemma_fan(spans(), ring, n);
        lemma_fan_area(ring, n);
    } else if n == 1 {
        lemma_area_sum(ring);
        let (x, y) = (ring[0].lon as int, ring[0].lat as int);
        assert(x * y - x * y == 0);
        assert(ring.drop_last().len() == 0);
    }
}

/// Every assembled ring is marked land exactly where its area over all of its
/// vertices is positive.
pub proof fn a_ring_is_land_where_its_area_is_positive<A: Fn(&Vec<Point>) -> u64>(
    area: A,
    rings: Seq<Seq<Vertex>>,
    out: Seq<CoastlineRing>,
    k: int,
)
    requires
        classified(area, rings, out),
        0 <= k < out.len(),
    ensures
        out[k].vertices@ == rings[k],
        out[k].is_land <==> fan_area(positions(out[k].vertices@)) > 0,
{
    the_shoelace_sum_is_the_fan_area(positions(rings[k]));
}

proof fn lemma_turned_area(ring: Seq<Point>)
    requires
        ring.len() > 0,
    ensures
        ring_sum(spans(), turned_ring(ring, 1)) == ring_sum(spans(), ring),
{
    let next = turned_ring(ring, 1);
    if ring.len() > 1 {
        let one = seq![ring[0]];
        let tail = ring.skip(1);
        lemma_path_join(spans(), one, tail);
        lemma_path_join(spans(), tail, one);
        assert(one + tail =~= ring);
        assert(tail + one =~= next);
        assert(tail[0] == ring[1] && tail.last() == ring.last());
        assert(next[0] == ring[1] && next.last() == ring[0]);
    } else {
        assert(next =~= ring);
    }
}

/// Where a ring is started does not change its area, nor whether it encloses land.
pub proof fn a_turned_ring_encloses_the_same(ring: Seq<Point>, k: int)
    requires
        0 <= k <= ring.len(),
    ensures
        shoelace(turned_ring(ring, k), ring.len() as int) == shoelace(ring, ring.len() as int),
        encloses_land(turned_ring(ring, k)) == encloses_land(ring),
    decreases k,
{
    if k == 0 {
        assert(turned_ring(ring, 0) =~= ring);
    } else {
        a_turned_ring_encloses_the_same(ring, k - 1);
        let before = turned_ring(ring, k - 1);
        lemma_turned_area(before);
        lemma_area_sum(before);
        lemma_area_sum(turned_ring(before, 1));
        assert(turned_ring(before, 1) =~= turned_ring(ring, k));
    }
}

proof fn lemma_reversed(f: spec_fn(Point, Point) -> int, s: Seq<Point>)
    requires
        forall|a: Point, b: Point| #[trigger] f(a, b) == -f(b, a),
    ensures
        path_sum(f, s.reverse()) == -path_sum(f, s),
    decreases s.len(),
{
    let r = s.reverse();
    if s.len() > 1 {
        let tail = s.drop_last();
        lemma_reversed(f, tail);
        lemma_path_join(f, seq![s.last()], tail.reverse());
        assert(r =~= seq![s.last()] + tail.reverse());
        assert(tail.reverse()[0] == s[s.len() - 2]);
        assert(path_sum(f, seq![s.last()]) == 0);
        assert(f(s.last(), s[s.len() - 2]) == -f(s[s.len() - 2], s.last()));
    }
}

/// Reversing a ring negates its area: where it encloses any, land becomes water
/// and water land.
pub proof fn a_reversed_ring_encloses_the_opposite(ring: Seq<Point>)
    ensures
        shoelace(ring.reverse(), ring.len() as int) == -shoelace(ring, ring.len() as int),
        shoelace(ring, ring.len() as int) != 0 ==> encloses_land(ring.reverse()) != encloses_land(
            ring,
        ),
{
    if ring.len() > 0 {
        let r = ring.reverse();
        lemma_area_sum(ring);
        lemma_area_sum(r);
        lemma_spans_opposite();
        lemma_reversed(spans(), ring);
        assert(r.last() == ring[0] && r[0] == ring.last());
        assert(spans()(ring[0], ring.last()) == -spans()(ring.last(), ring[0]));
    }
}

/// The areas of the parts of a ring that is cut from one vertex to another add up
/// to the whole.
pub proof fn areas_of_a_cut_ring_add_up(ring: Seq<Point>, i: int, j: int)
    requires
        0 <= i < j < ring.len(),
    ensures
        shoelace(cut_off(ring, i, j), (j - i + 1)) + shoelace(
            cut_from(ring, i, j),
            (ring.len() - (j - i - 1)),
        ) == shoelace(ring, ring.len() as int),
{
    let (mid, rest) = (cut_off(ring, i, j), cut_from(ring, i, j));
    lemma_ring_cut(spans(), ring, i, j);
    lemma_area_sum(ring);
    lemma_area_sum(mid);
    lemma_area_sum(rest);
    assert(spans()(ring[i], ring[j]) == -spans()(ring[j], ring[i]));
}

/// A way of two nodes counts exactly as its one edge does: land is on its left.
/// It counts once upwards for the points west of it, from the latitude of its
/// lower end up to that of its upper end, and once downwards where it runs down.
pub proof fn a_way_of_two_nodes_counts_as_its_edge(a: Point, b: Point, p: Point)
    ensures
        chain_winding(seq![a, b], p, 1) == if a.lat <= p.lat < b.lat && (b.lon - a.lon) * (p.lat
            - a.lat) - (p.lon - a.lon) * (b.lat - a.lat) > 0 {
            1int
        } else if b.lat <= p.lat < a.lat && (b.lon - a.lon) * (p.lat - a.lat) - (p.lon - a.lon) * (
        b.lat - a.lat) < 0 {
            -1int
        } else {
            0int
        },
{
    cross_is_twice_the_triangle(a, b, p);
    lemma_relative(p, a, b);
    assert(chain_winding(seq![a, b], p, 0) == 0);
    assert(cross(b, a, p) == -cross(a, b, p));
}

/// A way counts as the two ways that it is cut into at one of its nodes.
pub proof fn a_cut_way_counts_the_same(chain: Seq<Point>, p: Point, i: int)
    requires
        0 <= i < chain.len(),
    ensures
        chain_winding(chain, p, chain.len() - 1) == chain_winding(chain.take(i + 1), p, i)
            + chain_winding(chain.skip(i), p, chain.len() - 1 - i),
{
    let n = chain.len() as int;
    let (left, right) = (chain.take(i + 1), chain.skip(i));
    lemma_winding_sum(chain, p, n - 1);
    lemma_winding_sum(left, p, i);
    lemma_winding_sum(right, p, n - 1 - i);
    assert(chain.take(n) =~= chain);
    assert(left.take(i + 1) =~= left);
    assert(right.take(n - i) =~= right);
    lemma_path_cut(winds(p), chain, i);
}

/// A way that is reversed counts the other way.
pub proof fn a_reversed_way_counts_the_other_way(chain: Seq<Point>, p: Point)
    requires
        chain.len() > 0,
    ensures
        chain_winding(chain.reverse(), p, chain.len() - 1) == -chain_winding(
            chain,
            p,
            chain.len() - 1,
        ),
{
    let n = chain.len() as int;
    lemma_winding_sum(chain, p, n - 1);
    lemma_winding_sum(chain.reverse(), p, n - 1);
    assert(chain.take(n) =~= chain);
    assert(chain.reverse().take(n) =~= chain.reverse());
    lemma_winds_opposite(p);
    lemma_reversed(winds(p), chain);
}

/// A closed way winds around a point off the edges as often as the triangles of
/// its fan surround it: once around an island, once the other way around a bay.
pub proof fn a_closed_way_winds_as_its_fan_turns(ring: Seq<Point>, p: Point)
    requires
        ring.len() >= 3,
        off_fan(p, ring, ring.len() as int),
    ensures
        chain_winding(ring.push(ring[0]), p, ring.len() as int) == fan_turns(p, ring),
{
    let n = ring.len() as int;
    let chain = ring.push(ring[0]);
    lemma_winding_sum(chain, p, n);
    assert(chain.take(n + 1) =~= chain);
    assert(chain.drop_last() =~= ring);
    assert(ring.take(n) =~= ring);
    lemma_winds_opposite(p);
    lemma_fan(winds(p), ring, n);
    lemma_fan_turns(p, ring, n);
}

} // verus!
