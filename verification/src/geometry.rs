//! Exact plane geometry on archive coordinates.

use vstd::prelude::*;

verus! {

/// A point in archive units (`lon` = x, `lat` = y).
#[derive(Clone, Copy, Debug, PartialEq, Eq, Structural)]
pub struct Point {
    pub lon: i32,
    pub lat: i32,
}

/// Twice the signed area of the triangle `o`, `a`, `b`: positive where `b` lies
/// to the left of the line from `o` to `a`.
#[verifier::opaque]
pub open spec fn cross(o: Point, a: Point, b: Point) -> int {
    (a.lon - o.lon) * (b.lat - o.lat) - (a.lat - o.lat) * (b.lon - o.lon)
}

/// The edge from `a` up to `b` crosses the ray due east from `p`. It starts on or
/// below the ray and ends above it, so an edge that merely touches the ray with
/// its upper end does not cross it.
pub open spec fn rises_past(p: Point, a: Point, b: Point) -> bool {
    a.lat <= p.lat < b.lat && cross(a, b, p) > 0
}

/// The edge between `a` and `b` crosses the ray due east from `p`.
pub open spec fn crosses(p: Point, a: Point, b: Point) -> bool {
    rises_past(p, a, b) || rises_past(p, b, a)
}

/// How the directed edge from `a` to `b` contributes to the signed crossing
/// count of the ray due east from `p`: one upwards, minus one downwards.
pub open spec fn contribution(p: Point, a: Point, b: Point) -> int {
    if rises_past(p, a, b) {
        1
    } else if rises_past(p, b, a) {
        -1
    } else {
        0
    }
}

proof fn lemma_product(x: int, y: int)
    requires
        -0x1_0000_0000 <= x <= 0x1_0000_0000,
        -0x1_0000_0000 <= y <= 0x1_0000_0000,
    ensures
        -0x1_0000_0000_0000_0000 <= x * y <= 0x1_0000_0000_0000_0000,
{
    assert(-0x1_0000_0000_0000_0000 <= x * y <= 0x1_0000_0000_0000_0000) by (nonlinear_arith)
        requires
            -0x1_0000_0000 <= x <= 0x1_0000_0000,
            -0x1_0000_0000 <= y <= 0x1_0000_0000,
    ;
}

/// Twice the signed area of a triangle.
pub fn cross_product(o: Point, a: Point, b: Point) -> (out: i128)
    ensures
        out == cross(o, a, b),
        -0x2_0000_0000_0000_0000 <= out <= 0x2_0000_0000_0000_0000,
{
    let (ax, ay): (i128, i128) = (a.lon as i128 - o.lon as i128, a.lat as i128 - o.lat as i128);
    let (bx, by): (i128, i128) = (b.lon as i128 - o.lon as i128, b.lat as i128 - o.lat as i128);
    proof {
        reveal(cross);
        lemma_product(ax as int, by as int);
        lemma_product(ay as int, bx as int);
    }
    ax * by - ay * bx
}

/// Whether the edge from `a` up to `b` crosses the ray due east from `p`.
fn rises(p: Point, a: Point, b: Point) -> (out: bool)
    ensures
        out == rises_past(p, a, b),
{
    a.lat <= p.lat && p.lat < b.lat && cross_product(a, b, p) > 0
}

/// Whether the edge between `a` and `b` crosses the ray due east from `p`.
pub fn crosses_ray(p: Point, a: Point, b: Point) -> (out: bool)
    ensures
        out == crosses(p, a, b),
{
    rises(p, a, b) || rises(p, b, a)
}

/// Contribution of the directed segment `a -> b` to the signed crossing count
/// for a ray cast due east from `p`; 0 if the segment does not cross that ray to
/// the east of the point. The latitude interval is half-open, so a ray passing
/// exactly through a vertex shared by two segments is counted by exactly one of
/// them, not zero or two.
pub fn crossing_contribution(a: Point, b: Point, p: Point) -> (out: i64)
    ensures
        out == contribution(p, a, b),
{
    if rises(p, a, b) {
        1
    } else if rises(p, b, a) {
        -1
    } else {
        0
    }
}

/// `p` lies on the segment between `a` and `b`.
pub open spec fn on_segment(p: Point, a: Point, b: Point) -> bool {
    &&& cross(a, b, p) == 0
    &&& (a.lon <= p.lon <= b.lon || b.lon <= p.lon <= a.lon)
    &&& (a.lat <= p.lat <= b.lat || b.lat <= p.lat <= a.lat)
}

/// Whether `point` lies on the segment between `a` and `b`, ends included.
pub fn point_on_segment(point: Point, a: Point, b: Point) -> (out: bool)
    ensures
        out == on_segment(point, a, b),
{
    cross_product(a, b, point) == 0 && ((a.lon <= point.lon && point.lon <= b.lon) || (b.lon
        <= point.lon && point.lon <= a.lon)) && ((a.lat <= point.lat && point.lat <= b.lat) || (
    b.lat <= point.lat && point.lat <= a.lat))
}

/// The vertex before vertex `i` of a ring.
pub open spec fn previous(ring: Seq<Point>, i: int) -> Point {
    if i == 0 {
        ring[ring.len() - 1]
    } else {
        ring[i - 1]
    }
}

/// How many of the first `n` edges of a ring (edge `i` ends at vertex `i`) cross
/// the ray due east from `p`.
pub open spec fn crossings(p: Point, ring: Seq<Point>, n: int) -> nat
    decreases n,
{
    if n <= 0 {
        0
    } else {
        crossings(p, ring, n - 1) + if crosses(p, previous(ring, n - 1), ring[n - 1]) {
            1nat
        } else {
            0
        }
    }
}

/// `p` is inside the ring: a ray from it crosses the ring an odd number of
/// times.
pub open spec fn inside_ring(p: Point, ring: Seq<Point>) -> bool {
    crossings(p, ring, ring.len() as int) % 2 == 1
}

/// `p` is on one of the first `n` edges of the ring.
pub open spec fn on_edge(p: Point, ring: Seq<Point>, n: int) -> bool {
    exists|i: int| 0 <= i < n && on_segment(p, previous(ring, i), #[trigger] ring[i])
}

/// Ray-casting point-in-polygon test against a ring.
pub fn point_in_ring(pt: Point, ring: &[Point]) -> (out: bool)
    ensures
        out == inside_ring(pt, ring@),
{
    let n: usize = ring.len();
    let mut inside = false;
    let mut i: usize = 0;
    while i < n
        invariant
            i <= n,
            n == ring@.len(),
            inside == (crossings(pt, ring@, i as int) % 2 == 1),
        decreases n - i,
    {
        let j: usize = if i == 0 {
            n - 1
        } else {
            i - 1
        };
        if crosses_ray(pt, ring[j], ring[i]) {
            inside = !inside;
        }
        i = i + 1;
    }
    inside
}

/// Point-in-polygon, boundary included.
pub open spec fn in_polygon(p: Point, ring: Seq<Point>) -> bool {
    on_edge(p, ring, ring.len() as int) || inside_ring(p, ring)
}

/// Exact point-in-polygon test, boundary included.
pub fn point_in_polygon(point: Point, polygon: &[Point]) -> (out: bool)
    ensures
        out == in_polygon(point, polygon@),
{
    let n: usize = polygon.len();
    let mut i: usize = 0;
    while i < n
        invariant
            i <= n,
            n == polygon@.len(),
            !on_edge(point, polygon@, i as int),
        decreases n - i,
    {
        let j: usize = if i == 0 {
            n - 1
        } else {
            i - 1
        };
        if point_on_segment(point, polygon[j], polygon[i]) {
            proof {
                assert(on_segment(point, previous(polygon@, i as int), polygon@[i as int]));
            }
            return true;
        }
        i = i + 1;
    }
    point_in_ring(point, polygon)
}

/// A vertex of a polygon is in it.
pub proof fn a_polygon_holds_its_vertices(ring: Seq<Point>, i: int)
    requires
        0 <= i < ring.len(),
    ensures
        in_polygon(ring[i], ring),
{
    let (a, b) = (previous(ring, i), ring[i]);
    reveal(cross);
    assert(cross(a, b, b) == 0) by (nonlinear_arith)
        requires
            cross(a, b, b) == (b.lon - a.lon) * (b.lat - a.lat) - (b.lat - a.lat) * (b.lon - a.lon),
    ;
    assert(on_segment(b, a, b));
}

/// The ring, started at vertex `k`.
pub open spec fn turned_ring(ring: Seq<Point>, k: int) -> Seq<Point> {
    ring.skip(k) + ring.take(k)
}

/// The edges of a ring that is started one vertex later.
proof fn lemma_next_edges(p: Point, ring: Seq<Point>, n: int)
    requires
        1 <= n <= ring.len() - 1,
    ensures
        crossings(p, turned_ring(ring, 1), n) == crossings(p, ring, n + 1) - crossings(p, ring, 1),
        on_edge(p, turned_ring(ring, 1), n) || on_edge(p, ring, 1) <==> on_edge(p, ring, n + 1),
    decreases n,
{
    let next = turned_ring(ring, 1);
    assert(next[n - 1] == ring[n]);
    assert(previous(next, n - 1) == previous(ring, n));
    if n > 1 {
        lemma_next_edges(p, ring, n - 1);
    }
    assert forall|m: int| 0 <= m < n implies previous(next, m) == previous(ring, m + 1)
        && #[trigger] next[m] == ring[m + 1] by {
    }
    if on_edge(p, next, n) {
        let i = choose|i: int| 0 <= i < n && on_segment(p, previous(next, i), #[trigger] next[i]);
        assert(on_segment(p, previous(ring, i + 1), ring[i + 1]));
    }
    if on_edge(p, ring, n + 1) {
        let i = choose|i: int|
            0 <= i < n + 1 && on_segment(p, previous(ring, i), #[trigger] ring[i]);
        if i > 0 {
            assert(on_segment(p, previous(next, i - 1), next[i - 1]));
        }
    }
    reveal_with_fuel(crossings, 2);
}

proof fn lemma_turned_once(p: Point, ring: Seq<Point>)
    requires
        ring.len() > 0,
    ensures
        in_polygon(p, turned_ring(ring, 1)) == in_polygon(p, ring),
{
    let next = turned_ring(ring, 1);
    let n = ring.len() as int;
    if n == 1 {
        assert(next =~= ring);
    } else {
        lemma_next_edges(p, ring, n - 1);
        assert(next[n - 1] == ring[0]);
        assert(previous(next, n - 1) == previous(ring, 0));
        reveal_with_fuel(crossings, 2);
        assert(on_edge(p, next, n) <==> on_edge(p, next, n - 1) || on_edge(p, ring, 1)) by {
            if on_edge(p, next, n) {
                let i = choose|i: int|
                    0 <= i < n && on_segment(p, previous(next, i), #[trigger] next[i]);
                if i < n - 1 {
                    assert(on_edge(p, next, n - 1));
                } else {
                    assert(on_segment(p, previous(ring, 0), ring[0]));
                }
            }
            if on_edge(p, next, n - 1) {
                let i = choose|i: int|
                    0 <= i < n - 1 && on_segment(p, previous(next, i), #[trigger] next[i]);
                assert(0 <= i < n && on_segment(p, previous(next, i), next[i]));
            }
            if on_edge(p, ring, 1) {
                let i = choose|i: int|
                    0 <= i < 1 && on_segment(p, previous(ring, i), #[trigger] ring[i]);
                assert(on_segment(p, previous(next, n - 1), next[n - 1]));
            }
        }
    }
}

/// A polygon holds the same points wherever its ring is started.
pub proof fn a_turned_ring_holds_the_same_points(p: Point, ring: Seq<Point>, k: int)
    requires
        0 <= k <= ring.len(),
    ensures
        in_polygon(p, turned_ring(ring, k)) == in_polygon(p, ring),
    decreases k,
{
    if k == 0 {
        assert(turned_ring(ring, 0) =~= ring);
    } else {
        a_turned_ring_holds_the_same_points(p, ring, k - 1);
        lemma_turned_once(p, turned_ring(ring, k - 1));
        assert(turned_ring(turned_ring(ring, k - 1), 1) =~= turned_ring(ring, k));
    }
}

/// Reversing an edge negates its contribution.
pub proof fn a_reversed_edge_counts_the_other_way(p: Point, a: Point, b: Point)
    ensures
        contribution(p, a, b) == -contribution(p, b, a),
{
    if rises_past(p, a, b) {
        assert(!rises_past(p, b, a));
    }
}

} // verus!
