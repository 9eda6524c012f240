//! Ring assembly: stitch way segments into closed rings.
//!
//! Real-world extracts sometimes encode the same junction as two distinct,
//! near-coincident nodes, so endpoints are matched by distance. Distances are
//! measured by the caller, in metres, and handed over as the bits of the IEEE
//! double: for non-negative numbers the bits order as the numbers do.

use crate::geometry::Point;
use std::collections::HashMap;
use vstd::prelude::*;

verus! {

broadcast use vstd::std_specs::hash::group_hash_axioms;

/// A ring or chain vertex carried through assembly: the parent node index (what
/// a caller wanting to *store* a ring keeps) alongside its position.
#[derive(Clone, Copy, Debug, PartialEq, Eq, Structural)]
pub struct Vertex {
    pub node_idx: u64,
    pub lon: i32,
    pub lat: i32,
}

impl Vertex {
    /// The position of a vertex.
    pub open spec fn at(self) -> Point {
        Point { lon: self.lon, lat: self.lat }
    }

    /// The position of a vertex.
    pub fn xy(self) -> (out: Point)
        ensures
            out == self.at(),
    {
        Point { lon: self.lon, lat: self.lat }
    }
}

/// Endpoints within this distance (the bits of 250 m) are treated as the same
/// junction when stitching ring segments. Chosen to bridge duplicate-node seams
/// seen in real extracts (tens to a couple hundred meters) while staying well
/// below the gap left by genuinely missing boundary members (800 m and more).
pub const RING_SNAP_TOLERANCE_M: u64 = 0x406F_4000_0000_0000;

/// Endpoints closer than this (the bits of 1 cm) are treated as identical: used
/// to detect a way that is already closed on its own, which must not be confused
/// with the much larger tolerance for seams between *different* ways.
pub const EXACT_EPS_M: u64 = 0x3F84_7AE1_47AE_147B;

/// What `dist` measures from `a` to `b`.
pub open spec fn measured<F: Fn(Vertex, Vertex) -> u64>(dist: F, a: Vertex, b: Vertex) -> u64 {
    choose|r: u64| call_ensures(dist, (a, b), r)
}

/// `dist` measures any two vertices, and always measures the same.
pub open spec fn measures<F: Fn(Vertex, Vertex) -> u64>(dist: F) -> bool {
    &&& forall|a: Vertex, b: Vertex| #[trigger] call_requires(dist, (a, b))
    &&& forall|a: Vertex, b: Vertex, r: u64| #[trigger]
        call_ensures(dist, (a, b), r) ==> r == measured(dist, a, b)
}

/// The contents of a list of vertex lists.
pub open spec fn contents(lists: Seq<Vec<Vertex>>) -> Seq<Seq<Vertex>> {
    lists.map_values(|list: Vec<Vertex>| list@)
}

/// How close a segment comes with one of its ends.
pub open spec fn near<F: Fn(Vertex, Vertex) -> u64>(dist: F, seg: Seq<Vertex>, end: Vertex) -> u64 {
    let (a, b) = (measured(dist, seg.first(), end), measured(dist, seg.last(), end));
    if b < a {
        b
    } else {
        a
    }
}

/// Which of the first `n` segments comes closest to `end`, within the
/// tolerance: the first of several.
pub open spec fn nearest<F: Fn(Vertex, Vertex) -> u64>(
    dist: F,
    segments: Seq<Seq<Vertex>>,
    end: Vertex,
    n: int,
) -> Option<int>
    decreases n,
{
    if n <= 0 {
        None
    } else {
        let d = near(dist, segments[n - 1], end);
        match nearest(dist, segments, end, n - 1) {
            None => if d < RING_SNAP_TOLERANCE_M {
                Some(n - 1)
            } else {
                None
            },
            Some(i) => if d < near(dist, segments[i], end) {
                Some(n - 1)
            } else {
                Some(i)
            },
        }
    }
}

/// The nearest segment is one of them, within the tolerance, and none is nearer.
pub proof fn lemma_nearest<F: Fn(Vertex, Vertex) -> u64>(
    dist: F,
    segments: Seq<Seq<Vertex>>,
    end: Vertex,
    n: int,
)
    requires
        0 <= n <= segments.len(),
    ensures
        match nearest(dist, segments, end, n) {
            Some(i) => 0 <= i < n && near(dist, segments[i], end) < RING_SNAP_TOLERANCE_M && forall|
                j: int,
            |
                0 <= j < n ==> near(dist, segments[i], end) <= near(
                    dist,
                    #[trigger] segments[j],
                    end,
                ),
            None => forall|j: int|
                0 <= j < n ==> near(dist, #[trigger] segments[j], end) >= RING_SNAP_TOLERANCE_M,
        },
    decreases n,
{
    if n > 0 {
        lemma_nearest(dist, segments, end, n - 1);
    }
}

/// Whether a growing ring is to be closed rather than continued: its ends
/// coincide, or, once a seam has been stitched, they are near each other and no
/// remaining segment comes closer.
pub open spec fn closes<F: Fn(Vertex, Vertex) -> u64>(
    dist: F,
    ring: Seq<Vertex>,
    rest: Seq<Seq<Vertex>>,
    stitched: bool,
) -> bool {
    let gap = measured(dist, ring.first(), ring.last());
    ring.len() > 1 && (gap < EXACT_EPS_M || (stitched && gap < RING_SNAP_TOLERANCE_M && match nearest(
        dist,
        rest,
        ring.last(),
        rest.len() as int,
    ) {
        None => true,
        Some(i) => gap <= near(dist, rest[i], ring.last()),
    }))
}

/// A segment, turned so that its nearer end comes first.
pub open spec fn oriented<F: Fn(Vertex, Vertex) -> u64>(
    dist: F,
    seg: Seq<Vertex>,
    end: Vertex,
) -> Seq<Vertex> {
    if measured(dist, seg.last(), end) < measured(dist, seg.first(), end) {
        seg.reverse()
    } else {
        seg
    }
}

/// What growing a ring comes to: the ring, whether it closed, and the segments
/// that are left.
pub struct Grown {
    pub closed: bool,
    pub ring: Seq<Vertex>,
    pub rest: Seq<Seq<Vertex>>,
}

/// Grow a ring: close it where that is due, else append the nearest segment, else
/// leave it open.
pub open spec fn grow<F: Fn(Vertex, Vertex) -> u64>(
    dist: F,
    ring: Seq<Vertex>,
    rest: Seq<Seq<Vertex>>,
    stitched: bool,
) -> Grown
    decreases rest.len(),
{
    if closes(dist, ring, rest, stitched) {
        Grown { closed: true, ring, rest }
    } else {
        match nearest(dist, rest, ring.last(), rest.len() as int) {
            Some(i) if 0 <= i < rest.len() => grow(
                dist,
                ring + oriented(dist, rest[i], ring.last()).skip(1),
                rest.remove(i),
                true,
            ),
            _ => Grown { closed: false, ring, rest },
        }
    }
}

proof fn lemma_grow_shrinks<F: Fn(Vertex, Vertex) -> u64>(
    dist: F,
    ring: Seq<Vertex>,
    rest: Seq<Seq<Vertex>>,
    stitched: bool,
)
    ensures
        grow(dist, ring, rest, stitched).rest.len() <= rest.len(),
    decreases rest.len(),
{
    if !closes(dist, ring, rest, stitched) {
        match nearest(dist, rest, ring.last(), rest.len() as int) {
            Some(i) => {
                if 0 <= i < rest.len() {
                    lemma_grow_shrinks(
                        dist,
                        ring + oriented(dist, rest[i], ring.last()).skip(1),
                        rest.remove(i),
                        true,
                    );
                }
            },
            None => {},
        }
    }
}

/// Take the last segment, grow it, and go on with what is left. Gives the closed
/// rings and the open chains, each in the order in which they come about.
pub open spec fn assembled<F: Fn(Vertex, Vertex) -> u64>(
    dist: F,
    segments: Seq<Seq<Vertex>>,
) -> (Seq<Seq<Vertex>>, Seq<Seq<Vertex>>)
    decreases segments.len(),
    via assembled_shrinks::<F>
{
    if segments.len() == 0 {
        (Seq::empty(), Seq::empty())
    } else {
        let g = grow(dist, segments.last(), segments.drop_last(), false);
        let (rings, open) = assembled(dist, g.rest);
        if g.closed {
            (seq![g.ring] + rings, open)
        } else {
            (rings, seq![g.ring] + open)
        }
    }
}

#[via_fn]
proof fn assembled_shrinks<F: Fn(Vertex, Vertex) -> u64>(dist: F, segments: Seq<Seq<Vertex>>) {
    if segments.len() > 0 {
        lemma_grow_shrinks(dist, segments.last(), segments.drop_last(), false);
    }
}

/// Where the path visits the node of `v`, if it does.
pub open spec fn visited(path: Seq<Vertex>, v: Vertex, at: int) -> bool {
    0 <= at < path.len() && path[at].node_idx == v.node_idx
}

/// A walk around a ring: the loops that were closed, and the path that is still
/// open.
pub struct Walk {
    pub path: Seq<Vertex>,
    pub loops: Seq<Seq<Vertex>>,
}

/// One step of the walk. Revisiting a node means that everything since that node
/// forms a loop of its own; the node itself stays on the path, since it belongs
/// to both. A loop too small to enclose area is dropped.
pub open spec fn step(walk: Walk, v: Vertex) -> Walk {
    if exists|at: int| visited(walk.path, v, at) {
        let at = choose|at: int| visited(walk.path, v, at);
        let found = walk.path.skip(at).push(walk.path[at]);
        Walk {
            path: walk.path.take(at + 1),
            loops: if found.len() >= 4 {
                walk.loops.push(found)
            } else {
                walk.loops
            },
        }
    } else {
        Walk { path: walk.path.push(v), loops: walk.loops }
    }
}

/// The walk along `body`.
pub open spec fn walk(body: Seq<Vertex>) -> Walk
    decreases body.len(),
{
    if body.len() == 0 {
        Walk { path: Seq::empty(), loops: Seq::empty() }
    } else {
        step(walk(body.drop_last()), body.last())
    }
}

/// No node occurs twice.
pub open spec fn simple(path: Seq<Vertex>) -> bool {
    forall|i: int, j: int|
        0 <= i < j < path.len() ==> (#[trigger] path[i]).node_idx != (#[trigger] path[j]).node_idx
}

/// The ring ends with the node it starts with.
pub open spec fn explicitly_closed(ring: Seq<Vertex>) -> bool {
    ring.len() > 1 && ring.first().node_idx == ring.last().node_idx
}

/// The ring without the vertex that closes it.
pub open spec fn body(ring: Seq<Vertex>) -> Seq<Vertex> {
    if explicitly_closed(ring) {
        ring.drop_last()
    } else {
        ring
    }
}

/// The rings that a ring describes: itself, where it does not touch itself, else
/// the loops of the walk around it and what remains of the path.
pub open spec fn split(ring: Seq<Vertex>) -> Seq<Seq<Vertex>> {
    if simple(body(ring)) {
        seq![ring]
    } else {
        let w = walk(body(ring));
        if w.path.len() >= 3 {
            w.loops.push(
                if explicitly_closed(ring) {
                    w.path.push(w.path[0])
                } else {
                    w.path
                },
            )
        } else {
            w.loops
        }
    }
}

/// The rings that a list of rings describes.
pub open spec fn split_all(rings: Seq<Seq<Vertex>>) -> Seq<Seq<Vertex>>
    decreases rings.len(),
{
    if rings.len() == 0 {
        Seq::empty()
    } else {
        split_all(rings.drop_last()) + split(rings.last())
    }
}

/// Rings that were stitched together, and the chains that did not close.
pub struct AssembledRings {
    pub rings: Vec<Vec<Vertex>>,
    pub open_chains: Vec<Vec<Vertex>>,
}

fn reversed(seg: &Vec<Vertex>) -> (out: Vec<Vertex>)
    ensures
        out@ == seg@.reverse(),
{
    let mut out: Vec<Vertex> = Vec::new();
    let mut i: usize = seg.len();
    while i > 0
        invariant
            i <= seg@.len(),
            out@.len() == seg@.len() - i,
            forall|k: int| 0 <= k < out@.len() ==> out@[k] == seg@[seg@.len() - 1 - k],
        decreases i,
    {
        i = i - 1;
        out.push(seg[i]);
    }
    proof {
        assert(out@ =~= seg@.reverse());
    }
    out
}

/// The nearest remaining segment and how near it is.
fn nearest_segment<F: Fn(Vertex, Vertex) -> u64>(
    segments: &Vec<Vec<Vertex>>,
    end: Vertex,
    dist: &F,
) -> (out: Option<(usize, u64)>)
    requires
        measures(*dist),
        forall|i: int| 0 <= i < segments@.len() ==> (#[trigger] segments@[i])@.len() > 0,
    ensures
        match out {
            Some((i, d)) => nearest(
                *dist,
                contents(segments@),
                end,
                segments@.len() as int,
            ) == Some(i as int) && i < segments@.len() && d == near(*dist, segments@[i as int]@, end),
            None => nearest(*dist, contents(segments@), end, segments@.len() as int) is None,
        },
{
    let ghost segs = contents(segments@);
    let mut best: Option<(usize, u64)> = None;
    let mut i: usize = 0;
    while i < segments.len()
        invariant
            measures(*dist),
            forall|k: int| 0 <= k < segments@.len() ==> (#[trigger] segments@[k])@.len() > 0,
            segs == contents(segments@),
            i <= segments@.len(),
            match best {
                Some((k, d)) => nearest(*dist, segs, end, i as int) == Some(k as int) && k < i && d
                    == near(*dist, segments@[k as int]@, end),
                None => nearest(*dist, segs, end, i as int) is None,
            },
        decreases segments@.len() - i,
    {
        let seg = &segments[i];
        let a: u64 = dist(seg[0], end);
        let b: u64 = dist(seg[seg.len() - 1], end);
        let d: u64 = if b < a {
            b
        } else {
            a
        };
        proof {
            assert(segs[i as int] == seg@);
            assert(d == near(*dist, seg@, end));
        }
        best = match best {
            None => if d < RING_SNAP_TOLERANCE_M {
                Some((i, d))
            } else {
                None
            },
            Some((k, e)) => {
                proof {
                    assert(segs[k as int] == segments@[k as int]@);
                }
                if d < e {
                    Some((i, d))
                } else {
                    Some((k, e))
                }
            },
        };
        i = i + 1;
    }
    best
}

/// Grow `start` by segments taken out of `segments`, until it closes or nothing
/// continues it.
fn grow_ring<F: Fn(Vertex, Vertex) -> u64>(
    start: Vec<Vertex>,
    segments: &mut Vec<Vec<Vertex>>,
    dist: &F,
) -> (out: (bool, Vec<Vertex>))
    requires
        measures(*dist),
        start@.len() > 0,
        forall|i: int| 0 <= i < old(segments)@.len() ==> (#[trigger] old(segments)@[i])@.len() > 0,
    ensures
        grow(*dist, start@, contents(old(segments)@), false) == (Grown {
            closed: out.0,
            ring: out.1@,
            rest: contents(final(segments)@),
        }),
        final(segments)@.len() <= old(segments)@.len(),
        forall|i: int|
            0 <= i < final(segments)@.len() ==> (#[trigger] final(segments)@[i])@.len() > 0,
{
    let ghost goal = grow(*dist, start@, contents(segments@), false);
    let ghost most = segments@.len();
    let mut ring = start;
    let mut stitched = false;
    loop
        invariant
            measures(*dist),
            ring@.len() > 0,
            most == old(segments)@.len(),
            goal == grow(*dist, start@, contents(old(segments)@), false),
            segments@.len() <= most,
            forall|i: int| 0 <= i < segments@.len() ==> (#[trigger] segments@[i])@.len() > 0,
            grow(*dist, ring@, contents(segments@), stitched) == goal,
        decreases segments@.len(),
    {
        let end = ring[ring.len() - 1];
        let gap: u64 = dist(ring[0], end);
        let next = nearest_segment(segments, end, dist);
        let ghost rest = contents(segments@);
        // An exact closure always wins outright. Past that, closing is only
        // preferred once a seam has been stitched and nothing closer is left to
        // extend with: a jagged shoreline can wander back near its own start
        // long before the ring is finished.
        let exact_closed = ring.len() > 1 && gap < EXACT_EPS_M;
        let loose_closed = ring.len() > 1 && stitched && gap < RING_SNAP_TOLERANCE_M && match next {
            None => true,
            Some((_, d)) => gap <= d,
        };
        proof {
            if next is Some {
                assert(rest[(next->0).0 as int] == segments@[(next->0).0 as int]@);
            }
            assert((exact_closed || loose_closed) == closes(*dist, ring@, rest, stitched));
        }
        if exact_closed || loose_closed {
            return (true, ring);
        }
        match next {
            None => {
                return (false, ring);
            },
            Some((i, _)) => {
                let ghost before = segments@;
                let seg = segments.remove(i);
                proof {
                    assert(contents(segments@) =~= rest.remove(i as int));
                    assert(seg@ == rest[i as int]);
                    assert forall|k: int| 0 <= k < segments@.len() implies (
                    #[trigger] segments@[k])@.len() > 0 by {
                        if k < i {
                            assert(segments@[k] == before[k]);
                        } else {
                            assert(segments@[k] == before[k + 1]);
                        }
                    }
                }
                let turned = if dist(seg[seg.len() - 1], end) < dist(seg[0], end) {
                    reversed(&seg)
                } else {
                    seg
                };
                proof {
                    assert(turned@ == oriented(*dist, rest[i as int], end));
                }
                let ghost ring0 = ring@;
                // `turned` starts near `end`; append the rest of it.
                let mut k: usize = 1;
                while k < turned.len()
                    invariant
                        1 <= k <= turned@.len(),
                        ring@ == ring0 + turned@.subrange(1, k as int),
                    decreases turned@.len() - k,
                {
                    ring.push(turned[k]);
                    proof {
                        assert(ring@ =~= ring0 + turned@.subrange(1, k + 1));
                    }
                    k = k + 1;
                }
                proof {
                    assert(turned@.subrange(1, k as int) =~= turned@.skip(1));
                }
                stitched = true;
            },
        }
    }
}

/// Whether no node occurs twice among the first `n` vertices.
fn is_simple(ring: &Vec<Vertex>, n: usize) -> (out: bool)
    requires
        n <= ring@.len(),
    ensures
        out == simple(ring@.take(n as int)),
{
    let mut seen: HashMap<u64, usize> = HashMap::new();
    let ghost path = ring@.take(n as int);
    let mut i: usize = 0;
    while i < n
        invariant
            i <= n <= ring@.len(),
            path == ring@.take(n as int),
            forall|a: int, b: int|
                0 <= a < b < i ==> (#[trigger] path[a]).node_idx != (#[trigger] path[b]).node_idx,
            forall|a: int|
                0 <= a < i ==> seen@.contains_key((#[trigger] path[a]).node_idx)
                    && seen@[path[a].node_idx] == a,
            forall|node: u64| #[trigger]
                seen@.contains_key(node) ==> seen@[node] < i && path[seen@[node] as int].node_idx
                    == node,
        decreases n - i,
    {
        let node: u64 = ring[i].node_idx;
        assert(path[i as int].node_idx == node);
        if let Some(at) = seen.get(&node) {
            proof {
                assert(path[*at as int].node_idx == path[i as int].node_idx);
            }
            return false;
        }
        seen.insert(node, i);
        i = i + 1;
    }
    true
}

/// A simple path visits a node in one place only.
proof fn lemma_visited_once(path: Seq<Vertex>, v: Vertex, at: int)
    requires
        simple(path),
        visited(path, v, at),
    ensures
        (choose|k: int| visited(path, v, k)) == at,
{
    let k = choose|k: int| visited(path, v, k);
    if k < at {
        assert(path[k].node_idx != path[at].node_idx);
    } else if at < k {
        assert(path[at].node_idx != path[k].node_idx);
    }
}

/// Split a ring that touches itself at a node into the separate rings it
/// actually describes.
///
/// Two exclaves of the same boundary relation can meet at a single shared node.
/// Stitching alone walks straight through that node and produces one
/// figure-eight ring instead of two. A ring with no repeated node is returned
/// unchanged; pieces too small to enclose area are dropped.
pub fn split_self_touching(ring: Vec<Vertex>) -> (out: Vec<Vec<Vertex>>)
    ensures
        contents(out@) == split(ring@),
{
    let n: usize = ring.len();
    let closed = n > 1 && ring[0].node_idx == ring[n - 1].node_idx;
    let m: usize = if closed {
        n - 1
    } else {
        n
    };
    proof {
        assert(ring@.take(m as int) =~= body(ring@));
    }
    let mut out: Vec<Vec<Vertex>> = Vec::new();
    if is_simple(&ring, m) {
        let ghost whole = ring@;
        out.push(ring);
        proof {
            assert(contents(out@) =~= seq![whole]);
        }
        return out;
    }
    let ghost around = body(ring@);
    let mut seen: HashMap<u64, usize> = HashMap::new();
    let mut path: Vec<Vertex> = Vec::new();
    let mut i: usize = 0;
    proof {
        assert(around.take(0) =~= Seq::<Vertex>::empty());
        assert(contents(out@) =~= Seq::<Seq<Vertex>>::empty());
        assert(path@ =~= Seq::<Vertex>::empty());
    }
    while i < m
        invariant
            i <= m <= ring@.len(),
            around == ring@.take(m as int),
            simple(path@),
            forall|a: int|
                0 <= a < path@.len() ==> seen@.contains_key((#[trigger] path@[a]).node_idx)
                    && seen@[path@[a].node_idx] == a,
            forall|node: u64| #[trigger]
                seen@.contains_key(node) ==> seen@[node] < path@.len()
                    && path@[seen@[node] as int].node_idx == node,
            walk(around.take(i as int)) == (Walk { path: path@, loops: contents(out@) }),
        decreases m - i,
    {
        let v = ring[i];
        let ghost path0 = path@;
        let ghost loops0 = contents(out@);
        let ghost before = Walk { path: path0, loops: loops0 };
        proof {
            assert(around.take(i + 1).drop_last() =~= around.take(i as int));
            assert(around.take(i + 1).last() == v);
        }
        let found: Option<usize> = match seen.get(&v.node_idx) {
            Some(at) => Some(*at),
            None => None,
        };
        match found {
            Some(at) => {
                proof {
                    assert(visited(path0, v, at as int));
                    lemma_visited_once(path0, v, at as int);
                }
                let mut loop_ring = path.split_off(at);
                let anchor = loop_ring[0];
                let mut k: usize = 1;
                while k < loop_ring.len()
                    invariant
                        at < path0.len(),
                        simple(path0),
                        path@ == path0.take(at as int),
                        loop_ring@ == path0.skip(at as int),
                        1 <= k <= loop_ring@.len(),
                        forall|a: int|
                            0 <= a < path0.len() && !(at < a < at + k) ==> seen@.contains_key(
                                (#[trigger] path0[a]).node_idx,
                            ) && seen@[path0[a].node_idx] == a,
                        forall|node: u64| #[trigger]
                            seen@.contains_key(node) ==> seen@[node] < path0.len() && !(at
                                < seen@[node] < at + k) && path0[seen@[node] as int].node_idx
                                == node,
                    decreases loop_ring@.len() - k,
                {
                    let node: u64 = loop_ring[k].node_idx;
                    let ghost seen0 = seen@;
                    proof {
                        assert(path0[at + k].node_idx == node);
                    }
                    seen.remove(&node);
                    proof {
                        assert forall|a: int|
                            0 <= a < path0.len() && !(at < a < at + k + 1) implies seen@.contains_key(
                            (#[trigger] path0[a]).node_idx,
                        ) && seen@[path0[a].node_idx] == a by {
                            if a < at + k {
                                assert(path0[a].node_idx != path0[at + k].node_idx);
                            } else {
                                assert(path0[at + k].node_idx != path0[a].node_idx);
                            }
                        }
                        assert forall|x: u64| #[trigger] seen@.contains_key(x) implies seen@[x]
                            < path0.len() && !(at < seen@[x] < at + k + 1)
                            && path0[seen@[x] as int].node_idx == x by {
                            assert(seen0.contains_key(x));
                            if seen0[x] == at + k {
                                assert(path0[at + k].node_idx == x);
                            }
                        }
                    }
                    k = k + 1;
                }
                path.push(anchor);
                loop_ring.push(anchor);
                let ghost piece = loop_ring@;
                proof {
                    assert(anchor == path0[at as int]);
                    assert(path@ =~= path0.take(at + 1));
                    assert(piece =~= path0.skip(at as int).push(path0[at as int]));
                    assert forall|a: int, b: int| 0 <= a < b < path@.len() implies (
                    #[trigger] path@[a]).node_idx != (#[trigger] path@[b]).node_idx by {
                        assert(path@[a] == path0[a] && path@[b] == path0[b]);
                    }
                    assert forall|a: int| 0 <= a < path@.len() implies seen@.contains_key(
                        (#[trigger] path@[a]).node_idx,
                    ) && seen@[path@[a].node_idx] == a by {
                        assert(path@[a] == path0[a]);
                    }
                }
                let ghost out0 = out@;
                if loop_ring.len() >= 4 {
                    out.push(loop_ring);
                    proof {
                        assert(contents(out@) =~= contents(out0).push(piece));
                    }
                }
                proof {
                    assert(step(before, v) == (Walk { path: path@, loops: contents(out@) }));
                }
            },
            None => {
                seen.insert(v.node_idx, path.len());
                path.push(v);
                proof {
                    assert(!(exists|at: int| visited(path0, v, at))) by {
                        if exists|at: int| visited(path0, v, at) {
                            let at = choose|at: int| visited(path0, v, at);
                            assert(path0[at].node_idx == v.node_idx);
                        }
                    }
                    assert(step(before, v) == (Walk { path: path@, loops: contents(out@) }));
                }
            },
        }
        i = i + 1;
    }
    proof {
        assert(around.take(m as int) =~= around);
    }
    if path.len() >= 3 {
        if closed {
            let first = path[0];
            path.push(first);
        }
        let ghost out0 = out@;
        let ghost last = path@;
        out.push(path);
        proof {
            assert(contents(out@) =~= contents(out0).push(last));
        }
    }
    out
}

/// Stitch open and closed member segments (each a node sequence) into closed
/// rings by matching endpoints, exactly or (once at least one seam between two
/// distinct ways has been stitched) within [`RING_SNAP_TOLERANCE_M`]. A lone way
/// is only accepted as its own ring if its ends are exactly coincident.
/// Leftovers with a gap too large to bridge are returned as open chains.
pub fn assemble_rings_and_open_chains<F: Fn(Vertex, Vertex) -> u64>(
    segments: Vec<Vec<Vertex>>,
    dist: &F,
) -> (out: AssembledRings)
    requires
        measures(*dist),
        forall|i: int| 0 <= i < segments@.len() ==> (#[trigger] segments@[i])@.len() > 0,
    ensures
        contents(out.rings@) == split_all(assembled(*dist, contents(segments@)).0),
        contents(out.open_chains@) == assembled(*dist, contents(segments@)).1,
{
    let ghost goal = assembled(*dist, contents(segments@));
    let mut segments = segments;
    let mut rings: Vec<Vec<Vertex>> = Vec::new();
    let mut open_chains: Vec<Vec<Vertex>> = Vec::new();
    proof {
        let a = assembled(*dist, contents(segments@));
        assert(contents(rings@) + a.0 =~= a.0);
        assert(contents(open_chains@) + a.1 =~= a.1);
    }
    while segments.len() > 0
        invariant
            measures(*dist),
            forall|i: int| 0 <= i < segments@.len() ==> (#[trigger] segments@[i])@.len() > 0,
            goal.0 == contents(rings@) + assembled(*dist, contents(segments@)).0,
            goal.1 == contents(open_chains@) + assembled(*dist, contents(segments@)).1,
        decreases segments@.len(),
    {
        let ghost before = segments@;
        let ghost a = assembled(*dist, contents(before));
        if let Some(ring) = segments.pop() {
            let ghost start = ring@;
            proof {
                assert(start == contents(before).last());
                assert(contents(segments@) =~= contents(before).drop_last());
                assert forall|i: int| 0 <= i < segments@.len() implies (
                #[trigger] segments@[i])@.len() > 0 by {
                    assert(segments@[i] == before[i]);
                }
            }
            let (closed, grown) = grow_ring(ring, &mut segments, dist);
            let ghost rings0 = rings@;
            let ghost open0 = open_chains@;
            let ghost piece = grown@;
            let ghost later = assembled(*dist, contents(segments@));
            if closed {
                rings.push(grown);
                proof {
                    assert(a.0 == seq![piece] + later.0);
                    assert(a.1 == later.1);
                    assert(contents(rings@) =~= contents(rings0).push(piece));
                    assert(contents(rings@) + later.0 =~= contents(rings0) + a.0);
                }
            } else {
                open_chains.push(grown);
                proof {
                    assert(a.1 == seq![piece] + later.1);
                    assert(a.0 == later.0);
                    assert(contents(open_chains@) =~= contents(open0).push(piece));
                    assert(contents(open_chains@) + later.1 =~= contents(open0) + a.1);
                }
            }
        }
    }
    proof {
        assert(contents(segments@) =~= Seq::<Seq<Vertex>>::empty());
        assert(goal.0 =~= contents(rings@));
        assert(goal.1 =~= contents(open_chains@));
    }
    let rings = split_rings(rings);
    AssembledRings { rings, open_chains }
}

/// Split every ring that touches itself.
fn split_rings(rings: Vec<Vec<Vertex>>) -> (out: Vec<Vec<Vertex>>)
    ensures
        contents(out@) == split_all(contents(rings@)),
{
    let ghost all = contents(rings@);
    let mut rings = rings;
    let mut later: Vec<Vec<Vec<Vertex>>> = Vec::new();
    // Taken from the end, so the pieces are collected back to front.
    while rings.len() > 0
        invariant
            contents(rings@).len() <= all.len(),
            contents(rings@) == all.take(rings@.len() as int),
            later@.len() == all.len() - rings@.len(),
            forall|k: int|
                0 <= k < later@.len() ==> contents((#[trigger] later@[k])@) == split(
                    all[all.len() - 1 - k],
                ),
        decreases rings@.len(),
    {
        let ghost before = rings@;
        if let Some(ring) = rings.pop() {
            proof {
                assert(contents(before)[before.len() - 1] == ring@);
                assert(all[before.len() - 1] == ring@);
                assert(contents(rings@) =~= all.take(rings@.len() as int));
            }
            later.push(split_self_touching(ring));
        }
    }
    let mut out: Vec<Vec<Vertex>> = Vec::new();
    let mut k: usize = later.len();
    proof {
        assert(all.take(0) =~= Seq::<Seq<Vertex>>::empty());
        assert(contents(out@) =~= split_all(all.take(0)));
    }
    while k > 0
        invariant
            k <= later@.len(),
            later@.len() == all.len(),
            forall|j: int|
                0 <= j < k ==> contents((#[trigger] later@[j])@) == split(all[all.len() - 1 - j]),
            contents(out@) == split_all(all.take(all.len() - k)),
        decreases k,
    {
        k = k - 1;
        let ghost out0 = out@;
        let ghost i = all.len() - 1 - k;
        let mut list: Vec<Vec<Vertex>> = Vec::new();
        let ghost these = later@[k as int]@;
        let slot = &mut later[k];
        list.append(slot);
        proof {
            assert(list@ =~= these);
            assert(all.take(i + 1).drop_last() =~= all.take(i));
            assert(all.take(i + 1).last() == all[i]);
        }
        out.append(&mut list);
        proof {
            assert(out@ =~= out0 + these);
            assert(contents(out@) =~= contents(out0) + contents(these));
        }
    }
    proof {
        assert(all.take(all.len() as int) =~= all);
    }
    out
}

/// The closed rings alone.
pub fn assemble_rings<F: Fn(Vertex, Vertex) -> u64>(
    segments: Vec<Vec<Vertex>>,
    dist: &F,
) -> (out: Vec<Vec<Vertex>>)
    requires
        measures(*dist),
        forall|i: int| 0 <= i < segments@.len() ==> (#[trigger] segments@[i])@.len() > 0,
    ensures
        contents(out@) == split_all(assembled(*dist, contents(segments@)).0),
{
    assemble_rings_and_open_chains(segments, dist).rings
}

/// A loop of a walk: closed on the node it starts with, and otherwise simple.
pub open spec fn is_loop(piece: Seq<Vertex>) -> bool {
    explicitly_closed(piece) && piece.len() >= 4 && simple(piece.drop_last())
}

proof fn lemma_walk(around: Seq<Vertex>)
    ensures
        simple(walk(around).path),
        forall|k: int| 0 <= k < walk(around).loops.len() ==> is_loop(
            #[trigger] walk(around).loops[k],
        ),
    decreases around.len(),
{
    if around.len() > 0 {
        lemma_walk(around.drop_last());
        let (w, v) = (walk(around.drop_last()), around.last());
        let next = step(w, v);
        if exists|at: int| visited(w.path, v, at) {
            let at = choose|at: int| visited(w.path, v, at);
            let found = w.path.skip(at).push(w.path[at]);
            assert forall|i: int, j: int| 0 <= i < j < next.path.len() implies (
            #[trigger] next.path[i]).node_idx != (#[trigger] next.path[j]).node_idx by {
                assert(next.path[i] == w.path[i] && next.path[j] == w.path[j]);
            }
            assert(found.drop_last() =~= w.path.skip(at));
            assert forall|i: int, j: int| 0 <= i < j < w.path.skip(at).len() implies (
            #[trigger] w.path.skip(at)[i]).node_idx != (#[trigger] w.path.skip(at)[j]).node_idx by {
                assert(w.path[at + i].node_idx != w.path[at + j].node_idx);
            }
            assert(found[0] == w.path[at]);
            assert(found.last() == w.path[at]);
        } else {
            assert forall|i: int, j: int| 0 <= i < j < next.path.len() implies (
            #[trigger] next.path[i]).node_idx != (#[trigger] next.path[j]).node_idx by {
                if j == w.path.len() && next.path[i].node_idx == v.node_idx {
                    assert(visited(w.path, v, i));
                }
            }
        }
    }
}

/// Splitting a closed ring gives closed rings, none of which touches itself.
pub proof fn split_pieces_are_closed_and_simple(ring: Seq<Vertex>, k: int)
    requires
        explicitly_closed(ring),
        0 <= k < split(ring).len(),
    ensures
        explicitly_closed(split(ring)[k]),
        simple(body(split(ring)[k])),
{
    if !simple(body(ring)) {
        let w = walk(body(ring));
        lemma_walk(body(ring));
        let piece = split(ring)[k];
        if k < w.loops.len() {
            assert(piece == w.loops[k]);
            assert(is_loop(w.loops[k]));
        } else {
            assert(piece == w.path.push(w.path[0]));
            assert(piece.drop_last() =~= w.path);
            assert(piece.first() == piece.last());
        }
    }
}

/// The list steps from node `a` to node `b` at `j`.
pub open spec fn steps_at(list: Seq<Vertex>, j: int, a: u64, b: u64) -> bool {
    0 <= j < list.len() - 1 && list[j].node_idx == a && list[j + 1].node_idx == b
}

/// The list has an edge from node `a` to node `b`.
pub open spec fn has_edge(list: Seq<Vertex>, a: u64, b: u64) -> bool {
    exists|j: int| #[trigger] steps_at(list, j, a, b)
}

/// Every edge of `piece` is one of `ring`.
pub open spec fn edges_within(piece: Seq<Vertex>, ring: Seq<Vertex>) -> bool {
    forall|a: u64, b: u64| #[trigger] has_edge(piece, a, b) ==> has_edge(ring, a, b)
}

proof fn lemma_more_edges(piece: Seq<Vertex>, ring: Seq<Vertex>, v: Vertex)
    requires
        edges_within(piece, ring),
    ensures
        edges_within(piece, ring.push(v)),
{
    assert forall|a: u64, b: u64| #[trigger] has_edge(piece, a, b) implies has_edge(
        ring.push(v),
        a,
        b,
    ) by {
        assert(has_edge(ring, a, b));
        let j = choose|j: int| #[trigger] steps_at(ring, j, a, b);
        assert(steps_at(ring.push(v), j, a, b));
    }
}

/// A piece that goes on with an edge of the ring.
proof fn lemma_edges_push(piece: Seq<Vertex>, ring: Seq<Vertex>, v: Vertex)
    requires
        edges_within(piece, ring),
        piece.len() > 0 ==> has_edge(ring, piece.last().node_idx, v.node_idx),
    ensures
        edges_within(piece.push(v), ring),
{
    let longer = piece.push(v);
    assert forall|a: u64, b: u64| #[trigger] has_edge(longer, a, b) implies has_edge(
        ring,
        a,
        b,
    ) by {
        let j = choose|j: int| #[trigger] steps_at(longer, j, a, b);
        if j < piece.len() - 1 {
            assert(steps_at(piece, j, a, b));
            assert(has_edge(piece, a, b));
        }
    }
}

/// A part of a piece has no other edges.
proof fn lemma_edges_part(piece: Seq<Vertex>, ring: Seq<Vertex>, from: int, to: int)
    requires
        edges_within(piece, ring),
        0 <= from <= to <= piece.len(),
    ensures
        edges_within(piece.subrange(from, to), ring),
{
    let part = piece.subrange(from, to);
    assert forall|a: u64, b: u64| #[trigger] has_edge(part, a, b) implies has_edge(ring, a, b) by {
        let j = choose|j: int| #[trigger] steps_at(part, j, a, b);
        assert(steps_at(piece, from + j, a, b));
        assert(has_edge(piece, a, b));
    }
}

/// The loops and the path of a walk have no edge that the walk did not take, and
/// the path runs from where the walk started to where it is.
proof fn lemma_walk_edges(around: Seq<Vertex>)
    ensures
        edges_within(walk(around).path, around),
        forall|k: int|
            0 <= k < walk(around).loops.len() ==> edges_within(
                #[trigger] walk(around).loops[k],
                around,
            ),
        around.len() > 0 ==> walk(around).path.len() > 0 && walk(around).path[0].node_idx
            == around[0].node_idx && walk(around).path.last().node_idx == around.last().node_idx,
    decreases around.len(),
{
    if around.len() > 0 {
        let (before, v) = (around.drop_last(), around.last());
        lemma_walk_edges(before);
        let w = walk(before);
        let next = walk(around);
        assert(around =~= before.push(v));
        lemma_more_edges(w.path, before, v);
        assert forall|k: int| 0 <= k < w.loops.len() implies edges_within(
            #[trigger] w.loops[k],
            around,
        ) by {
            lemma_more_edges(w.loops[k], before, v);
        }
        if before.len() > 0 {
            assert(steps_at(around, before.len() - 1, w.path.last().node_idx, v.node_idx));
        }
        if exists|at: int| visited(w.path, v, at) {
            let at = choose|at: int| visited(w.path, v, at);
            let tail = w.path.skip(at);
            lemma_edges_part(w.path, around, at, w.path.len() as int);
            assert(tail =~= w.path.subrange(at, w.path.len() as int));
            lemma_edges_push(tail, around, w.path[at]);
            lemma_edges_part(w.path, around, 0, at + 1);
            assert(next.path =~= w.path.subrange(0, at + 1));
        } else {
            lemma_edges_push(w.path, around, v);
        }
    }
}

/// Splitting a closed ring adds no edge: each piece runs along edges of the ring.
pub proof fn split_pieces_keep_to_the_ring(ring: Seq<Vertex>, k: int)
    requires
        explicitly_closed(ring),
        0 <= k < split(ring).len(),
    ensures
        edges_within(split(ring)[k], ring),
{
    if !simple(body(ring)) {
        let around = body(ring);
        let w = walk(around);
        lemma_walk_edges(around);
        assert(ring =~= around.push(ring.last()));
        let piece = split(ring)[k];
        if k < w.loops.len() {
            assert(piece == w.loops[k]);
            lemma_more_edges(piece, around, ring.last());
        } else {
            assert(piece == w.path.push(w.path[0]));
            lemma_more_edges(w.path, around, ring.last());
            assert(steps_at(ring, ring.len() - 2, w.path.last().node_idx, w.path[0].node_idx));
            lemma_edges_push(w.path, ring, w.path[0]);
        }
    }
}

/// A ring that does not touch itself is left as it is.
pub proof fn a_simple_ring_is_not_split(ring: Seq<Vertex>)
    requires
        simple(body(ring)),
    ensures
        split(ring) == seq![ring],
{
}

/// How many vertices the lists hold.
pub open spec fn vertex_count(lists: Seq<Seq<Vertex>>) -> nat
    decreases lists.len(),
{
    if lists.len() == 0 {
        0
    } else {
        vertex_count(lists.drop_last()) + lists.last().len()
    }
}

proof fn lemma_vertex_count_remove(lists: Seq<Seq<Vertex>>, i: int)
    requires
        0 <= i < lists.len(),
    ensures
        vertex_count(lists.remove(i)) + lists[i].len() == vertex_count(lists),
    decreases lists.len(),
{
    if i < lists.len() - 1 {
        lemma_vertex_count_remove(lists.drop_last(), i);
        assert(lists.remove(i).drop_last() =~= lists.drop_last().remove(i));
        assert(lists.remove(i).last() == lists.last());
    } else {
        assert(lists.remove(i) =~= lists.drop_last());
    }
}

proof fn lemma_vertex_count_front(one: Seq<Vertex>, lists: Seq<Seq<Vertex>>)
    ensures
        vertex_count(seq![one] + lists) == one.len() + vertex_count(lists),
    decreases lists.len(),
{
    let all = seq![one] + lists;
    if lists.len() == 0 {
        assert(all =~= seq![one]);
        assert(all.drop_last() =~= Seq::<Seq<Vertex>>::empty());
        assert(vertex_count(all.drop_last()) == 0);
    } else {
        lemma_vertex_count_front(one, lists.drop_last());
        assert(all.drop_last() =~= seq![one] + lists.drop_last());
    }
}

/// No segment is empty.
pub open spec fn all_nonempty(lists: Seq<Seq<Vertex>>) -> bool {
    forall|i: int| 0 <= i < lists.len() ==> (#[trigger] lists[i]).len() > 0
}

/// What growing a ring conserves: each segment that is stitched on brings its
/// vertices but one, and a ring that closed has its ends near each other.
proof fn lemma_grow<F: Fn(Vertex, Vertex) -> u64>(
    dist: F,
    ring: Seq<Vertex>,
    rest: Seq<Seq<Vertex>>,
    stitched: bool,
)
    requires
        ring.len() > 0,
        all_nonempty(rest),
    ensures
        ({
            let g = grow(dist, ring, rest, stitched);
            &&& g.rest.len() <= rest.len()
            &&& all_nonempty(g.rest)
            &&& g.ring.len() > 0
            &&& g.ring.len() + vertex_count(g.rest) + (rest.len() - g.rest.len()) == ring.len()
                + vertex_count(rest)
            &&& g.closed ==> g.ring.len() > 1 && measured(dist, g.ring.first(), g.ring.last())
                < RING_SNAP_TOLERANCE_M
            &&& g.ring.first() == ring.first()
        }),
    decreases rest.len(),
{
    if !closes(dist, ring, rest, stitched) {
        lemma_nearest(dist, rest, ring.last(), rest.len() as int);
        match nearest(dist, rest, ring.last(), rest.len() as int) {
            Some(i) => {
                let turned = oriented(dist, rest[i], ring.last());
                let longer = ring + turned.skip(1);
                assert(turned.len() == rest[i].len());
                assert forall|k: int| 0 <= k < rest.remove(i).len() implies (
                #[trigger] rest.remove(i)[k]).len() > 0 by {
                    if k < i {
                        assert(rest.remove(i)[k] == rest[k]);
                    } else {
                        assert(rest.remove(i)[k] == rest[k + 1]);
                    }
                }
                lemma_vertex_count_remove(rest, i);
                lemma_grow(dist, longer, rest.remove(i), true);
            },
            None => {},
        }
    }
}

/// Assembly loses no vertex but the one that each seam shares: the rings (before
/// they are split) and the open chains hold all vertices of the segments, less
/// one for each segment that was stitched on.
pub proof fn assembly_conserves_vertices<F: Fn(Vertex, Vertex) -> u64>(
    dist: F,
    segments: Seq<Seq<Vertex>>,
)
    requires
        all_nonempty(segments),
    ensures
        ({
            let (rings, open) = assembled(dist, segments);
            &&& rings.len() + open.len() <= segments.len()
            &&& vertex_count(rings) + vertex_count(open) + (segments.len() - rings.len()
                - open.len()) == vertex_count(segments)
        }),
    decreases segments.len(),
{
    if segments.len() > 0 {
        let start = segments.last();
        assert(start == segments[segments.len() - 1]);
        assert forall|k: int| 0 <= k < segments.drop_last().len() implies (
        #[trigger] segments.drop_last()[k]).len() > 0 by {
            assert(segments.drop_last()[k] == segments[k]);
        }
        lemma_grow(dist, start, segments.drop_last(), false);
        let g = grow(dist, start, segments.drop_last(), false);
        assembly_conserves_vertices(dist, g.rest);
        let (rings, open) = assembled(dist, g.rest);
        if g.closed {
            lemma_vertex_count_front(g.ring, rings);
        } else {
            lemma_vertex_count_front(g.ring, open);
        }
    }
}

/// Every ring that assembly closes has its ends within the tolerance.
pub proof fn assembled_rings_close<F: Fn(Vertex, Vertex) -> u64>(
    dist: F,
    segments: Seq<Seq<Vertex>>,
    k: int,
)
    requires
        all_nonempty(segments),
        0 <= k < assembled(dist, segments).0.len(),
    ensures
        ({
            let ring = assembled(dist, segments).0[k];
            &&& ring.len() > 1
            &&& measured(dist, ring.first(), ring.last()) < RING_SNAP_TOLERANCE_M
        }),
    decreases segments.len(),
{
    if segments.len() > 0 {
        let start = segments.last();
        assert(start == segments[segments.len() - 1]);
        assert forall|i: int| 0 <= i < segments.drop_last().len() implies (
        #[trigger] segments.drop_last()[i]).len() > 0 by {
            assert(segments.drop_last()[i] == segments[i]);
        }
        lemma_grow(dist, start, segments.drop_last(), false);
        let g = grow(dist, start, segments.drop_last(), false);
        let (rings, open) = assembled(dist, g.rest);
        if g.closed {
            if k > 0 {
                assembled_rings_close(dist, g.rest, k - 1);
                assert((seq![g.ring] + rings)[k] == rings[k - 1]);
            }
        } else {
            assembled_rings_close(dist, g.rest, k);
        }
    }
}

/// A way that is closed on its own is a ring of its own, whatever lies near it.
pub proof fn a_closed_way_is_its_own_ring<F: Fn(Vertex, Vertex) -> u64>(
    dist: F,
    ring: Seq<Vertex>,
    rest: Seq<Seq<Vertex>>,
)
    requires
        ring.len() > 1,
        measured(dist, ring.first(), ring.last()) < EXACT_EPS_M,
    ensures
        grow(dist, ring, rest, false) == (Grown { closed: true, ring, rest }),
{
}

/// A lone way whose ends do not coincide stays open, however near they are.
pub proof fn a_lone_open_way_stays_open<F: Fn(Vertex, Vertex) -> u64>(dist: F, way: Seq<Vertex>)
    requires
        way.len() > 0,
        measured(dist, way.first(), way.last()) >= EXACT_EPS_M,
    ensures
        assembled(dist, seq![way]) == (Seq::<Seq<Vertex>>::empty(), seq![way]),
{
    let none = Seq::<Seq<Vertex>>::empty();
    assert(seq![way].drop_last() =~= none);
    assert(seq![way].last() == way);
    let g = grow(dist, way, none, false);
    assert(g == (Grown { closed: false, ring: way, rest: none }));
    assert(assembled(dist, none) == (none, none));
    assert(seq![way] + none =~= seq![way]);
}

/// Every vertex of the list satisfies `p`.
pub open spec fn each(list: Seq<Vertex>, p: spec_fn(Vertex) -> bool) -> bool {
    forall|k: int| 0 <= k < list.len() ==> p(#[trigger] list[k])
}

/// Every vertex of the lists satisfies `p`.
pub open spec fn each_all(lists: Seq<Seq<Vertex>>, p: spec_fn(Vertex) -> bool) -> bool {
    forall|i: int| 0 <= i < lists.len() ==> each(#[trigger] lists[i], p)
}

proof fn lemma_grow_each<F: Fn(Vertex, Vertex) -> u64>(
    dist: F,
    ring: Seq<Vertex>,
    rest: Seq<Seq<Vertex>>,
    stitched: bool,
    p: spec_fn(Vertex) -> bool,
)
    requires
        ring.len() > 0,
        all_nonempty(rest),
        each(ring, p),
        each_all(rest, p),
    ensures
        each(grow(dist, ring, rest, stitched).ring, p),
        each_all(grow(dist, ring, rest, stitched).rest, p),
    decreases rest.len(),
{
    if !closes(dist, ring, rest, stitched) {
        match nearest(dist, rest, ring.last(), rest.len() as int) {
            Some(i) => {
                if 0 <= i < rest.len() {
                    let turned = oriented(dist, rest[i], ring.last());
                    let longer = ring + turned.skip(1);
                    assert(each(rest[i], p));
                    assert(rest[i].len() > 0);
                    assert forall|k: int| 0 <= k < rest.remove(i).len() implies (
                    #[trigger] rest.remove(i)[k]).len() > 0 by {
                        if k < i {
                            assert(rest.remove(i)[k] == rest[k]);
                        } else {
                            assert(rest.remove(i)[k] == rest[k + 1]);
                        }
                    }
                    assert forall|k: int| 0 <= k < longer.len() implies p(#[trigger] longer[k]) by {
                        if k < ring.len() {
                            assert(longer[k] == ring[k]);
                        } else {
                            let j = k - ring.len() + 1;
                            assert(longer[k] == turned[j]);
                            if turned != rest[i] {
                                assert(turned[j] == rest[i][rest[i].len() - 1 - j]);
                            }
                        }
                    }
                    assert forall|k: int| 0 <= k < rest.remove(i).len() implies each(
                        #[trigger] rest.remove(i)[k],
                        p,
                    ) by {
                        if k < i {
                            assert(rest.remove(i)[k] == rest[k]);
                        } else {
                            assert(rest.remove(i)[k] == rest[k + 1]);
                        }
                    }
                    lemma_grow_each(dist, longer, rest.remove(i), true, p);
                }
            },
            None => {},
        }
    }
}

/// Assembly makes up no vertex: what holds of every vertex of the segments holds
/// of every vertex of the rings and chains.
pub proof fn assembly_invents_no_vertex<F: Fn(Vertex, Vertex) -> u64>(
    dist: F,
    segments: Seq<Seq<Vertex>>,
    p: spec_fn(Vertex) -> bool,
)
    requires
        all_nonempty(segments),
        each_all(segments, p),
    ensures
        each_all(assembled(dist, segments).0, p),
        each_all(assembled(dist, segments).1, p),
        each_all(split_all(assembled(dist, segments).0), p),
    decreases segments.len(),
{
    if segments.len() > 0 {
        let start = segments.last();
        assert(start == segments[segments.len() - 1]);
        assert forall|k: int| 0 <= k < segments.drop_last().len() implies each(
            #[trigger] segments.drop_last()[k],
            p,
        ) by {
            assert(segments.drop_last()[k] == segments[k]);
        }
        assert forall|k: int| 0 <= k < segments.drop_last().len() implies (
        #[trigger] segments.drop_last()[k]).len() > 0 by {
            assert(segments.drop_last()[k] == segments[k]);
        }
        lemma_grow_each(dist, start, segments.drop_last(), false, p);
        lemma_grow(dist, start, segments.drop_last(), false);
        let g = grow(dist, start, segments.drop_last(), false);
        assembly_invents_no_vertex(dist, g.rest, p);
        let (rings, open) = assembled(dist, g.rest);
        assert forall|k: int| 0 <= k < (seq![g.ring] + rings).len() implies each(
            #[trigger] (seq![g.ring] + rings)[k],
            p,
        ) by {
            if k > 0 {
                assert((seq![g.ring] + rings)[k] == rings[k - 1]);
            }
        }
        assert forall|k: int| 0 <= k < (seq![g.ring] + open).len() implies each(
            #[trigger] (seq![g.ring] + open)[k],
            p,
        ) by {
            if k > 0 {
                assert((seq![g.ring] + open)[k] == open[k - 1]);
            }
        }
    }
    lemma_split_all_each(assembled(dist, segments).0, p);
}

proof fn lemma_split_all_each(rings: Seq<Seq<Vertex>>, p: spec_fn(Vertex) -> bool)
    requires
        each_all(rings, p),
    ensures
        each_all(split_all(rings), p),
    decreases rings.len(),
{
    if rings.len() > 0 {
        assert forall|k: int| 0 <= k < rings.drop_last().len() implies each(
            #[trigger] rings.drop_last()[k],
            p,
        ) by {
            assert(rings.drop_last()[k] == rings[k]);
        }
        lemma_split_all_each(rings.drop_last(), p);
        assert(rings.last() == rings[rings.len() - 1]);
        lemma_split_each(rings.last(), p);
        let (a, b) = (split_all(rings.drop_last()), split(rings.last()));
        assert forall|k: int| 0 <= k < (a + b).len() implies each(#[trigger] (a + b)[k], p) by {
            if k < a.len() {
                assert((a + b)[k] == a[k]);
            } else {
                assert((a + b)[k] == b[k - a.len()]);
            }
        }
    }
}

proof fn lemma_split_each(ring: Seq<Vertex>, p: spec_fn(Vertex) -> bool)
    requires
        each(ring, p),
    ensures
        each_all(split(ring), p),
{
    assert forall|k: int| 0 <= k < body(ring).len() implies p(#[trigger] body(ring)[k]) by {
        assert(body(ring)[k] == ring[k]);
    }
    lemma_walk_each(body(ring), p);
    let w = walk(body(ring));
    assert forall|k: int| 0 <= k < split(ring).len() implies each(#[trigger] split(ring)[k], p) by {
        if simple(body(ring)) {
            assert(split(ring)[k] == ring);
        } else if k < w.loops.len() {
            assert(split(ring)[k] == w.loops[k]);
        } else {
            let piece = split(ring)[k];
            assert forall|i: int| 0 <= i < piece.len() implies p(#[trigger] piece[i]) by {
                if i < w.path.len() {
                    assert(piece[i] == w.path[i]);
                } else {
                    assert(piece[i] == w.path[0]);
                }
            }
        }
    }
}

proof fn lemma_walk_each(around: Seq<Vertex>, p: spec_fn(Vertex) -> bool)
    requires
        each(around, p),
    ensures
        each(walk(around).path, p),
        each_all(walk(around).loops, p),
    decreases around.len(),
{
    if around.len() > 0 {
        assert forall|k: int| 0 <= k < around.drop_last().len() implies p(
            #[trigger] around.drop_last()[k],
        ) by {
            assert(around.drop_last()[k] == around[k]);
        }
        lemma_walk_each(around.drop_last(), p);
        let (w, v) = (walk(around.drop_last()), around.last());
        assert(v == around[around.len() - 1]);
        let next = step(w, v);
        if exists|at: int| visited(w.path, v, at) {
            let at = choose|at: int| visited(w.path, v, at);
            let found = w.path.skip(at).push(w.path[at]);
            assert forall|k: int| 0 <= k < found.len() implies p(#[trigger] found[k]) by {
                if k < w.path.len() - at {
                    assert(found[k] == w.path[at + k]);
                } else {
                    assert(found[k] == w.path[at]);
                }
            }
            assert forall|k: int| 0 <= k < next.path.len() implies p(#[trigger] next.path[k]) by {
                assert(next.path[k] == w.path[k]);
            }
            assert forall|k: int| 0 <= k < next.loops.len() implies each(
                #[trigger] next.loops[k],
                p,
            ) by {
                if k < w.loops.len() {
                    assert(next.loops[k] == w.loops[k]);
                } else {
                    assert(next.loops[k] == found);
                }
            }
        } else {
            assert forall|k: int| 0 <= k < next.path.len() implies p(#[trigger] next.path[k]) by {
                if k < w.path.len() {
                    assert(next.path[k] == w.path[k]);
                }
            }
        }
    }
}

} // verus!
