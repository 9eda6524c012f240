//! Global coastline ring assembly: stitches *all* `natural=coastline` ways in an
//! archive into closed rings, independent of relations, and classifies each
//! ring's interior as land or water by its winding direction.
//!
//! Walking a `natural=coastline` way in its stored direction, land is always on
//! the left, sea always on the right. A counter-clockwise ring's interior is
//! therefore land; a clockwise ring's interior is water entirely enclosed by
//! coastline. Rings are sorted by enclosed area descending, so a renderer that
//! draws them in that order reconstructs arbitrarily deep nesting without any
//! pairing of holes and exteriors.
//!
//! Enclosed areas are measured by the caller, in square metres, and handed over
//! as the bits of the IEEE double: for non-negative numbers the bits order as
//! the numbers do. Which side is land is decided exactly, on archive
//! coordinates.

use crate::ext::{run, Coastline, CoastlineRingEntry};
use crate::geometry::{contribution, crossing_contribution, Point};
use crate::multipolygon::{
    lemma_way_vertices, names_nodes_of, node_points, of_node, positions, resolve_nodes,
    to_vertices, vertices, way_node_indices, way_nodes,
};
use crate::order::{cuts, is_ranking, lemma_ranking_exists, lemma_ranking_unique, rank_descending, ranking};
use crate::osm::{Osm, Way};
use crate::rings::{
    all_nonempty, assemble_rings_and_open_chains, assembled, assembly_invents_no_vertex, contents,
    each, each_all, measures, split_all, Vertex,
};
use crate::strings::same_bytes;
use vstd::prelude::*;

verus! {

/// The string `natural`.
pub open spec fn natural_key() -> Seq<u8> {
    seq![0x6eu8, 0x61, 0x74, 0x75, 0x72, 0x61, 0x6c]
}

/// The string `coastline`.
pub open spec fn coastline_value() -> Seq<u8> {
    seq![0x63u8, 0x6f, 0x61, 0x73, 0x74, 0x6c, 0x69, 0x6e, 0x65]
}

/// The way is tagged `natural=coastline`.
pub open spec fn is_coastline(parent: &Osm, way: Way) -> bool {
    parent.value_for(
        parent.tags_index@.subrange(way.tags.start as int, way.tags.end as int),
        natural_key(),
    ) == Some(coastline_value())
}

fn tagged_coastline(parent: &Osm, way: &Way) -> (out: bool)
    requires
        parent.wf(),
        way.tags.within(parent.tags_index.len() as nat),
    ensures
        out == is_coastline(parent, *way),
{
    let key: [u8; 7] = [0x6e, 0x61, 0x74, 0x75, 0x72, 0x61, 0x6c];
    let value: [u8; 9] = [0x63, 0x6f, 0x61, 0x73, 0x74, 0x6c, 0x69, 0x6e, 0x65];
    proof {
        assert(key@ =~= natural_key());
        assert(value@ =~= coastline_value());
    }
    match parent.find_tag(way.tags, key.as_slice()) {
        Some(found) => same_bytes(found, value.as_slice()),
        None => false,
    }
}

/// The segments of the coastline ways among `ways`: those with at least two
/// nodes.
pub open spec fn coastline_segments(parent: &Osm, ways: Seq<Way>) -> Seq<Seq<Vertex>>
    decreases ways.len(),
{
    if ways.len() == 0 {
        Seq::empty()
    } else {
        let rest = coastline_segments(parent, ways.drop_last());
        let way = ways.last();
        if is_coastline(parent, way) && way_nodes(parent, way).len() >= 2 {
            rest.push(vertices(parent, way_nodes(parent, way)))
        } else {
            rest
        }
    }
}

/// Collect every `natural=coastline` way in the archive as an assembly segment.
fn collect_coastline_segments(archive: &Osm) -> (out: Vec<Vec<Vertex>>)
    requires
        archive.wf(),
    ensures
        contents(out@) == coastline_segments(archive, archive.ways@),
        forall|i: int| 0 <= i < out@.len() ==> (#[trigger] out@[i])@.len() > 0,
{
    let mut out: Vec<Vec<Vertex>> = Vec::new();
    let mut w: usize = 0;
    proof {
        assert(archive.ways@.take(0) =~= Seq::<Way>::empty());
        assert(contents(out@) =~= Seq::<Seq<Vertex>>::empty());
    }
    while w < archive.ways.len()
        invariant
            archive.wf(),
            w <= archive.ways.len(),
            contents(out@) == coastline_segments(archive, archive.ways@.take(w as int)),
            forall|i: int| 0 <= i < out@.len() ==> (#[trigger] out@[i])@.len() > 0,
        decreases archive.ways.len() - w,
    {
        let way = archive.ways[w];
        proof {
            let next = archive.ways@.take(w + 1);
            assert(next.drop_last() =~= archive.ways@.take(w as int));
            assert(next.last() == way);
        }
        if tagged_coastline(archive, &way) {
            let nodes = way_node_indices(archive, &way);
            if nodes.len() >= 2 {
                let seg = to_vertices(archive, &nodes);
                let ghost before = out@;
                let ghost piece = seg@;
                out.push(seg);
                proof {
                    assert(contents(out@) =~= contents(before).push(piece));
                }
            }
        }
        w = w + 1;
    }
    proof {
        assert(archive.ways@.take(w as int) =~= archive.ways@);
    }
    out
}

/// The next vertex of a ring.
pub open spec fn following(ring: Seq<Point>, i: int) -> Point {
    if i + 1 < ring.len() {
        ring[i + 1]
    } else {
        ring[0]
    }
}

/// The term that the edge from `a` to `b` adds to the shoelace sum.
pub open spec fn shoelace_term(a: Point, b: Point) -> int {
    a.lon * b.lat - b.lon * a.lat
}

/// The shoelace sum over the first `n` edges of a ring: twice its signed area
/// over all of them.
pub open spec fn shoelace(ring: Seq<Point>, n: int) -> int
    decreases n,
{
    if n <= 0 {
        0
    } else {
        shoelace(ring, n - 1) + shoelace_term(ring[n - 1], following(ring, n - 1))
    }
}

/// A ring's interior is land: the ring runs counter-clockwise.
pub open spec fn encloses_land(ring: Seq<Point>) -> bool {
    shoelace(ring, ring.len() as int) > 0
}

proof fn lemma_term(x: int, y: int)
    requires
        -0x8000_0000 <= x <= 0x7fff_ffff,
        -0x8000_0000 <= y <= 0x7fff_ffff,
    ensures
        -0x4000_0000_0000_0000 <= x * y <= 0x4000_0000_0000_0000,
{
    assert(-0x4000_0000_0000_0000 <= x * y <= 0x4000_0000_0000_0000) by (nonlinear_arith)
        requires
            -0x8000_0000 <= x <= 0x7fff_ffff,
            -0x8000_0000 <= y <= 0x7fff_ffff,
    ;
}

/// Twice the signed area of a closed ring in square archive units. Positive means
/// counter-clockwise: the interior is land.
pub fn twice_signed_area(ring: &[Point]) -> (out: i128)
    ensures
        out == shoelace(ring@, ring@.len() as int),
{
    let n: usize = ring.len();
    let mut sum: i128 = 0;
    let mut i: usize = 0;
    while i < n
        invariant
            i <= n,
            n == ring.len(),
            sum == shoelace(ring@, i as int),
            -0x8000_0000_0000_0000 * i <= sum <= 0x8000_0000_0000_0000 * i,
        decreases n - i,
    {
        let a = ring[i];
        let b = if i + 1 < n {
            ring[i + 1]
        } else {
            ring[0]
        };
        proof {
            lemma_term(a.lon as int, b.lat as int);
            lemma_term(b.lon as int, a.lat as int);
            assert(b == following(ring@, i as int));
            assert(i < 0xffff_ffff_ffff_ffff);
        }
        sum = sum + (a.lon as i128 * b.lat as i128 - b.lon as i128 * a.lat as i128);
        i = i + 1;
    }
    sum
}

/// What the first `n` edges of an open chain contribute to the signed crossing
/// count of the ray due east from `p`.
pub open spec fn chain_winding(chain: Seq<Point>, p: Point, n: int) -> int
    decreases n,
{
    if n <= 0 {
        0
    } else {
        chain_winding(chain, p, n - 1) + contribution(p, chain[n - 1], chain[n])
    }
}

/// The positions of a way's nodes.
pub open spec fn way_points(parent: &Osm, way: Way) -> Seq<Point> {
    node_points(parent, way_nodes(parent, way))
}

/// The signed crossing count of the ray due east from `p` over the coastline
/// ways among `ways`.
pub open spec fn winding(parent: &Osm, ways: Seq<Way>, p: Point) -> int
    decreases ways.len(),
{
    if ways.len() == 0 {
        0
    } else {
        let rest = winding(parent, ways.drop_last(), p);
        if is_coastline(parent, ways.last()) {
            let chain = way_points(parent, ways.last());
            rest + chain_winding(chain, p, chain.len() - 1)
        } else {
            rest
        }
    }
}

/// The point is on land: coastline wraps around it net counter-clockwise. Zero
/// means open sea, a negative count water enclosed by coastline.
pub open spec fn on_land(parent: &Osm, p: Point) -> bool {
    winding(parent, parent.ways@, p) > 0
}

/// The sum of `crossing_contribution` over a chain's consecutive edges, as
/// upward and downward crossings.
fn chain_crossings(chain: &Vec<Point>, p: Point) -> (out: (u64, u64))
    ensures
        out.0 - out.1 == chain_winding(chain@, p, chain@.len() - 1),
        out.0 <= chain@.len(),
        out.1 <= chain@.len(),
{
    let mut up: u64 = 0;
    let mut down: u64 = 0;
    let mut i: usize = 0;
    while i < chain.len() && chain.len() - i >= 2
        invariant
            i <= chain@.len(),
            i > 0 ==> i < chain@.len(),
            chain.len() == chain@.len(),
            up - down == chain_winding(chain@, p, i as int),
            up <= i,
            down <= i,
        decreases chain@.len() - i,
    {
        let c: i64 = crossing_contribution(chain[i], chain[i + 1], p);
        if c > 0 {
            up = up + 1;
        } else if c < 0 {
            down = down + 1;
        }
        i = i + 1;
    }
    (up, down)
}

/// Classify a point as land (`true`) or water (`false`) using a signed crossing
/// count against every `natural=coastline` way's segments in the archive
/// directly, with no ring assembly at all: each segment encodes "land on the
/// left, sea on the right" whether or not it is part of a closed ring, so this
/// works uniformly for islands and mainland.
pub fn is_land(archive: &Osm, p: Point) -> (out: bool)
    requires
        archive.wf(),
    ensures
        out == on_land(archive, p),
{
    let mut points: Vec<Point> = Vec::new();
    points.push(p);
    let out = classify_points(archive, points.as_slice());
    out[0]
}

/// Like [`is_land`], for many points in one pass over the archive's coastline
/// ways.
pub fn classify_points(archive: &Osm, points: &[Point]) -> (out: Vec<bool>)
    requires
        archive.wf(),
    ensures
        out@.len() == points@.len(),
        forall|i: int| 0 <= i < points@.len() ==> #[trigger] out@[i] == on_land(archive, points@[i]),
{
    let n: usize = points.len();
    let mut up: Vec<u128> = vec![0u128;n];
    let mut down: Vec<u128> = vec![0u128;n];
    let ghost most = archive.nodes_index.len() as int;
    let mut w: usize = 0;
    proof {
        assert(archive.ways@.take(0) =~= Seq::<Way>::empty());
    }
    while w < archive.ways.len()
        invariant
            archive.wf(),
            n == points@.len(),
            most == archive.nodes_index.len(),
            w <= archive.ways.len(),
            up@.len() == n,
            down@.len() == n,
            forall|i: int|
                0 <= i < n ==> #[trigger] up@[i] - down@[i] == winding(
                    archive,
                    archive.ways@.take(w as int),
                    points@[i],
                ),
            forall|i: int| 0 <= i < n ==> #[trigger] up@[i] <= w * most && down@[i] <= w * most,
        decreases archive.ways.len() - w,
    {
        let way = archive.ways[w];
        proof {
            let next = archive.ways@.take(w + 1);
            assert(next.drop_last() =~= archive.ways@.take(w as int));
            assert(next.last() == way);
            assert((w + 1) * most == w * most + most) by (nonlinear_arith);
        }
        if tagged_coastline(archive, &way) {
            let nodes = way_node_indices(archive, &way);
            let chain = resolve_nodes(archive, nodes.as_slice());
            proof {
                lemma_way_len(archive, way);
                assert(chain@.len() <= most);
            }
            let ghost (up0, down0) = (up@, down@);
            let mut i: usize = 0;
            while i < n
                invariant
                    n == points@.len(),
                    i <= n,
                    w < archive.ways.len(),
                    most == archive.nodes_index.len(),
                    chain@.len() <= most,
                    up@.len() == n,
                    down@.len() == n,
                    up0.len() == n,
                    down0.len() == n,
                    forall|k: int|
                        0 <= k < n ==> #[trigger] up0[k] <= w * most && down0[k] <= w * most,
                    forall|k: int|
                        i <= k < n ==> #[trigger] up@[k] == up0[k] && down@[k] == down0[k],
                    forall|k: int|
                        0 <= k < i ==> #[trigger] up@[k] - down@[k] == up0[k] - down0[k]
                            + chain_winding(chain@, points@[k], chain@.len() - 1),
                    forall|k: int|
                        0 <= k < i ==> #[trigger] up@[k] <= w * most + most && down@[k] <= w * most
                            + most,
                decreases n - i,
            {
                let (u, d) = chain_crossings(&chain, points[i]);
                proof {
                    assert(up@[i as int] == up0[i as int] && down@[i as int] == down0[i as int]);
                    assert(w * most + most <= u128::MAX) by (nonlinear_arith)
                        requires
                            0 <= w < 0xffff_ffff_ffff_ffff,
                            0 <= most <= 0xffff_ffff_ffff_ffff,
                    ;
                }
                let (x, y): (u128, u128) = (up[i] + u as u128, down[i] + d as u128);
                up.set(i, x);
                down.set(i, y);
                i = i + 1;
            }
            proof {
                assert forall|k: int| 0 <= k < n implies #[trigger] up@[k] - down@[k] == winding(
                    archive,
                    archive.ways@.take(w + 1),
                    points@[k],
                ) by {
                    assert(up0[k] - down0[k] == winding(
                        archive,
                        archive.ways@.take(w as int),
                        points@[k],
                    ));
                }
            }
        }
        w = w + 1;
    }
    proof {
        assert(archive.ways@.take(w as int) =~= archive.ways@);
    }
    let mut out: Vec<bool> = Vec::new();
    let mut i: usize = 0;
    while i < n
        invariant
            n == points@.len(),
            i <= n,
            up@.len() == n,
            down@.len() == n,
            out@.len() == i,
            forall|k: int|
                0 <= k < n ==> #[trigger] up@[k] - down@[k] == winding(
                    archive,
                    archive.ways@,
                    points@[k],
                ),
            forall|k: int| 0 <= k < i ==> #[trigger] out@[k] == on_land(archive, points@[k]),
        decreases n - i,
    {
        proof {
            assert(up@[i as int] - down@[i as int] == winding(
                archive,
                archive.ways@,
                points@[i as int],
            ));
        }
        out.push(up[i] > down[i]);
        i = i + 1;
    }
    out
}

proof fn lemma_way_len(parent: &Osm, way: Way)
    requires
        way.refs.within(parent.nodes_index.len() as nat),
    ensures
        way_nodes(parent, way).len() <= parent.nodes_index.len(),
{
    let refs = parent.nodes_index@.subrange(way.refs.start as int, way.refs.end as int);
    lemma_named_len(refs);
}

proof fn lemma_named_len(refs: Seq<Option<u64>>)
    ensures
        crate::multipolygon::named_nodes(refs).len() <= refs.len(),
    decreases refs.len(),
{
    if refs.len() > 0 {
        lemma_named_len(refs.drop_last());
    }
}

/// What `area` measures of a ring.
pub open spec fn area_key<A: Fn(&Vec<Point>) -> u64>(area: A, ring: Seq<Point>) -> u64 {
    choose|r: u64| gives_area(area, ring, r)
}

/// `area` gives `r` for a ring with these positions.
pub open spec fn gives_area<A: Fn(&Vec<Point>) -> u64>(area: A, ring: Seq<Point>, r: u64) -> bool {
    exists|v: Vec<Point>| v@ == ring && #[trigger] call_ensures(area, (&v,), r)
}

/// `area` measures any ring, and rings with the same positions alike.
pub open spec fn measures_area<A: Fn(&Vec<Point>) -> u64>(area: A) -> bool {
    &&& forall|v: Vec<Point>| #[trigger] call_requires(area, (&v,))
    &&& forall|v: Vec<Point>, r: u64| #[trigger]
        call_ensures(area, (&v,), r) ==> r == area_key(area, v@)
}

/// The areas of the rings.
pub open spec fn area_keys<A: Fn(&Vec<Point>) -> u64>(
    area: A,
    rings: Seq<Seq<Vertex>>,
) -> Seq<u64> {
    Seq::new(rings.len(), |i: int| area_key(area, positions(rings[i])))
}

/// The rings by descending area.
pub open spec fn largest_first<A: Fn(&Vec<Point>) -> u64>(
    area: A,
    rings: Seq<Seq<Vertex>>,
) -> Seq<Seq<Vertex>> {
    Seq::new(rings.len(), |k: int| rings[ranking(area_keys(area, rings))[k] as int])
}

/// One assembled coastline ring: its vertices plus whether its interior is land
/// (`true`) or water enclosed entirely by coastline (`false`).
pub struct CoastlineRing {
    pub is_land: bool,
    /// Enclosed area, as measured by the caller.
    pub area_m2: u64,
    pub vertices: Vec<Vertex>,
}

/// `out` are the given rings, measured and classified.
pub open spec fn classified<A: Fn(&Vec<Point>) -> u64>(
    area: A,
    rings: Seq<Seq<Vertex>>,
    out: Seq<CoastlineRing>,
) -> bool {
    &&& out.len() == rings.len()
    &&& forall|k: int|
        0 <= k < out.len() ==> (#[trigger] out[k]).vertices@ == rings[k] && out[k].is_land
            == encloses_land(positions(rings[k])) && out[k].area_m2 == area_key(
            area,
            positions(rings[k]),
        )
}

/// The coastline rings of an archive, by descending area.
pub open spec fn coastline_rings<F: Fn(Vertex, Vertex) -> u64, A: Fn(&Vec<Point>) -> u64>(
    parent: &Osm,
    dist: F,
    area: A,
) -> Seq<Seq<Vertex>> {
    largest_first(area, split_all(assembled(dist, coastline_segments(parent, parent.ways@)).0))
}

fn vertex_points(ring: &Vec<Vertex>) -> (out: Vec<Point>)
    ensures
        out@ == positions(ring@),
{
    let mut out: Vec<Point> = Vec::new();
    let mut i: usize = 0;
    while i < ring.len()
        invariant
            i <= ring@.len(),
            out@.len() == i,
            forall|k: int| 0 <= k < i ==> out@[k] == ring@[k].at(),
        decreases ring@.len() - i,
    {
        out.push(ring[i].xy());
        i = i + 1;
    }
    proof {
        assert(out@ =~= positions(ring@));
    }
    out
}

/// Assemble every `natural=coastline` way in the archive into closed rings,
/// classified land or water and sorted by enclosed area descending, *and* the
/// leftover open chains that did not close on their own: a plain mainland
/// coastline never closes this way, since it runs off toward an inland border
/// with no coastline tag at all.
pub fn assemble_coastline_raw<F: Fn(Vertex, Vertex) -> u64, A: Fn(&Vec<Point>) -> u64>(
    archive: &Osm,
    dist: &F,
    area: &A,
) -> (out: (Vec<CoastlineRing>, Vec<Vec<Vertex>>))
    requires
        archive.wf(),
        measures(*dist),
        measures_area(*area),
    ensures
        classified(*area, coastline_rings(archive, *dist, *area), out.0@),
        contents(out.1@) == assembled(*dist, coastline_segments(archive, archive.ways@)).1,
{
    let segments = collect_coastline_segments(archive);
    let found = assemble_rings_and_open_chains(segments, dist);
    let mut rings = found.rings;
    let ghost all = contents(rings@);
    let ghost held = rings@;
    let n: usize = rings.len();
    let mut keys: Vec<u64> = Vec::new();
    let mut land: Vec<bool> = Vec::new();
    let mut i: usize = 0;
    while i < n
        invariant
            measures_area(*area),
            n == rings@.len(),
            rings@ == held,
            all == contents(held),
            i <= n,
            keys@.len() == i,
            land@.len() == i,
            forall|k: int| 0 <= k < i ==> #[trigger] keys@[k] == area_key(*area, positions(all[k])),
            forall|k: int| 0 <= k < i ==> #[trigger] land@[k] == encloses_land(positions(all[k])),
        decreases n - i,
    {
        let points = vertex_points(&rings[i]);
        proof {
            assert(all[i as int] == rings@[i as int]@);
        }
        keys.push(area(&points));
        land.push(twice_signed_area(points.as_slice()) > 0);
        i = i + 1;
    }
    let order = rank_descending(&keys);
    proof {
        assert(keys@ =~= area_keys(*area, all));
        lemma_ranking_unique(keys@, order@, ranking(keys@));
    }
    let mut out: Vec<CoastlineRing> = Vec::new();
    let mut k: usize = 0;
    while k < n
        invariant
            n == rings@.len(),
            n == held.len(),
            all == contents(held),
            k <= n,
            keys@ == area_keys(*area, all),
            is_ranking(keys@, order@),
            order@ == ranking(keys@),
            land@.len() == n,
            forall|j: int| 0 <= j < n ==> #[trigger] land@[j] == encloses_land(positions(all[j])),
            forall|j: int| k <= j < n ==> rings@[(#[trigger] order@[j]) as int] == held[order@[j] as int],
            out@.len() == k,
            forall|j: int|
                0 <= j < k ==> (#[trigger] out@[j]).vertices@ == largest_first(*area, all)[j]
                    && out@[j].is_land == encloses_land(positions(largest_first(*area, all)[j]))
                    && out@[j].area_m2 == area_key(
                    *area,
                    positions(largest_first(*area, all)[j]),
                ),
        decreases n - k,
    {
        let o: usize = order[k];
        let mut vertices: Vec<Vertex> = Vec::new();
        let ghost before = rings@;
        let slot = &mut rings[o];
        vertices.append(slot);
        proof {
            assert(vertices@ =~= held[o as int]@);
            assert(largest_first(*area, all)[k as int] == all[o as int]);
            assert(land@[o as int] == encloses_land(positions(all[o as int])));
            assert forall|j: int| k + 1 <= j < n implies rings@[(#[trigger] order@[j]) as int]
                == held[order@[j] as int] by {
                assert(order@[j] != order@[k as int]);
            }
        }
        out.push(CoastlineRing { is_land: land[o], area_m2: keys[o], vertices });
        k = k + 1;
    }
    (out, found.open_chains)
}

/// Assemble every `natural=coastline` way in the archive into closed rings,
/// classified land or water and sorted by enclosed area descending. Leftover
/// open chains are dropped.
pub fn assemble_coastline<F: Fn(Vertex, Vertex) -> u64, A: Fn(&Vec<Point>) -> u64>(
    archive: &Osm,
    dist: &F,
    area: &A,
) -> (out: Vec<CoastlineRing>)
    requires
        archive.wf(),
        measures(*dist),
        measures_area(*area),
    ensures
        classified(*area, coastline_rings(archive, *dist, *area), out@),
{
    assemble_coastline_raw(archive, dist, area).0
}

/// Where each ring's nodes start.
pub open spec fn node_first(rings: Seq<CoastlineRingEntry>) -> Seq<u64> {
    Seq::new(rings.len(), |i: int| rings[i].node_first_idx)
}

impl Coastline {
    /// How many rings are stored.
    pub open spec fn n_rings(&self) -> int {
        self.rings.len() - 1
    }

    /// The rings and the nodes fit together.
    pub open spec fn shaped(&self) -> bool {
        self.rings.len() >= 1 && cuts(
            node_first(self.rings@),
            self.n_rings(),
            self.nodes.len() as int,
        )
    }

    /// The nodes of ring `k`.
    pub open spec fn ring_at(&self, k: int) -> Seq<u64> {
        run(self.nodes@, node_first(self.rings@), k)
    }
}

/// One precomputed coastline ring, read with no assembly: vertices already
/// resolved to positions.
pub struct CoastlineRingView {
    pub is_land: bool,
    /// Enclosed area, measured anew from the resolved vertices.
    pub area_m2: u64,
    pub vertices: Vec<Point>,
}

/// Query interface over a precomputed `Coastline` index.
#[derive(Clone, Copy)]
pub struct CoastlineQuery<'a> {
    pub parent: &'a Osm,
    pub coastline: &'a Coastline,
}

impl<'a> CoastlineQuery<'a> {
    /// Wrap a parent archive and its `Coastline` index.
    pub fn new(parent: &'a Osm, coastline: &'a Coastline) -> (out: Self)
        ensures
            out.parent == parent,
            out.coastline == coastline,
    {
        CoastlineQuery { parent, coastline }
    }

    /// All precomputed rings, in stored order (enclosed area descending).
    pub fn rings<A: Fn(&Vec<Point>) -> u64>(&self, area: &A) -> (out: Vec<CoastlineRingView>)
        requires
            self.coastline.shaped(),
            names_nodes_of(self.coastline.nodes@, self.parent),
            measures_area(*area),
        ensures
            out@.len() == self.coastline.n_rings(),
            forall|k: int|
                0 <= k < out@.len() ==> (#[trigger] out@[k]).is_land
                    == self.coastline.rings@[k].is_land && out@[k].vertices@ == node_points(
                    self.parent,
                    self.coastline.ring_at(k),
                ) && out@[k].area_m2 == area_key(*area, out@[k].vertices@),
    {
        let n: usize = self.coastline.rings.len() - 1;
        let ghost first = node_first(self.coastline.rings@);
        let mut out: Vec<CoastlineRingView> = Vec::new();
        let mut k: usize = 0;
        while k < n
            invariant
                self.coastline.shaped(),
                names_nodes_of(self.coastline.nodes@, self.parent),
                measures_area(*area),
                first == node_first(self.coastline.rings@),
                n == self.coastline.n_rings(),
                k <= n,
                out@.len() == k,
                forall|j: int|
                    0 <= j < out@.len() ==> (#[trigger] out@[j]).is_land
                        == self.coastline.rings@[j].is_land && out@[j].vertices@ == node_points(
                        self.parent,
                        self.coastline.ring_at(j),
                    ) && out@[j].area_m2 == area_key(*area, out@[j].vertices@),
            decreases n - k,
        {
            let (entry, next) = (self.coastline.rings[k], self.coastline.rings[k + 1]);
            proof {
                assert(first[k as int] <= first[k + 1] && first[k + 1] <= first[n as int]);
                assert(first[k + 1] <= self.coastline.nodes.len());
            }
            let nodes = vstd::slice::slice_subrange(
                self.coastline.nodes.as_slice(),
                entry.node_first_idx as usize,
                next.node_first_idx as usize,
            );
            proof {
                assert(nodes@ == self.coastline.ring_at(k as int));
                assert forall|i: int| 0 <= i < nodes@.len() implies (#[trigger] nodes@[i])
                    < self.parent.nodes.len() by {
                    assert(nodes@[i] == self.coastline.nodes@[first[k as int] + i]);
                }
            }
            let vertices = resolve_nodes(self.parent, nodes);
            let area_m2: u64 = area(&vertices);
            out.push(CoastlineRingView { is_land: entry.is_land, area_m2, vertices });
            k = k + 1;
        }
        out
    }
}

proof fn lemma_coastline_segments(parent: &Osm, ways: Seq<Way>)
    requires
        parent.wf(),
        forall|i: int|
            0 <= i < ways.len() ==> (#[trigger] ways[i]).refs.within(
                parent.nodes_index.len() as nat,
            ),
    ensures
        all_nonempty(coastline_segments(parent, ways)),
        each_all(coastline_segments(parent, ways), of_node(parent)),
    decreases ways.len(),
{
    if ways.len() > 0 {
        assert forall|i: int| 0 <= i < ways.drop_last().len() implies (
        #[trigger] ways.drop_last()[i]).refs.within(parent.nodes_index.len() as nat) by {
            assert(ways.drop_last()[i] == ways[i]);
        }
        lemma_coastline_segments(parent, ways.drop_last());
        assert(ways.last() == ways[ways.len() - 1]);
        lemma_way_vertices(parent, ways.last());
    }
}

/// Every vertex of a coastline ring is that of a node of the archive.
pub proof fn coastline_rings_keep_their_nodes<
    F: Fn(Vertex, Vertex) -> u64,
    A: Fn(&Vec<Point>) -> u64,
>(parent: &Osm, dist: F, area: A)
    requires
        parent.wf(),
        coastline_rings(parent, dist, area).len() <= usize::MAX,
    ensures
        each_all(coastline_rings(parent, dist, area), of_node(parent)),
{
    let segments = coastline_segments(parent, parent.ways@);
    lemma_coastline_segments(parent, parent.ways@);
    assembly_invents_no_vertex(dist, segments, of_node(parent));
    let all = split_all(assembled(dist, segments).0);
    let list = coastline_rings(parent, dist, area);
    let order = ranking(area_keys(area, all));
    lemma_ranking_exists(area_keys(area, all));
    assert forall|k: int| 0 <= k < list.len() implies each(#[trigger] list[k], of_node(parent)) by {
        assert(order[k] < all.len());
        assert(list[k] == all[order[k] as int]);
    }
}

} // verus!
