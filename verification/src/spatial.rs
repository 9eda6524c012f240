//! Non-bounding-box spatial queries (radius, nearest, polygon): over nodes here,
//! over ways and relations in [`crate::way_spatial`].
//!
//! These need no index of their own. To combine a radius or polygon with tag
//! filters, use [`crate::query::Query`], which applies the same exact tests
//! after a range merge-join with the tag postings.

pub use crate::geometry::Point;
pub use crate::way_spatial::{
    k_nearest_relations, k_nearest_ways, relations_in_polygon, relations_within_radius,
    ways_in_polygon, ways_within_radius,
};
use crate::geometry::{
    crosses, crossings, cross, in_polygon, inside_ring, on_edge, on_segment, point_in_polygon,
    previous, rises_past,
};
use crate::order::{lemma_ordered_unique, lemma_same_items, merge_sort, same_items};
use crate::osm::{Node, Osm};
use crate::query::Bbox;
use vstd::prelude::*;

verus! {

/// A node and its squared distance from a center.
pub type Hit = (i128, usize);

/// The position of a node.
pub open spec fn node_point(node: Node) -> Point {
    Point { lon: node.lon, lat: node.lat }
}

/// The squared distance between two points, in square archive units.
#[verifier::opaque]
pub open spec fn dist_sq(a: Point, b: Point) -> int {
    (a.lon - b.lon) * (a.lon - b.lon) + (a.lat - b.lat) * (a.lat - b.lat)
}

/// The squared distance of node `i` from `center`.
pub open spec fn node_dist(parent: &Osm, center: Point, i: int) -> int {
    dist_sq(center, node_point(parent.nodes@[i]))
}

/// `value` squared.
pub fn square(value: i64) -> (out: i128)
    ensures
        out == value * value,
        out >= 0,
{
    let v: i128 = value as i128;
    proof {
        assert(0 <= v * v <= 0x4000_0000_0000_0000_0000_0000_0000_0000) by (nonlinear_arith)
            requires
                -0x8000_0000_0000_0000 <= v <= 0x7fff_ffff_ffff_ffff,
        ;
    }
    v * v
}

/// The squared distance between two points, in square archive units.
pub fn distance_sq(a: Point, b: Point) -> (out: i128)
    ensures
        out == dist_sq(a, b),
        0 <= out <= 0x2_0000_0000_0000_0000,
{
    let (dx, dy): (i64, i64) = (a.lon as i64 - b.lon as i64, a.lat as i64 - b.lat as i64);
    proof {
        reveal(dist_sq);
        assert(dx * dx <= 0x1_0000_0000_0000_0000) by (nonlinear_arith)
            requires
                -0x1_0000_0000 <= dx <= 0x1_0000_0000,
        ;
        assert(dy * dy <= 0x1_0000_0000_0000_0000) by (nonlinear_arith)
            requires
                -0x1_0000_0000 <= dy <= 0x1_0000_0000,
        ;
    }
    square(dx) + square(dy)
}

/// Nearer first, then by index.
pub open spec fn hit_le(a: Hit, b: Hit) -> bool {
    a.0 < b.0 || (a.0 == b.0 && a.1 <= b.1)
}

/// Strictly nearer, or as near with a smaller index.
pub open spec fn hit_lt(a: Hit, b: Hit) -> bool {
    a.0 < b.0 || (a.0 == b.0 && a.1 < b.1)
}

/// The hits are in order, each once.
pub open spec fn hits_ascend(hits: Seq<Hit>) -> bool {
    forall|i: int, j: int| 0 <= i < j < hits.len() ==> hit_lt(#[trigger] hits[i], #[trigger] hits[j])
}

/// Each hit is a node with its squared distance.
pub open spec fn hits_measured(parent: &Osm, center: Point, hits: Seq<Hit>) -> bool {
    forall|k: int|
        0 <= k < hits.len() ==> (#[trigger] hits[k]).1 < parent.nodes.len() && hits[k].0
            == node_dist(parent, center, hits[k].1 as int)
}

/// Node `i` is among the hits.
pub open spec fn is_hit(hits: Seq<Hit>, i: int) -> bool {
    exists|k: int| 0 <= k < hits.len() && (#[trigger] hits[k]).1 == i
}

/// Exact "within a radius of a point" test for nodes, plus the box that
/// prefilters it.
#[derive(Clone, Copy, Debug, PartialEq, Eq, Structural)]
pub struct RadiusFilter {
    /// Square around the circle; every matching node lies inside it.
    pub bbox: Bbox,
    pub center: Point,
    pub radius_sq: i128,
}

impl RadiusFilter {
    /// The filter is that of a circle.
    pub open spec fn describes(self, center: Point, radius: i32) -> bool {
        &&& radius >= 0
        &&& self.center == center
        &&& self.radius_sq == radius * radius
        &&& self.bbox == (Bbox {
            min_lon: (center.lon - radius) as i64,
            min_lat: (center.lat - radius) as i64,
            max_lon: (center.lon + radius) as i64,
            max_lat: (center.lat + radius) as i64,
        })
    }

    /// The node lies in the circle.
    pub open spec fn holds(self, node: Node) -> bool {
        dist_sq(self.center, node_point(node)) <= self.radius_sq
    }

    /// `None` for a negative radius.
    pub fn new(center: Point, radius: i32) -> (out: Option<Self>)
        ensures
            out is None <==> radius < 0,
            out matches Some(filter) ==> filter.describes(center, radius),
    {
        if radius < 0 {
            return None;
        }
        Some(RadiusFilter { bbox: bbox_around(center, radius), center, radius_sq: square(
            radius as i64,
        ) })
    }

    /// Whether the node lies in the circle.
    pub fn contains(&self, node: &Node) -> (out: bool)
        ensures
            out == self.holds(*node),
    {
        distance_sq(self.center, Point { lon: node.lon, lat: node.lat }) <= self.radius_sq
    }
}

/// The square around a circle.
fn bbox_around(center: Point, radius: i32) -> (out: Bbox)
    requires
        radius >= 0,
    ensures
        out == (Bbox {
            min_lon: (center.lon - radius) as i64,
            min_lat: (center.lat - radius) as i64,
            max_lon: (center.lon + radius) as i64,
            max_lat: (center.lat + radius) as i64,
        }),
{
    Bbox {
        min_lon: center.lon as i64 - radius as i64,
        min_lat: center.lat as i64 - radius as i64,
        max_lon: center.lon as i64 + radius as i64,
        max_lat: center.lat as i64 + radius as i64,
    }
}

/// A point farther away in one coordinate is farther away.
proof fn lemma_outside_is_farther(a: Point, b: Point, reach: int)
    requires
        reach >= 0,
        a.lon - b.lon > reach || b.lon - a.lon > reach || a.lat - b.lat > reach || b.lat - a.lat
            > reach,
    ensures
        dist_sq(a, b) > reach * reach,
{
    reveal(dist_sq);
    let (dx, dy) = (a.lon - b.lon, a.lat - b.lat);
    assert(dx * dx >= 0 && dy * dy >= 0) by (nonlinear_arith);
    if dx > reach || -dx > reach {
        assert(dx * dx > reach * reach) by (nonlinear_arith)
            requires
                reach >= 0,
                dx > reach || -dx > reach,
        ;
    } else {
        assert(dy * dy > reach * reach) by (nonlinear_arith)
            requires
                reach >= 0,
                dy > reach || -dy > reach,
        ;
    }
}

/// Every node in a circle lies in the square around it.
pub proof fn a_circle_lies_in_its_square(filter: RadiusFilter, center: Point, radius: i32, node: Node)
    requires
        filter.describes(center, radius),
        filter.holds(node),
    ensures
        filter.bbox.holds_node(node),
{
    if !filter.bbox.holds_node(node) {
        lemma_outside_is_farther(center, node_point(node), radius as int);
    }
}

/// Sort hits, nearest first.
fn sort_hits(hits: Vec<Hit>) -> (out: Vec<Hit>)
    ensures
        same_items(out@, hits@),
        forall|i: int, j: int|
            0 <= i <= j < out@.len() ==> hit_le(#[trigger] out@[i], #[trigger] out@[j]),
{
    let leq = |a: Hit, b: Hit| -> (r: bool)
        ensures
            r == hit_le(a, b),
        { a.0 < b.0 || (a.0 == b.0 && a.1 <= b.1) };
    let ghost model = |a: Hit, b: Hit| hit_le(a, b);
    let out = merge_sort(hits, &leq, Ghost(model));
    proof {
        assert forall|i: int, j: int| 0 <= i <= j < out@.len() implies hit_le(
            #[trigger] out@[i],
            #[trigger] out@[j],
        ) by {
            assert(model(out@[i], out@[j]));
        }
    }
    out
}

/// The node indices of the hits.
pub open spec fn hit_indices(hits: Seq<Hit>) -> Seq<usize> {
    hits.map_values(|h: Hit| h.1)
}

fn take_indices(hits: &Vec<Hit>) -> (out: Vec<usize>)
    ensures
        out@ == hit_indices(hits@),
{
    let mut out: Vec<usize> = Vec::new();
    let mut i: usize = 0;
    while i < hits.len()
        invariant
            i <= hits@.len(),
            out@.len() == i,
            forall|k: int| 0 <= k < i ==> out@[k] == hits@[k].1,
        decreases hits@.len() - i,
    {
        out.push(hits[i].1);
        i = i + 1;
    }
    proof {
        assert(out@ =~= hit_indices(hits@));
    }
    out
}

/// `hits` are the nodes within `radius` of `center`, nearest first, ties by
/// index.
pub open spec fn is_within_radius(
    parent: &Osm,
    center: Point,
    radius: i32,
    hits: Seq<Hit>,
) -> bool {
    &&& hits_ascend(hits)
    &&& hits_measured(parent, center, hits)
    &&& forall|i: int|
        0 <= i < parent.nodes.len() ==> (#[trigger] is_hit(hits, i) <==> radius >= 0 && node_dist(
            parent,
            center,
            i,
        ) <= radius * radius)
}

/// Node indices within `radius` of `center`, nearest-first; none for a negative
/// radius.
pub fn nodes_within_radius(archive: &Osm, center: Point, radius: i32) -> (out: Vec<usize>)
    ensures
        exists|hits: Seq<Hit>| #[trigger]
            is_within_radius(archive, center, radius, hits) && out@ == hit_indices(hits),
{
    let filter = match RadiusFilter::new(center, radius) {
        Some(filter) => filter,
        None => {
            let none: Vec<usize> = Vec::new();
            proof {
                let hits = Seq::<Hit>::empty();
                assert(none@ =~= hit_indices(hits));
                assert(is_within_radius(archive, center, radius, hits));
            }
            return none;
        },
    };
    let mut hits: Vec<Hit> = Vec::new();
    let mut i: usize = 0;
    while i < archive.nodes.len()
        invariant
            filter.describes(center, radius),
            i <= archive.nodes.len(),
            hits_measured(archive, center, hits@),
            forall|a: int, b: int| 0 <= a < b < hits@.len() ==> (#[trigger] hits@[a]).1 < (
            #[trigger] hits@[b]).1,
            forall|k: int| 0 <= k < hits@.len() ==> (#[trigger] hits@[k]).1 < i,
            forall|j: int|
                0 <= j < i ==> (#[trigger] is_hit(hits@, j) <==> node_dist(archive, center, j)
                    <= radius * radius),
        decreases archive.nodes.len() - i,
    {
        let node = archive.nodes[i];
        let ghost before = hits@;
        if filter.bbox.min_lon <= node.lon as i64 && node.lon as i64 <= filter.bbox.max_lon
            && filter.bbox.min_lat <= node.lat as i64 && node.lat as i64 <= filter.bbox.max_lat {
            let d: i128 = distance_sq(center, Point { lon: node.lon, lat: node.lat });
            if d <= filter.radius_sq {
                hits.push((d, i));
            }
        } else {
            proof {
                if filter.holds(node) {
                    a_circle_lies_in_its_square(filter, center, radius, node);
                }
            }
        }
        proof {
            assert forall|j: int| 0 <= j < i + 1 implies (#[trigger] is_hit(hits@, j) <==> node_dist(
                archive,
                center,
                j,
            ) <= radius * radius) by {
                if j < i {
                    if is_hit(before, j) {
                        let k = choose|k: int| 0 <= k < before.len() && (#[trigger] before[k]).1 == j;
                        assert(hits@[k] == before[k]);
                    }
                    if is_hit(hits@, j) {
                        let k = choose|k: int| 0 <= k < hits@.len() && (#[trigger] hits@[k]).1 == j;
                        assert(before[k] == hits@[k]);
                    }
                } else {
                    if hits@.len() > before.len() {
                        assert(hits@[before.len() as int].1 == j);
                    } else if is_hit(hits@, j) {
                        let k = choose|k: int| 0 <= k < hits@.len() && (#[trigger] hits@[k]).1 == j;
                        assert(hits@[k].1 < i);
                    }
                }
            }
        }
        i = i + 1;
    }
    let ghost found = hits@;
    let sorted = sort_hits(hits);
    proof {
        lemma_same_items(found, sorted@);
        assert(found.no_duplicates());
        assert forall|a: int, b: int| 0 <= a < b < sorted@.len() implies hit_lt(
            #[trigger] sorted@[a],
            #[trigger] sorted@[b],
        ) by {
            assert(sorted@[a] != sorted@[b]);
            assert(hit_le(sorted@[a], sorted@[b]));
        }
        assert forall|k: int| 0 <= k < sorted@.len() implies (#[trigger] sorted@[k]).1
            < archive.nodes.len() && sorted@[k].0 == node_dist(
            archive,
            center,
            sorted@[k].1 as int,
        ) by {
            assert(sorted@.contains(sorted@[k]));
            let m = choose|m: int| 0 <= m < found.len() && found[m] == sorted@[k];
            assert(found[m] == sorted@[k]);
        }
        assert forall|j: int| 0 <= j < archive.nodes.len() implies (#[trigger] is_hit(sorted@, j)
            <==> radius >= 0 && node_dist(archive, center, j) <= radius * radius) by {
            if is_hit(found, j) {
                let m = choose|m: int| 0 <= m < found.len() && (#[trigger] found[m]).1 == j;
                assert(found.contains(found[m]));
                let k = choose|k: int| 0 <= k < sorted@.len() && sorted@[k] == found[m];
                assert(sorted@[k].1 == j);
            }
            if is_hit(sorted@, j) {
                let k = choose|k: int| 0 <= k < sorted@.len() && (#[trigger] sorted@[k]).1 == j;
                assert(sorted@.contains(sorted@[k]));
                let m = choose|m: int| 0 <= m < found.len() && found[m] == sorted@[k];
                assert(found[m].1 == j);
            }
        }
        assert(is_within_radius(archive, center, radius, sorted@));
    }
    take_indices(&sorted)
}

/// `hits` are the `k` nearest of the nodes that the box admits (all of them, if
/// there are fewer), nearest first, ties by index.
pub open spec fn is_nearest_in(
    parent: &Osm,
    center: Point,
    bbox: Bbox,
    k: nat,
    hits: Seq<Hit>,
) -> bool {
    &&& hits_ascend(hits)
    &&& hits_measured(parent, center, hits)
    &&& hits.len() <= k
    &&& forall|m: int|
        0 <= m < hits.len() ==> bbox.holds_node(parent.nodes@[(#[trigger] hits[m]).1 as int])
    &&& forall|i: int|
        0 <= i < parent.nodes.len() && bbox.holds_node(parent.nodes@[i]) && !(#[trigger] is_hit(
            hits,
            i,
        )) ==> hits.len() == k && beyond(hits, parent, center, i)
}

/// Node `i` comes after all the hits.
pub open spec fn beyond(hits: Seq<Hit>, parent: &Osm, center: Point, i: int) -> bool {
    forall|m: int|
        0 <= m < hits.len() ==> hit_lt(
            #[trigger] hits[m],
            (node_dist(parent, center, i) as i128, i as usize),
        )
}

/// `hits` are the `k` nearest nodes (all of them, if there are fewer), nearest
/// first, ties by index.
pub open spec fn is_nearest(parent: &Osm, center: Point, k: nat, hits: Seq<Hit>) -> bool {
    &&& hits_ascend(hits)
    &&& hits_measured(parent, center, hits)
    &&& hits.len() <= k
    &&& forall|i: int|
        0 <= i < parent.nodes.len() && !(#[trigger] is_hit(hits, i)) ==> hits.len() == k && beyond(
            hits,
            parent,
            center,
            i,
        )
}

/// Insert a hit in its place.
fn insert_hit(hits: &mut Vec<Hit>, hit: Hit)
    requires
        hits_ascend(old(hits)@),
        !old(hits)@.contains(hit),
    ensures
        hits_ascend(final(hits)@),
        exists|at: int|
            0 <= at <= old(hits)@.len() && final(hits)@ == #[trigger] old(hits)@.insert(at, hit),
{
    let ghost before = hits@;
    let mut at: usize = hits.len();
    while at > 0 && (hit.0 < hits[at - 1].0 || (hit.0 == hits[at - 1].0 && hit.1 < hits[at - 1].1))
        invariant
            hits@ == before,
            at <= before.len(),
            forall|k: int| at <= k < before.len() ==> hit_lt(hit, #[trigger] before[k]),
        decreases at,
    {
        at = at - 1;
    }
    hits.insert(at, hit);
    proof {
        assert(hits@ == before.insert(at as int, hit));
        if at > 0 {
            assert(before[at - 1] != hit);
            assert(hit_lt(before[at - 1], hit));
        }
        assert forall|i: int, j: int| 0 <= i < j < hits@.len() implies hit_lt(
            #[trigger] hits@[i],
            #[trigger] hits@[j],
        ) by {
            if j < at {
                assert(hits@[i] == before[i] && hits@[j] == before[j]);
            } else if j == at {
                assert(hits@[i] == before[i]);
                if i < at - 1 {
                    assert(hit_lt(before[i], before[at - 1]));
                }
            } else if i == at {
                assert(hits@[j] == before[j - 1]);
            } else if i < at {
                assert(hits@[i] == before[i] && hits@[j] == before[j - 1]);
            } else {
                assert(hits@[i] == before[i - 1] && hits@[j] == before[j - 1]);
            }
        }
    }
}

/// [`is_nearest_in`], as far as the first `n` nodes go.
spec fn nearest_upto(
    parent: &Osm,
    center: Point,
    bbox: Bbox,
    k: nat,
    hits: Seq<Hit>,
    n: int,
) -> bool {
    &&& hits_ascend(hits)
    &&& hits_measured(parent, center, hits)
    &&& hits.len() <= k
    &&& forall|m: int|
        0 <= m < hits.len() ==> (#[trigger] hits[m]).1 < n && bbox.holds_node(
            parent.nodes@[hits[m].1 as int],
        )
    &&& forall|i: int|
        0 <= i < n && bbox.holds_node(parent.nodes@[i]) && !(#[trigger] is_hit(hits, i))
            ==> hits.len() == k && beyond(hits, parent, center, i)
}

proof fn lemma_hit_insert(before: Seq<Hit>, at: int, hit: Hit, i: int)
    requires
        0 <= at <= before.len(),
    ensures
        is_hit(before.insert(at, hit), i) <==> is_hit(before, i) || hit.1 == i,
{
    let after = before.insert(at, hit);
    if is_hit(before, i) {
        let k = choose|k: int| 0 <= k < before.len() && (#[trigger] before[k]).1 == i;
        if k < at {
            assert(after[k] == before[k]);
        } else {
            assert(after[k + 1] == before[k]);
        }
    }
    if hit.1 == i {
        assert(after[at].1 == i);
    }
    if is_hit(after, i) {
        let k = choose|k: int| 0 <= k < after.len() && (#[trigger] after[k]).1 == i;
        if k < at {
            assert(before[k] == after[k]);
        } else if k > at {
            assert(before[k - 1] == after[k]);
        }
    }
}

/// Taking one more node into account: it is inserted, and the last hit leaves
/// where there are too many.
proof fn lemma_take_node(
    parent: &Osm,
    center: Point,
    bbox: Bbox,
    k: nat,
    before: Seq<Hit>,
    at: int,
    n: int,
    after: Seq<Hit>,
)
    requires
        k > 0,
        parent.nodes.len() <= usize::MAX,
        0 <= n < parent.nodes.len(),
        nearest_upto(parent, center, bbox, k, before, n),
        bbox.holds_node(parent.nodes@[n]),
        0 <= at <= before.len(),
        0 <= node_dist(parent, center, n) <= i128::MAX,
        hits_ascend(before.insert(at, (node_dist(parent, center, n) as i128, n as usize))),
        before.len() == k ==> hit_lt(
            (node_dist(parent, center, n) as i128, n as usize),
            before[before.len() - 1],
        ),
        after == if before.len() == k {
            before.insert(at, (node_dist(parent, center, n) as i128, n as usize)).drop_last()
        } else {
            before.insert(at, (node_dist(parent, center, n) as i128, n as usize))
        },
    ensures
        nearest_upto(parent, center, bbox, k, after, n + 1),
{
    let hit = (node_dist(parent, center, n) as i128, n as usize);
    let full = before.insert(at, hit);
    assert forall|m: int| 0 <= m < full.len() implies (#[trigger] full[m]).1 < n + 1
        && full[m].1 < parent.nodes.len() && full[m].0 == node_dist(
        parent,
        center,
        full[m].1 as int,
    ) && bbox.holds_node(parent.nodes@[full[m].1 as int]) by {
        if m < at {
            assert(full[m] == before[m]);
        } else if m > at {
            assert(full[m] == before[m - 1]);
        }
    }
    assert forall|m: int| 0 <= m < after.len() implies #[trigger] after[m] == full[m] by {
    }
    assert forall|i: int|
        0 <= i < n + 1 && bbox.holds_node(parent.nodes@[i]) && !(#[trigger] is_hit(
            after,
            i,
        )) implies after.len() == k && beyond(after, parent, center, i) by {
        lemma_hit_insert(before, at, hit, i);
        if is_hit(full, i) {
            // The last hit left.
            let m = choose|m: int| 0 <= m < full.len() && (#[trigger] full[m]).1 == i;
            if m < after.len() {
                assert(after[m].1 == i);
            }
            assert(m == full.len() - 1);
            assert forall|j: int| 0 <= j < after.len() implies hit_lt(
                #[trigger] after[j],
                (node_dist(parent, center, i) as i128, i as usize),
            ) by {
                assert(hit_lt(full[j], full[m]));
            }
        } else {
            assert(!is_hit(before, i));
            assert(before.len() == k && beyond(before, parent, center, i));
            let far = (node_dist(parent, center, i) as i128, i as usize);
            assert(hit_lt(before[before.len() - 1], far));
            assert forall|j: int| 0 <= j < after.len() implies hit_lt(#[trigger] after[j], far) by {
                assert(after[j] == full[j]);
                if j < at {
                    assert(full[j] == before[j]);
                } else if j > at {
                    assert(full[j] == before[j - 1]);
                } else {
                    assert(full[j] == hit);
                }
            }
        }
    }
}

/// The `k` nearest nodes in `bbox`: a bounded list of the best candidates, the
/// worst of which leaves when a better one comes.
fn nearest_in_bbox(archive: &Osm, center: Point, bbox: Bbox, k: usize) -> (out: Vec<Hit>)
    requires
        k > 0,
    ensures
        is_nearest_in(archive, center, bbox, k as nat, out@),
{
    let mut hits: Vec<Hit> = Vec::new();
    let mut i: usize = 0;
    while i < archive.nodes.len()
        invariant
            k > 0,
            i <= archive.nodes.len(),
            nearest_upto(archive, center, bbox, k as nat, hits@, i as int),
        decreases archive.nodes.len() - i,
    {
        let node = archive.nodes[i];
        let ghost before = hits@;
        let held = bbox.min_lon <= node.lon as i64 && node.lon as i64 <= bbox.max_lon
            && bbox.min_lat <= node.lat as i64 && node.lat as i64 <= bbox.max_lat;
        if held {
            let d: i128 = distance_sq(center, Point { lon: node.lon, lat: node.lat });
            let n: usize = hits.len();
            let hit: Hit = (d, i);
            proof {
                assert(d == node_dist(archive, center, i as int));
                assert(!before.contains(hit)) by {
                    if before.contains(hit) {
                        let m = choose|m: int| 0 <= m < before.len() && before[m] == hit;
                        assert(before[m].1 < i);
                    }
                }
                assert(!is_hit(before, i as int)) by {
                    if is_hit(before, i as int) {
                        let m = choose|m: int|
                            0 <= m < before.len() && (#[trigger] before[m]).1 == i as int;
                        assert(before[m].1 < i);
                    }
                }
            }
            if n < k || d < hits[n - 1].0 || (d == hits[n - 1].0 && i < hits[n - 1].1) {
                insert_hit(&mut hits, hit);
                let ghost full = hits@;
                if hits.len() > k {
                    hits.pop();
                }
                proof {
                    let at = choose|at: int|
                        0 <= at <= before.len() && full == #[trigger] before.insert(at, hit);
                    if before.len() == k {
                        assert(hits@ =~= full.drop_last());
                    }
                    lemma_take_node(
                        archive,
                        center,
                        bbox,
                        k as nat,
                        before,
                        at,
                        i as int,
                        hits@,
                    );
                }
            } else {
                proof {
                    assert(hit_lt(before[n - 1], hit)) by {
                        assert(before[n - 1].1 < i);
                    }
                    assert(beyond(before, archive, center, i as int)) by {
                        assert forall|m: int| 0 <= m < before.len() implies hit_lt(
                            #[trigger] before[m],
                            hit,
                        ) by {
                            if m < n - 1 {
                                assert(hit_lt(before[m], before[n - 1]));
                            }
                        }
                    }
                }
            }
        }
        i = i + 1;
    }
    hits
}

/// The square of half-width `reach` around a point.
pub open spec fn square_around(center: Point, reach: int) -> Bbox {
    Bbox {
        min_lon: (center.lon - reach) as i64,
        min_lat: (center.lat - reach) as i64,
        max_lon: (center.lon + reach) as i64,
        max_lat: (center.lat + reach) as i64,
    }
}

/// A search settles once the worst of `k` hits is no farther than the square's
/// half-width: every node outside is farther.
proof fn lemma_settled(parent: &Osm, center: Point, reach: int, k: nat, hits: Seq<Hit>)
    requires
        0 <= reach <= 0x10_0000_0000,
        k > 0,
        is_nearest_in(parent, center, square_around(center, reach), k, hits),
        hits.len() == k && hits[k - 1].0 <= reach * reach || reach >= 0x1_0000_0000,
        forall|i: int|
            0 <= i < parent.nodes.len() ==> 0 <= #[trigger] node_dist(parent, center, i) <= i128::MAX,
    ensures
        is_nearest(parent, center, k, hits),
{
    let bbox = square_around(center, reach);
    assert forall|i: int| 0 <= i < parent.nodes.len() && !(#[trigger] is_hit(
        hits,
        i,
    )) implies hits.len() == k && beyond(hits, parent, center, i) by {
        let node = parent.nodes@[i];
        if !bbox.holds_node(node) {
            lemma_outside_is_farther(center, node_point(node), reach);
            let far = (node_dist(parent, center, i) as i128, i as usize);
            assert(hits.len() == k);
            assert forall|m: int| 0 <= m < hits.len() implies hit_lt(#[trigger] hits[m], far) by {
                if m < k - 1 {
                    assert(hit_lt(hits[m], hits[k - 1]));
                }
            }
        }
    }
}

/// The `k` nearest node indices to `center`, nearest-first (ties by index).
///
/// Expanding-square search: take the `k` best candidates in a square of
/// half-width `r` around `center`, and double `r` until the `k`th-best distance
/// is at most `r`. Every node within distance `r` lies inside the square, so at
/// that point no other node can displace a kept one.
pub fn k_nearest_nodes(archive: &Osm, center: Point, k: usize) -> (out: Vec<usize>)
    ensures
        exists|hits: Seq<Hit>| #[trigger]
            is_nearest(archive, center, k as nat, hits) && out@ == hit_indices(hits),
{
    if k == 0 || archive.nodes.len() == 0 {
        let none: Vec<usize> = Vec::new();
        proof {
            let hits = Seq::<Hit>::empty();
            assert(none@ =~= hit_indices(hits));
            assert(is_nearest(archive, center, k as nat, hits));
        }
        return none;
    }
    proof {
        assert forall|i: int| 0 <= i < archive.nodes.len() implies 0 <= #[trigger] node_dist(
            archive,
            center,
            i,
        ) <= i128::MAX by {
            lemma_dist_range(center, node_point(archive.nodes@[i]));
        }
    }
    // A two-thousandth of a degree: dense areas settle immediately, sparse ones
    // double outward.
    let scale: i64 = archive.header.coord_scale as i64;
    let mut half_width: i64 = if scale <= 0 {
        1
    } else {
        (scale + 1999) / 2000
    };
    loop
        invariant
            k > 0,
            1 <= half_width <= 0x2_0000_0000,
            forall|i: int|
                0 <= i < archive.nodes.len() ==> 0 <= #[trigger] node_dist(archive, center, i)
                    <= i128::MAX,
        decreases 0x2_0000_0000 - half_width,
    {
        let bbox = Bbox {
            min_lon: center.lon as i64 - half_width,
            min_lat: center.lat as i64 - half_width,
            max_lon: center.lon as i64 + half_width,
            max_lat: center.lat as i64 + half_width,
        };
        let best = nearest_in_bbox(archive, center, bbox, k);
        proof {
            assert(bbox == square_around(center, half_width as int));
        }
        let covers_everything = half_width >= 0x1_0000_0000;
        let settled = best.len() == k && best[k - 1].0 <= square(half_width);
        if settled || covers_everything {
            proof {
                lemma_settled(archive, center, half_width as int, k as nat, best@);
            }
            return take_indices(&best);
        }
        half_width = half_width * 2;
    }
}

proof fn lemma_dist_range(a: Point, b: Point)
    ensures
        0 <= dist_sq(a, b) <= i128::MAX,
{
    reveal(dist_sq);
    let (dx, dy) = (a.lon - b.lon, a.lat - b.lat);
    assert(0 <= dx * dx <= 0x1_0000_0000_0000_0000) by (nonlinear_arith)
        requires
            -0x1_0000_0000 <= dx <= 0x1_0000_0000,
    ;
    assert(0 <= dy * dy <= 0x1_0000_0000_0000_0000) by (nonlinear_arith)
        requires
            -0x1_0000_0000 <= dy <= 0x1_0000_0000,
    ;
}

/// There is one list of the `k` nearest nodes.
pub proof fn nearest_is_determined(
    parent: &Osm,
    center: Point,
    k: nat,
    a: Seq<Hit>,
    b: Seq<Hit>,
)
    requires
        is_nearest(parent, center, k, a),
        is_nearest(parent, center, k, b),
    ensures
        a == b,
{
    let leq = |x: Hit, y: Hit| hit_le(x, y);
    lemma_nearest_within(parent, center, k, a, b);
    lemma_nearest_within(parent, center, k, b, a);
    assert forall|i: int, j: int| 0 <= i <= j < a.len() implies #[trigger] leq(a[i], a[j]) by {
        if i < j {
            assert(hit_lt(a[i], a[j]));
        }
    }
    assert forall|i: int, j: int| 0 <= i <= j < b.len() implies #[trigger] leq(b[i], b[j]) by {
        if i < j {
            assert(hit_lt(b[i], b[j]));
        }
    }
    lemma_ordered_unique(a, b, leq);
}

proof fn lemma_nearest_within(parent: &Osm, center: Point, k: nat, a: Seq<Hit>, b: Seq<Hit>)
    requires
        is_nearest(parent, center, k, a),
        is_nearest(parent, center, k, b),
    ensures
        a.no_duplicates(),
        forall|x: Hit| #[trigger] a.contains(x) ==> b.contains(x),
{
    assert forall|i: int, j: int| 0 <= i < a.len() && 0 <= j < a.len() && i != j implies a[i]
        != a[j] by {
        if i < j {
            assert(hit_lt(a[i], a[j]));
        } else {
            assert(hit_lt(a[j], a[i]));
        }
    }
    assert forall|i: int, j: int| 0 <= i < b.len() && 0 <= j < b.len() && i != j implies b[i]
        != b[j] by {
        if i < j {
            assert(hit_lt(b[i], b[j]));
        } else {
            assert(hit_lt(b[j], b[i]));
        }
    }
    assert forall|x: Hit| #[trigger] a.contains(x) implies b.contains(x) by {
        let m = choose|m: int| 0 <= m < a.len() && a[m] == x;
        let i = x.1 as int;
        assert(a[m].1 == i && a[m].0 == node_dist(parent, center, i));
        if is_hit(b, i) {
            let q = choose|q: int| 0 <= q < b.len() && (#[trigger] b[q]).1 == i;
            assert(b[q] == x);
        } else {
            // `b` is full and lies before `x`, so all of it is in `a`, with `x`
            // one more: too many.
            assert(b.len() == k && beyond(b, parent, center, i));
            assert forall|y: Hit| #[trigger] b.contains(y) implies a.contains(y) by {
                let q = choose|q: int| 0 <= q < b.len() && b[q] == y;
                let j = y.1 as int;
                assert(b[q].1 == j && b[q].0 == node_dist(parent, center, j));
                if is_hit(a, j) {
                    let p = choose|p: int| 0 <= p < a.len() && (#[trigger] a[p]).1 == j;
                    assert(a[p] == y);
                } else {
                    assert(beyond(a, parent, center, j));
                    assert(hit_lt(a[m], (node_dist(parent, center, j) as i128, j as usize)));
                    assert(hit_lt(b[q], (node_dist(parent, center, i) as i128, i as usize)));
                }
            }
            assert(!b.contains(x)) by {
                if b.contains(x) {
                    let q = choose|q: int| 0 <= q < b.len() && b[q] == x;
                    assert(b[q].1 == i);
                }
            }
            lemma_proper_subset_shorter(b, a, x);
        }
    }
}

proof fn lemma_proper_subset_shorter<T>(small: Seq<T>, large: Seq<T>, x: T)
    requires
        small.no_duplicates(),
        large.no_duplicates(),
        forall|y: T| #[trigger] small.contains(y) ==> large.contains(y),
        large.contains(x),
        !small.contains(x),
    ensures
        small.len() < large.len(),
{
    small.unique_seq_to_set();
    large.unique_seq_to_set();
    let (s, l) = (small.to_set(), large.to_set());
    assert(s.subset_of(l)) by {
        assert forall|y: T| s.contains(y) implies l.contains(y) by {
            assert(small.contains(y));
        }
    }
    assert(!s.contains(x) && l.contains(x));
    vstd::set_lib::lemma_len_subset(s, l.remove(x));
}

/// Every vertex lies in the box.
pub open spec fn bounds(ring: Seq<Point>, bbox: Bbox) -> bool {
    forall|i: int| 0 <= i < ring.len() ==> bbox_holds(bbox, #[trigger] ring[i])
}

/// The point lies in the box.
pub open spec fn bbox_holds(bbox: Bbox, p: Point) -> bool {
    bbox.min_lon <= p.lon <= bbox.max_lon && bbox.min_lat <= p.lat <= bbox.max_lat
}

/// An edge does not cross a ray that starts east of it.
proof fn lemma_east_of_edge(p: Point, a: Point, b: Point)
    requires
        p.lon > a.lon,
        p.lon > b.lon,
    ensures
        !rises_past(p, a, b),
{
    reveal(cross);
    if a.lat <= p.lat < b.lat {
        let (w, u, h, d) = (b.lon - a.lon, p.lat - a.lat, b.lat - a.lat, p.lon - a.lon);
        assert(cross(a, b, p) == w * u - h * d);
        assert(w * u - h * d <= 0) by (nonlinear_arith)
            requires
                0 <= u < h,
                w < d,
                d > 0,
        ;
    }
}

/// An edge that spans the latitude of a ray crosses it where the ray starts west
/// of both ends.
proof fn lemma_west_of_edge(p: Point, a: Point, b: Point)
    requires
        p.lon < a.lon,
        p.lon < b.lon,
    ensures
        rises_past(p, a, b) <==> a.lat <= p.lat < b.lat,
{
    reveal(cross);
    if a.lat <= p.lat < b.lat {
        let (w, u, h, d) = (b.lon - a.lon, p.lat - a.lat, b.lat - a.lat, p.lon - a.lon);
        assert(cross(a, b, p) == w * u - h * d);
        assert(w * u - h * d > 0) by (nonlinear_arith)
            requires
                0 <= u < h,
                w > d,
                d < 0,
        ;
    }
}

proof fn lemma_no_crossings(p: Point, ring: Seq<Point>, n: int)
    requires
        0 <= n <= ring.len(),
        forall|i: int|
            0 <= i < ring.len() ==> !crosses(p, previous(ring, i), #[trigger] ring[i]),
    ensures
        crossings(p, ring, n) == 0,
    decreases n,
{
    if n > 0 {
        lemma_no_crossings(p, ring, n - 1);
        assert(!crosses(p, previous(ring, n - 1), ring[n - 1]));
    }
}

/// West of a ring, a ray crosses it each time the ring changes sides.
proof fn lemma_west_parity(p: Point, ring: Seq<Point>, n: int)
    requires
        1 <= n <= ring.len(),
        forall|i: int| 0 <= i < ring.len() ==> p.lon < (#[trigger] ring[i]).lon,
    ensures
        (crossings(p, ring, n) % 2 == 1) == ((ring[ring.len() - 1].lat > p.lat) != (ring[n - 1].lat
            > p.lat)),
    decreases n,
{
    let (a, b) = (previous(ring, n - 1), ring[n - 1]);
    assert(p.lon < a.lon) by {
        if n == 1 {
            assert(a == ring[ring.len() - 1]);
        } else {
            assert(a == ring[n - 2]);
        }
    }
    lemma_west_of_edge(p, a, b);
    lemma_west_of_edge(p, b, a);
    assert(crosses(p, a, b) == ((a.lat > p.lat) != (b.lat > p.lat)));
    if n > 1 {
        lemma_west_parity(p, ring, n - 1);
    } else {
        assert(crossings(p, ring, 0) == 0);
    }
}

/// A polygon lies in the box of its vertices.
pub proof fn a_polygon_lies_in_its_bbox(p: Point, ring: Seq<Point>, bbox: Bbox)
    requires
        ring.len() > 0,
        bounds(ring, bbox),
        in_polygon(p, ring),
    ensures
        bbox_holds(bbox, p),
{
    if on_edge(p, ring, ring.len() as int) {
        let i = choose|i: int|
            0 <= i < ring.len() && on_segment(p, previous(ring, i), #[trigger] ring[i]);
        assert(bbox_holds(bbox, ring[i]));
        if i == 0 {
            assert(bbox_holds(bbox, ring[ring.len() - 1]));
        } else {
            assert(bbox_holds(bbox, ring[i - 1]));
        }
    } else {
        assert(inside_ring(p, ring));
        if p.lon < bbox.min_lon {
            assert forall|i: int| 0 <= i < ring.len() implies p.lon < (#[trigger] ring[i]).lon by {
                assert(bbox_holds(bbox, ring[i]));
            }
            lemma_west_parity(p, ring, ring.len() as int);
        } else if !bbox_holds(bbox, p) {
            assert forall|i: int| 0 <= i < ring.len() implies !crosses(
                p,
                previous(ring, i),
                #[trigger] ring[i],
            ) by {
                let (a, b) = (previous(ring, i), ring[i]);
                assert(bbox_holds(bbox, b));
                if i == 0 {
                    assert(bbox_holds(bbox, ring[ring.len() - 1]));
                } else {
                    assert(bbox_holds(bbox, ring[i - 1]));
                }
                if p.lon > bbox.max_lon {
                    lemma_east_of_edge(p, a, b);
                    lemma_east_of_edge(p, b, a);
                }
            }
            lemma_no_crossings(p, ring, ring.len() as int);
        }
    }
}

/// The box of a ring's vertices.
pub open spec fn ring_bbox(ring: Seq<Point>) -> Bbox
    decreases ring.len(),
{
    if ring.len() <= 1 {
        Bbox {
            min_lon: ring[0].lon as i64,
            min_lat: ring[0].lat as i64,
            max_lon: ring[0].lon as i64,
            max_lat: ring[0].lat as i64,
        }
    } else {
        widened(ring_bbox(ring.drop_last()), ring.last())
    }
}

/// The box that also holds the point.
pub open spec fn widened(bbox: Bbox, p: Point) -> Bbox {
    Bbox {
        min_lon: if p.lon < bbox.min_lon {
            p.lon as i64
        } else {
            bbox.min_lon
        },
        min_lat: if p.lat < bbox.min_lat {
            p.lat as i64
        } else {
            bbox.min_lat
        },
        max_lon: if p.lon > bbox.max_lon {
            p.lon as i64
        } else {
            bbox.max_lon
        },
        max_lat: if p.lat > bbox.max_lat {
            p.lat as i64
        } else {
            bbox.max_lat
        },
    }
}

/// The box of a polygon's vertices.
fn polygon_bbox(polygon: &[Point]) -> (out: Bbox)
    requires
        polygon@.len() > 0,
    ensures
        out == ring_bbox(polygon@),
        bounds(polygon@, out),
{
    let first = polygon[0];
    let mut out = Bbox {
        min_lon: first.lon as i64,
        min_lat: first.lat as i64,
        max_lon: first.lon as i64,
        max_lat: first.lat as i64,
    };
    let mut i: usize = 1;
    while i < polygon.len()
        invariant
            1 <= i <= polygon@.len(),
            out == ring_bbox(polygon@.take(i as int)),
            forall|k: int| 0 <= k < i ==> bbox_holds(out, #[trigger] polygon@[k]),
        decreases polygon@.len() - i,
    {
        proof {
            assert(polygon@.take(i + 1).drop_last() =~= polygon@.take(i as int));
        }
        let (x, y): (i64, i64) = (polygon[i].lon as i64, polygon[i].lat as i64);
        out = Bbox {
            min_lon: if x < out.min_lon {
                x
            } else {
                out.min_lon
            },
            min_lat: if y < out.min_lat {
                y
            } else {
                out.min_lat
            },
            max_lon: if x > out.max_lon {
                x
            } else {
                out.max_lon
            },
            max_lat: if y > out.max_lat {
                y
            } else {
                out.max_lat
            },
        };
        i = i + 1;
    }
    proof {
        assert(polygon@.take(i as int) =~= polygon@);
    }
    out
}

/// Exact point-in-polygon test for nodes (boundary included), plus the polygon's
/// box that prefilters it.
pub struct PolygonFilter {
    /// Box of the polygon; every matching node lies inside it.
    pub bbox: Bbox,
    pub ring: Vec<Point>,
}

impl PolygonFilter {
    /// The filter is that of a polygon.
    pub open spec fn wf(self) -> bool {
        self.ring@.len() >= 3 && self.bbox == ring_bbox(self.ring@) && bounds(self.ring@, self.bbox)
    }

    /// `None` for fewer than 3 vertices.
    pub fn new(polygon: &[Point]) -> (out: Option<Self>)
        ensures
            out is None <==> polygon@.len() < 3,
            out matches Some(filter) ==> filter.wf() && filter.ring@ == polygon@,
    {
        if polygon.len() < 3 {
            return None;
        }
        Some(
            PolygonFilter {
                bbox: polygon_bbox(polygon),
                ring: vstd::slice::slice_to_vec(polygon),
            },
        )
    }

    /// Whether the node lies in the polygon.
    pub fn contains(&self, node: &Node) -> (out: bool)
        requires
            self.wf(),
        ensures
            out == in_polygon(node_point(*node), self.ring@),
    {
        let p = Point { lon: node.lon, lat: node.lat };
        proof {
            if in_polygon(p, self.ring@) {
                a_polygon_lies_in_its_bbox(p, self.ring@, self.bbox);
            }
        }
        self.bbox.min_lon <= p.lon as i64 && p.lon as i64 <= self.bbox.max_lon && self.bbox.min_lat
            <= p.lat as i64 && p.lat as i64 <= self.bbox.max_lat && point_in_polygon(
            p,
            self.ring.as_slice(),
        )
    }
}

/// Node indices inside the `polygon` ring, ascending; none for fewer than 3
/// vertices.
pub fn nodes_in_polygon(archive: &Osm, polygon: &[Point]) -> (out: Vec<usize>)
    ensures
        forall|i: int, j: int| 0 <= i < j < out@.len() ==> out@[i] < out@[j],
        forall|i: usize| #[trigger]
            out@.contains(i) <==> polygon@.len() >= 3 && i < archive.nodes.len() && in_polygon(
                node_point(archive.nodes@[i as int]),
                polygon@,
            ),
{
    let mut out: Vec<usize> = Vec::new();
    let filter = match PolygonFilter::new(polygon) {
        Some(filter) => filter,
        None => {
            return out;
        },
    };
    let mut i: usize = 0;
    while i < archive.nodes.len()
        invariant
            filter.wf(),
            filter.ring@ == polygon@,
            i <= archive.nodes.len(),
            forall|a: int, b: int| 0 <= a < b < out@.len() ==> out@[a] < out@[b],
            forall|a: int| 0 <= a < out@.len() ==> out@[a] < i,
            forall|j: usize| #[trigger]
                out@.contains(j) <==> j < i && in_polygon(
                    node_point(archive.nodes@[j as int]),
                    polygon@,
                ),
        decreases archive.nodes.len() - i,
    {
        let ghost before = out@;
        if filter.contains(&archive.nodes[i]) {
            out.push(i);
            proof {
                assert forall|j: usize| #[trigger] out@.contains(j) <==> j < i + 1 && in_polygon(
                    node_point(archive.nodes@[j as int]),
                    polygon@,
                ) by {
                    vstd::seq_lib::lemma_seq_contains_after_push(before, i, j);
                    if j == i {
                        assert(out@[before.len() as int] == j);
                    }
                }
            }
        }
        i = i + 1;
    }
    out
}

} // verus!
