//! Boolean composition of postings: the merge-join engine.
//!
//! Every operand here is an **ascending run of parent indices**: a `key=value`
//! postings list, or the set of entity-index ranges that a bounding box query
//! returns. Because both are ascending, intersection and union are merges.

use crate::order::{
    ascending, count, lemma_ascending_unique, lemma_count, lemma_count_tail, lemma_same_items,
    lemma_strict_count, lower_bound, merge_sort, splits_at,
    strictly_ascending,
};
use crate::osm::{Extent, Node, Osm, Relation};
pub use crate::select::{Query, QueryError, Shape, Spatial};
use crate::Ref;
use std::ops::Range;
use vstd::prelude::*;

verus! {

/// The kinds of parent entity.
#[derive(Clone, Copy, Debug, PartialEq, Eq, Structural)]
pub enum EntityType {
    Node,
    Way,
    Relation,
}

/// A bounding box in archive units (`lon` = x, `lat` = y), edges included.
#[derive(Clone, Copy, Debug, PartialEq, Eq, Structural)]
pub struct Bbox {
    pub min_lon: i64,
    pub min_lat: i64,
    pub max_lon: i64,
    pub max_lat: i64,
}

impl Bbox {
    /// The node lies in the box.
    pub open spec fn holds_node(self, node: Node) -> bool {
        self.min_lon <= node.lon <= self.max_lon && self.min_lat <= node.lat <= self.max_lat
    }

    /// The extent and the box have a point in common.
    pub open spec fn meets_extent(self, extent: Extent) -> bool {
        &&& extent.min_lon <= self.max_lon
        &&& extent.max_lon >= self.min_lon
        &&& extent.min_lat <= self.max_lat
        &&& extent.max_lat >= self.min_lat
    }

    /// The extent of the way's nodes and the box have a point in common: the
    /// way has nodes on or within each edge.
    pub open spec fn meets_way(self, parent: &Osm, w: int) -> bool {
        &&& has_node(parent, w, |n: Node| n.lon <= self.max_lon)
        &&& has_node(parent, w, |n: Node| n.lon >= self.min_lon)
        &&& has_node(parent, w, |n: Node| n.lat <= self.max_lat)
        &&& has_node(parent, w, |n: Node| n.lat >= self.min_lat)
    }

    /// The relation has an extent that meets the box.
    pub open spec fn meets_relation(self, relation: Relation) -> bool {
        relation.extent matches Some(extent) && self.meets_extent(extent)
    }

    /// The entity lies in the box, or overlaps it.
    pub open spec fn admits(self, parent: &Osm, entity: EntityType, i: int) -> bool {
        match entity {
            EntityType::Node => 0 <= i < parent.nodes.len() && self.holds_node(parent.nodes@[i]),
            EntityType::Way => 0 <= i < parent.ways.len() && self.meets_way(parent, i),
            EntityType::Relation => 0 <= i < parent.relations.len() && self.meets_relation(
                parent.relations@[i],
            ),
        }
    }
}

/// Way `w` has a node in the archive that satisfies `p`.
pub open spec fn has_node(parent: &Osm, w: int, p: spec_fn(Node) -> bool) -> bool {
    exists|j: int|
        parent.ways@[w].refs.start <= j < parent.ways@[w].refs.end && names_node(
            parent,
            #[trigger] parent.nodes_index@[j],
            p,
        )
}

/// A reference that names a node that satisfies `p`.
pub open spec fn names_node(parent: &Osm, at: Option<u64>, p: spec_fn(Node) -> bool) -> bool {
    match at {
        Some(n) => p(parent.nodes@[n as int]),
        None => false,
    }
}

/// `out` holds the entities of a type that the box admits, ascending.
pub open spec fn is_in_bbox(
    parent: &Osm,
    entity: EntityType,
    bbox: Bbox,
    out: Seq<u64>,
) -> bool {
    &&& strictly_ascending(out)
    &&& forall|i: u64| #[trigger] out.contains(i) <==> bbox.admits(parent, entity, i as int)
}

/// Whether an entity lies in the box, or overlaps it.
pub(crate) fn admitted(parent: &Osm, entity: EntityType, bbox: Bbox, i: usize) -> (out: bool)
    requires
        parent.wf(),
        i < parent.len_of(entity),
    ensures
        out == bbox.admits(parent, entity, i as int),
{
    match entity {
        EntityType::Node => {
            let node = parent.nodes[i];
            bbox.min_lon <= node.lon as i64 && node.lon as i64 <= bbox.max_lon && bbox.min_lat
                <= node.lat as i64 && node.lat as i64 <= bbox.max_lat
        },
        EntityType::Way => way_meets(parent, bbox, i),
        EntityType::Relation => match parent.relations[i].extent {
            Some(e) => e.min_lon as i64 <= bbox.max_lon && e.max_lon as i64 >= bbox.min_lon
                && e.min_lat as i64 <= bbox.max_lat && e.max_lat as i64 >= bbox.min_lat,
            None => false,
        },
    }
}

/// Whether the extent of a way's nodes meets the box.
fn way_meets(parent: &Osm, bbox: Bbox, w: usize) -> (out: bool)
    requires
        parent.wf(),
        w < parent.ways.len(),
    ensures
        out == bbox.meets_way(parent, w as int),
{
    let refs = parent.ways[w].refs;
    let mut west: bool = false;
    let mut east: bool = false;
    let mut south: bool = false;
    let mut north: bool = false;
    let ghost (pw, pe, ps, pn) = (
        |n: Node| n.lon <= bbox.max_lon,
        |n: Node| n.lon >= bbox.min_lon,
        |n: Node| n.lat <= bbox.max_lat,
        |n: Node| n.lat >= bbox.min_lat,
    );
    let mut j: u64 = refs.start;
    while j < refs.end
        invariant
            parent.wf(),
            w < parent.ways.len(),
            refs == parent.ways@[w as int].refs,
            refs.within(parent.nodes_index.len() as nat),
            refs.start <= j <= refs.end,
            pw == (|n: Node| n.lon <= bbox.max_lon),
            pe == (|n: Node| n.lon >= bbox.min_lon),
            ps == (|n: Node| n.lat <= bbox.max_lat),
            pn == (|n: Node| n.lat >= bbox.min_lat),
            west == has_node_before(parent, refs.start as int, j as int, pw),
            east == has_node_before(parent, refs.start as int, j as int, pe),
            south == has_node_before(parent, refs.start as int, j as int, ps),
            north == has_node_before(parent, refs.start as int, j as int, pn),
        decreases refs.end - j,
    {
        let at = parent.nodes_index[j as usize];
        proof {
            lemma_has_node_step(parent, refs.start as int, j as int, pw);
            lemma_has_node_step(parent, refs.start as int, j as int, pe);
            lemma_has_node_step(parent, refs.start as int, j as int, ps);
            lemma_has_node_step(parent, refs.start as int, j as int, pn);
        }
        if let Some(n) = at {
            let node = parent.nodes[n as usize];
            west = west || node.lon as i64 <= bbox.max_lon;
            east = east || node.lon as i64 >= bbox.min_lon;
            south = south || node.lat as i64 <= bbox.max_lat;
            north = north || node.lat as i64 >= bbox.min_lat;
        }
        j = j + 1;
    }
    west && east && south && north
}

spec fn has_node_before(parent: &Osm, start: int, end: int, p: spec_fn(Node) -> bool) -> bool {
    exists|j: int|
        start <= j < end && names_node(parent, #[trigger] parent.nodes_index@[j], p)
}

proof fn lemma_has_node_step(parent: &Osm, start: int, j: int, p: spec_fn(Node) -> bool)
    requires
        start <= j,
    ensures
        has_node_before(parent, start, j + 1, p) == (has_node_before(parent, start, j, p)
            || names_node(parent, parent.nodes_index@[j], p)),
{
    if has_node_before(parent, start, j, p) {
        let k = choose|k: int|
            start <= k < j && names_node(parent, #[trigger] parent.nodes_index@[k], p);
        assert(start <= k < j + 1 && names_node(parent, parent.nodes_index@[k], p));
    }
}

/// Ascending indices of the entities of a type that the box admits.
fn indices_in_bbox(parent: &Osm, entity: EntityType, bbox: Bbox) -> (out: Vec<u64>)
    requires
        parent.wf(),
    ensures
        is_in_bbox(parent, entity, bbox, out@),
{
    let n: usize = parent.entity_count(entity);
    let mut out: Vec<u64> = Vec::new();
    let mut i: usize = 0;
    while i < n
        invariant
            parent.wf(),
            n == parent.len_of(entity),
            i <= n,
            strictly_ascending(out@),
            forall|k: int| 0 <= k < out@.len() ==> out@[k] < i,
            forall|v: u64| #[trigger]
                out@.contains(v) <==> v < i && bbox.admits(parent, entity, v as int),
        decreases n - i,
    {
        let ghost before = out@;
        if admitted(parent, entity, bbox, i) {
            out.push(i as u64);
            proof {
                assert forall|v: u64| #[trigger] out@.contains(v) <==> v < i + 1 && bbox.admits(
                    parent,
                    entity,
                    v as int,
                ) by {
                    vstd::seq_lib::lemma_seq_contains_after_push(before, i as u64, v);
                    if v == i {
                        assert(out@[before.len() as int] == v);
                    }
                }
            }
        }
        i = i + 1;
    }
    proof {
        assert forall|v: u64| #[trigger] out@.contains(v) <==> bbox.admits(
            parent,
            entity,
            v as int,
        ) by {
        }
    }
    out
}

/// Ascending node indices whose nodes fall in `bbox`.
pub fn node_indices_in_bbox(archive: &Osm, bbox: Bbox) -> (out: Vec<u64>)
    requires
        archive.wf(),
    ensures
        is_in_bbox(archive, EntityType::Node, bbox, out@),
{
    indices_in_bbox(archive, EntityType::Node, bbox)
}

/// Ascending way indices overlapping `bbox`.
pub fn way_indices_in_bbox(archive: &Osm, bbox: Bbox) -> (out: Vec<u64>)
    requires
        archive.wf(),
    ensures
        is_in_bbox(archive, EntityType::Way, bbox, out@),
{
    indices_in_bbox(archive, EntityType::Way, bbox)
}

/// Ascending relation indices overlapping `bbox`.
pub fn relation_indices_in_bbox(archive: &Osm, bbox: Bbox) -> (out: Vec<u64>)
    requires
        archive.wf(),
    ensures
        is_in_bbox(archive, EntityType::Relation, bbox, out@),
{
    indices_in_bbox(archive, EntityType::Relation, bbox)
}

/// The index ranges of the entities that the box admits.
pub(crate) fn ranges_in_bbox(parent: &Osm, entity: EntityType, bbox: Bbox) -> (out: Vec<Range<u64>>)
    requires
        parent.wf(),
    ensures
        disjoint_ascending(out@),
        forall|v: u64| #[trigger] in_ranges(out@, v) <==> bbox.admits(parent, entity, v as int),
{
    let indices = indices_in_bbox(parent, entity, bbox);
    proof {
        if indices@.len() > 0 {
            assert(indices@.contains(indices@.last()));
            assert(bbox.admits(parent, entity, indices@.last() as int));
        }
    }
    to_index_ranges(indices.as_slice())
}

/// `v` lies in one of the `ranges`.
pub open spec fn in_ranges(ranges: Seq<Range<u64>>, v: u64) -> bool {
    exists|k: int| 0 <= k < ranges.len() && (#[trigger] ranges[k]).start <= v < ranges[k].end
}

/// The ranges are well formed, ascending and do not overlap.
pub open spec fn disjoint_ascending(ranges: Seq<Range<u64>>) -> bool {
    &&& forall|k: int| 0 <= k < ranges.len() ==> (#[trigger] ranges[k]).start <= ranges[k].end
    &&& forall|j: int, k: int|
        0 <= j < k < ranges.len() ==> (#[trigger] ranges[j]).end <= (#[trigger] ranges[k]).start
}

/// The ranges are non-empty, ascending, and no two of them touch: each one is
/// a maximal run.
pub open spec fn maximal_runs(ranges: Seq<Range<u64>>) -> bool {
    &&& forall|k: int| 0 <= k < ranges.len() ==> (#[trigger] ranges[k]).start < ranges[k].end
    &&& forall|j: int, k: int|
        0 <= j < k < ranges.len() ==> (#[trigger] ranges[j]).end < (#[trigger] ranges[k]).start
}

/// The part of `postings` that lies in `ranges`.
pub open spec fn clipped(postings: Seq<u64>, ranges: Seq<Range<u64>>) -> Seq<u64> {
    postings.filter(|v: u64| in_ranges(ranges, v))
}

/// A filter that keeps everything changes nothing.
pub proof fn lemma_filter_all<T>(s: Seq<T>, p: spec_fn(T) -> bool)
    requires
        forall|i: int| 0 <= i < s.len() ==> p(#[trigger] s[i]),
    ensures
        s.filter(p) == s,
    decreases s.len(),
{
    reveal(Seq::filter);
    if s.len() > 0 {
        lemma_filter_all(s.drop_last(), p);
        assert(s =~= s.drop_last().push(s.last()));
    }
}

/// A filter that keeps nothing leaves nothing.
pub proof fn lemma_filter_none<T>(s: Seq<T>, p: spec_fn(T) -> bool)
    requires
        forall|i: int| 0 <= i < s.len() ==> !p(#[trigger] s[i]),
    ensures
        s.filter(p).len() == 0,
    decreases s.len(),
{
    reveal(Seq::filter);
    if s.len() > 0 {
        lemma_filter_none(s.drop_last(), p);
    }
}

/// Filters that agree on the items keep the same items.
pub proof fn lemma_filter_same<T>(s: Seq<T>, p: spec_fn(T) -> bool, q: spec_fn(T) -> bool)
    requires
        forall|i: int| 0 <= i < s.len() ==> p(#[trigger] s[i]) == q(s[i]),
    ensures
        s.filter(p) == s.filter(q),
    decreases s.len(),
{
    reveal(Seq::filter);
    if s.len() > 0 {
        assert(forall|i: int| 0 <= i < s.drop_last().len() ==> s.drop_last()[i] == s[i]);
        lemma_filter_same(s.drop_last(), p, q);
    }
}

/// What a filter keeps comes from the sequence.
pub proof fn lemma_filter_member<T>(s: Seq<T>, p: spec_fn(T) -> bool, i: int)
    requires
        0 <= i < s.filter(p).len(),
    ensures
        s.contains(s.filter(p)[i]),
        p(s.filter(p)[i]),
    decreases s.len(),
{
    reveal(Seq::filter);
    if s.len() > 0 {
        let t = s.drop_last();
        if i < t.filter(p).len() {
            lemma_filter_member(t, p, i);
            let k = choose|k: int| 0 <= k < t.len() && t[k] == t.filter(p)[i];
            assert(s[k] == t[k]);
        } else {
            assert(s[s.len() - 1] == s.last());
        }
    }
}

/// A filtered ascending run is ascending, with its members and their counts.
pub proof fn lemma_filter_ascending(s: Seq<u64>, p: spec_fn(u64) -> bool)
    requires
        ascending(s),
    ensures
        ascending(s.filter(p)),
        strictly_ascending(s) ==> strictly_ascending(s.filter(p)),
        forall|x: u64| #[trigger] s.filter(p).contains(x) <==> s.contains(x) && p(x),
        forall|x: u64| #[trigger]
            count(s.filter(p), x) == if p(x) {
                count(s, x)
            } else {
                0
            },
    decreases s.len(),
{
    reveal(Seq::filter);
    if s.len() > 0 {
        let t = s.drop_last();
        let x = s.last();
        lemma_filter_ascending(t, p);
        assert(s =~= t.push(x));
        assert forall|k: int| 0 <= k < t.filter(p).len() implies t.filter(p)[k] <= x && (
        strictly_ascending(s) ==> t.filter(p)[k] < x) by {
            assert(t.filter(p).contains(t.filter(p)[k]));
            let m = choose|m: int| 0 <= m < t.len() && t[m] == t.filter(p)[k];
            assert(s[m] == t[m]);
        }
        assert forall|y: u64| #[trigger]
            count(s.filter(p), y) == if p(y) {
                count(s, y)
            } else {
                0
            } by {
            lemma_count(t, y);
            lemma_count(t.filter(p), y);
            assert(count(t.push(x), y) == count(t, y) + if x == y {
                1nat
            } else {
                0
            });
            if p(x) {
                assert(s.filter(p) == t.filter(p).push(x));
                assert(count(t.filter(p).push(x), y) == count(t.filter(p), y) + if x == y {
                    1nat
                } else {
                    0
                });
            }
        }
        assert forall|y: u64| #[trigger] s.filter(p).contains(y) <==> s.contains(y) && p(y) by {
            lemma_count(s, y);
            lemma_count(s.filter(p), y);
        }
    } else {
        assert forall|y: u64| #[trigger] count(s.filter(p), y) == 0 && count(s, y) == 0 by {
            lemma_count(s, y);
            lemma_count(s.filter(p), y);
        }
    }
}

/// Run-length compress ascending, distinct indices into maximal `[start, end)`
/// runs: the contiguous entity-index ranges that [`intersect_bbox`] consumes.
pub fn to_index_ranges(sorted: &[u64]) -> (out: Vec<Range<u64>>)
    requires
        strictly_ascending(sorted@),
        sorted@.len() > 0 ==> sorted@.last() < u64::MAX,
    ensures
        maximal_runs(out@),
        forall|v: u64| #[trigger] in_ranges(out@, v) <==> sorted@.contains(v),
{
    let mut out: Vec<Range<u64>> = Vec::new();
    let mut i: usize = 0;
    while i < sorted.len()
        invariant
            i <= sorted@.len(),
            strictly_ascending(sorted@),
            sorted@.len() > 0 ==> sorted@.last() < u64::MAX,
            maximal_runs(out@),
            out@.len() > 0 <==> i > 0,
            i > 0 ==> out@.last().end == sorted@[i - 1] + 1,
            forall|v: u64| #[trigger]
                in_ranges(out@, v) <==> exists|k: int| 0 <= k < i && sorted@[k] == v,
        decreases sorted@.len() - i,
    {
        let v: u64 = sorted[i];
        let ghost before = out@;
        assert(v <= sorted@.last());
        let n: usize = out.len();
        if n > 0 && out[n - 1].end == v {
            let last = out.pop();
            let start: u64 = match last {
                Some(r) => r.start,
                None => v,
            };
            out.push(Range { start, end: v + 1 });
            proof {
                assert(out@ =~= before.update(n - 1, Range { start: before[n - 1].start, end: (v + 1) as u64 }));
                assert forall|w: u64| #[trigger]
                    in_ranges(out@, w) <==> exists|k: int| 0 <= k < i + 1 && sorted@[k] == w by {
                    if in_ranges(out@, w) {
                        let k = choose|k: int|
                            0 <= k < out@.len() && (#[trigger] out@[k]).start <= w < out@[k].end;
                        if w == v {
                            assert(sorted@[i as int] == w);
                        } else {
                            assert(before[k].start <= w < before[k].end);
                            assert(in_ranges(before, w));
                        }
                    }
                    if exists|k: int| 0 <= k < i + 1 && sorted@[k] == w {
                        let k = choose|k: int| 0 <= k < i + 1 && sorted@[k] == w;
                        if k == i {
                            assert(out@[n - 1].start <= w < out@[n - 1].end);
                        } else {
                            assert(in_ranges(before, w));
                            let m = choose|m: int|
                                0 <= m < before.len() && (#[trigger] before[m]).start <= w
                                    < before[m].end;
                            assert(out@[m].start <= w < out@[m].end);
                        }
                    }
                }
            }
        } else {
            out.push(Range { start: v, end: v + 1 });
            proof {
                if i > 0 {
                    assert(sorted@[i - 1] < v);
                    assert forall|j: int| 0 <= j < before.len() implies (#[trigger] before[j]).end
                        < v by {
                        if j < before.len() - 1 {
                            assert(before[j].end < before[before.len() - 1].start);
                        }
                    }
                }
                assert forall|w: u64| #[trigger]
                    in_ranges(out@, w) <==> exists|k: int| 0 <= k < i + 1 && sorted@[k] == w by {
                    if in_ranges(out@, w) {
                        let k = choose|k: int|
                            0 <= k < out@.len() && (#[trigger] out@[k]).start <= w < out@[k].end;
                        if k == n {
                            assert(sorted@[i as int] == w);
                        } else {
                            assert(before[k].start <= w < before[k].end);
                            assert(in_ranges(before, w));
                        }
                    }
                    if exists|k: int| 0 <= k < i + 1 && sorted@[k] == w {
                        let k = choose|k: int| 0 <= k < i + 1 && sorted@[k] == w;
                        if k == i {
                            assert(out@[n as int].start <= w < out@[n as int].end);
                        } else {
                            assert(in_ranges(before, w));
                            let m = choose|m: int|
                                0 <= m < before.len() && (#[trigger] before[m]).start <= w
                                    < before[m].end;
                            assert(out@[m].start <= w < out@[m].end);
                        }
                    }
                }
            }
        }
        i = i + 1;
    }
    out
}

proof fn lemma_clip_one_more(
    postings: Seq<u64>,
    ranges: Seq<Range<u64>>,
    k: int,
    lo: int,
    hi: int,
)
    requires
        ascending(postings),
        disjoint_ascending(ranges),
        0 <= k < ranges.len(),
        splits_at(postings, ranges[k].start, lo),
        splits_at(postings, ranges[k].end, hi),
    ensures
        lo <= hi,
        clipped(postings, ranges.take(k + 1)) == clipped(postings, ranges.take(k))
            + postings.subrange(lo, hi),
{
    assert(ranges[k].start <= ranges[k].end);
    if hi < lo {
        assert(postings[hi] < ranges[k].start);
    }
    let p = |v: u64| in_ranges(ranges.take(k), v);
    let q = |v: u64| in_ranges(ranges.take(k + 1), v);
    let a = postings.subrange(0, lo);
    let b = postings.subrange(lo, hi);
    let c = postings.subrange(hi, postings.len() as int);
    assert(postings =~= a + b + c);
    Seq::filter_distributes_over_add(a + b, c, p);
    Seq::filter_distributes_over_add(a, b, p);
    Seq::filter_distributes_over_add(a + b, c, q);
    Seq::filter_distributes_over_add(a, b, q);
    assert forall|v: u64| #[trigger] p(v) implies v < ranges[k].start by {
        let j = choose|j: int|
            0 <= j < ranges.take(k).len() && (#[trigger] ranges.take(k)[j]).start <= v
                < ranges.take(k)[j].end;
        assert(ranges[j].end <= ranges[k].start);
    }
    assert forall|v: u64| #[trigger] q(v) <==> p(v) || ranges[k].start <= v < ranges[k].end by {
        if q(v) {
            let j = choose|j: int|
                0 <= j < ranges.take(k + 1).len() && (#[trigger] ranges.take(k + 1)[j]).start <= v
                    < ranges.take(k + 1)[j].end;
            if j < k {
                assert(ranges.take(k)[j].start <= v < ranges.take(k)[j].end);
            }
        }
        if p(v) {
            let j = choose|j: int|
                0 <= j < ranges.take(k).len() && (#[trigger] ranges.take(k)[j]).start <= v
                    < ranges.take(k)[j].end;
            assert(ranges.take(k + 1)[j].start <= v < ranges.take(k + 1)[j].end);
        }
        if ranges[k].start <= v < ranges[k].end {
            assert(ranges.take(k + 1)[k].start <= v < ranges.take(k + 1)[k].end);
        }
    }
    assert forall|i: int| 0 <= i < a.len() implies p(#[trigger] a[i]) == q(a[i]) by {
        assert(a[i] == postings[i]);
    }
    lemma_filter_same(a, p, q);
    assert forall|i: int| 0 <= i < b.len() implies q(#[trigger] b[i]) && !p(b[i]) by {
        assert(b[i] == postings[lo + i]);
    }
    lemma_filter_all(b, q);
    lemma_filter_none(b, p);
    assert forall|i: int| 0 <= i < c.len() implies !q(#[trigger] c[i]) && !p(c[i]) by {
        assert(c[i] == postings[hi + i]);
    }
    lemma_filter_none(c, p);
    lemma_filter_none(c, q);
    assert(clipped(postings, ranges.take(k)) =~= a.filter(p));
    assert(clipped(postings, ranges.take(k + 1)) =~= a.filter(p) + b);
}

/// Intersect an ascending postings slice with the ascending, disjoint
/// entity-index `ranges` from a bounding box query. Gives parent indices in
/// order.
///
/// Each range's bounds are binary-searched within `postings`.
pub fn intersect_bbox(postings: &[Ref], ranges: &[Range<u64>]) -> (out: Vec<u64>)
    requires
        ascending(postings@),
        disjoint_ascending(ranges@),
    ensures
        out@ == clipped(postings@, ranges@),
{
    let mut out: Vec<u64> = Vec::new();
    let mut k: usize = 0;
    proof {
        lemma_filter_none(postings@, |v: u64| in_ranges(ranges@.take(0), v));
        assert(out@ =~= clipped(postings@, ranges@.take(0)));
    }
    while k < ranges.len()
        invariant
            k <= ranges@.len(),
            ascending(postings@),
            disjoint_ascending(ranges@),
            out@ == clipped(postings@, ranges@.take(k as int)),
        decreases ranges@.len() - k,
    {
        let lo: usize = lower_bound(postings, ranges[k].start);
        let hi: usize = lower_bound(postings, ranges[k].end);
        proof {
            lemma_clip_one_more(postings@, ranges@, k as int, lo as int, hi as int);
        }
        let ghost before = out@;
        let mut i: usize = lo;
        while i < hi
            invariant
                lo <= i <= hi <= postings@.len(),
                out@ == before + postings@.subrange(lo as int, i as int),
            decreases hi - i,
        {
            out.push(postings[i]);
            proof {
                assert(postings@.subrange(lo as int, i + 1) =~= postings@.subrange(
                    lo as int,
                    i as int,
                ).push(postings@[i as int]));
            }
            i = i + 1;
        }
        k = k + 1;
    }
    proof {
        assert(ranges@.take(k as int) =~= ranges@);
    }
    out
}

/// The smaller of two counts.
pub open spec fn least(a: nat, b: nat) -> nat {
    if a <= b {
        a
    } else {
        b
    }
}

/// `out` is the intersection of the runs `a` and `b`: ascending, with each index
/// as often as in the operand that holds it less often.
pub open spec fn is_intersection(a: Seq<u64>, b: Seq<u64>, out: Seq<u64>) -> bool {
    &&& ascending(out)
    &&& forall|x: u64| #[trigger] count(out, x) == least(count(a, x), count(b, x))
}

proof fn lemma_absent_from_tail(s: Seq<u64>, i: int, x: u64)
    requires
        ascending(s),
        0 <= i <= s.len(),
        i < s.len() ==> x < s[i],
    ensures
        count(s.skip(i), x) == 0,
{
    lemma_count(s.skip(i), x);
    if s.skip(i).contains(x) {
        let k = choose|k: int| 0 <= k < s.skip(i).len() && s.skip(i)[k] == x;
        assert(s[i + k] == x);
        assert(s[i] <= s[i + k]);
    }
}

/// Intersect two ascending postings slices (`k1=v1` and `k2=v2`): an index
/// occurs as often as in the operand that holds it less often. Linear merge.
pub fn intersect(a: &[Ref], b: &[Ref]) -> (out: Vec<u64>)
    requires
        ascending(a@),
        ascending(b@),
    ensures
        is_intersection(a@, b@, out@),
{
    let mut out: Vec<u64> = Vec::new();
    let mut i: usize = 0;
    let mut j: usize = 0;
    proof {
        assert(a@.skip(0) =~= a@);
        assert(b@.skip(0) =~= b@);
        assert forall|x: u64| #[trigger] count(out@, x) == 0 by {
            lemma_count(out@, x);
        }
    }
    while i < a.len() && j < b.len()
        invariant
            i <= a@.len(),
            j <= b@.len(),
            ascending(a@),
            ascending(b@),
            ascending(out@),
            forall|k: int| 0 <= k < out@.len() && i < a@.len() ==> out@[k] <= a@[i as int],
            forall|k: int| 0 <= k < out@.len() && j < b@.len() ==> out@[k] <= b@[j as int],
            forall|x: u64| #[trigger]
                count(out@, x) + least(count(a@.skip(i as int), x), count(b@.skip(j as int), x))
                    == least(count(a@, x), count(b@, x)),
        decreases a@.len() - i + b@.len() - j,
    {
        let av: u64 = a[i];
        let bv: u64 = b[j];
        let ghost before = out@;
        proof {
            assert forall|x: u64| #![trigger count(out@, x)]
                count(a@.skip(i as int), x) == count(a@.skip(i + 1), x) + (if av == x {
                    1nat
                } else {
                    0
                }) && count(b@.skip(j as int), x) == count(b@.skip(j + 1), x) + (if bv == x {
                    1nat
                } else {
                    0
                }) && count(out@.push(av), x) == count(out@, x) + (if x == av {
                    1nat
                } else {
                    0
                }) by {
                lemma_count_tail(a@, i as int, x);
                lemma_count_tail(b@, j as int, x);
                lemma_count(out@, x);
            }
        }
        if av == bv {
            out.push(av);
            i = i + 1;
            j = j + 1;
            proof {
                assert forall|x: u64| #[trigger]
                    count(out@, x) + least(count(a@.skip(i as int), x), count(b@.skip(j as int), x))
                        == least(count(a@, x), count(b@, x)) by {
                    assert(count(before, x) >= 0);
                }
            }
        } else if av < bv {
            proof {
                lemma_absent_from_tail(b@, j as int, av);
                assert forall|x: u64| #[trigger]
                    count(out@, x) + least(count(a@.skip(i + 1), x), count(b@.skip(j as int), x))
                        == least(count(a@, x), count(b@, x)) by {
                }
            }
            i = i + 1;
        } else {
            proof {
                lemma_absent_from_tail(a@, i as int, bv);
                assert forall|x: u64| #[trigger]
                    count(out@, x) + least(count(a@.skip(i as int), x), count(b@.skip(j + 1), x))
                        == least(count(a@, x), count(b@, x)) by {
                }
            }
            j = j + 1;
        }
    }
    proof {
        assert forall|x: u64| #[trigger]
            count(out@, x) == least(count(a@, x), count(b@, x)) by {
            if i == a@.len() {
                lemma_absent_from_tail(a@, i as int, x);
            } else {
                lemma_absent_from_tail(b@, j as int, x);
            }
        }
    }
    out
}

/// `v` occurs in one of `lists`.
pub open spec fn in_some(lists: Seq<&[Ref]>, v: u64) -> bool {
    exists|k: int| 0 <= k < lists.len() && (#[trigger] lists[k])@.contains(v)
}

/// `out` is the union of `lists`: strictly ascending, with exactly the indices
/// that occur in one of them.
pub open spec fn is_union(lists: Seq<&[Ref]>, out: Seq<u64>) -> bool {
    &&& strictly_ascending(out)
    &&& forall|x: u64| #[trigger] out.contains(x) <==> in_some(lists, x)
}

/// Merge two ascending runs into one, without repetition.
fn merge_union(a: &[u64], b: &[u64]) -> (out: Vec<u64>)
    requires
        ascending(a@),
        ascending(b@),
    ensures
        strictly_ascending(out@),
        forall|x: u64| #[trigger] out@.contains(x) <==> a@.contains(x) || b@.contains(x),
{
    let mut out: Vec<u64> = Vec::new();
    let mut i: usize = 0;
    let mut j: usize = 0;
    while i < a.len() || j < b.len()
        invariant
            i <= a@.len(),
            j <= b@.len(),
            ascending(a@),
            ascending(b@),
            strictly_ascending(out@),
            forall|k: int| 0 <= k < out@.len() && i < a@.len() ==> out@[k] <= a@[i as int],
            forall|k: int| 0 <= k < out@.len() && j < b@.len() ==> out@[k] <= b@[j as int],
            forall|x: u64| #[trigger]
                out@.contains(x) <==> (exists|k: int| 0 <= k < i && a@[k] == x) || (exists|k: int|
                    0 <= k < j && b@[k] == x),
        decreases a@.len() - i + b@.len() - j,
    {
        let take_a = i < a.len() && (j >= b.len() || a[i] <= b[j]);
        let v: u64 = if take_a {
            a[i]
        } else {
            b[j]
        };
        let ghost before = out@;
        let ghost (i0, j0) = (i as int, j as int);
        if out.len() == 0 || out[out.len() - 1] != v {
            out.push(v);
        }
        if take_a {
            i = i + 1;
        } else {
            j = j + 1;
        }
        proof {
            assert(out@[out@.len() - 1] == v);
            assert forall|x: u64| #[trigger]
                out@.contains(x) <==> (exists|k: int| 0 <= k < i && a@[k] == x) || (exists|k: int|
                    0 <= k < j && b@[k] == x) by {
                vstd::seq_lib::lemma_seq_contains_after_push(before, v, x);
                if x == v {
                    assert(out@.contains(v));
                    if take_a {
                        assert(a@[i0] == x);
                    } else {
                        assert(b@[j0] == x);
                    }
                } else {
                    assert(out@.contains(x) <==> before.contains(x));
                }
            }
        }
    }
    proof {
        assert forall|x: u64| #[trigger] out@.contains(x) <==> a@.contains(x) || b@.contains(x) by {
            if a@.contains(x) {
                let k = choose|k: int| 0 <= k < a@.len() && a@[k] == x;
                assert(a@[k] == x);
            }
            if b@.contains(x) {
                let k = choose|k: int| 0 <= k < b@.len() && b@[k] == x;
                assert(b@[k] == x);
            }
        }
    }
    out
}

fn union_between(lists: &[&[Ref]], lo: usize, hi: usize) -> (out: Vec<u64>)
    requires
        lo < hi <= lists@.len(),
        forall|k: int| 0 <= k < lists@.len() ==> ascending((#[trigger] lists@[k])@),
    ensures
        strictly_ascending(out@),
        forall|x: u64| #[trigger]
            out@.contains(x) <==> exists|k: int| lo <= k < hi && (#[trigger] lists@[k])@.contains(x),
    decreases hi - lo,
{
    if hi - lo == 1 {
        let empty: Vec<u64> = Vec::new();
        let out = merge_union(lists[lo], empty.as_slice());
        proof {
            assert forall|x: u64| #[trigger]
                out@.contains(x) <==> exists|k: int|
                    lo <= k < hi && (#[trigger] lists@[k])@.contains(x) by {
                if lists@[lo as int]@.contains(x) {
                    assert(lo <= lo < hi);
                }
            }
        }
        return out;
    }
    let mid: usize = lo + (hi - lo) / 2;
    let a = union_between(lists, lo, mid);
    let b = union_between(lists, mid, hi);
    let out = merge_union(a.as_slice(), b.as_slice());
    proof {
        assert forall|x: u64| #[trigger]
            out@.contains(x) <==> exists|k: int|
                lo <= k < hi && (#[trigger] lists@[k])@.contains(x) by {
            assert(out@.contains(x) <==> a@.contains(x) || b@.contains(x));
            if exists|k: int| lo <= k < hi && (#[trigger] lists@[k])@.contains(x) {
                let k = choose|k: int| lo <= k < hi && (#[trigger] lists@[k])@.contains(x);
                if k < mid {
                    assert(a@.contains(x));
                } else {
                    assert(b@.contains(x));
                }
            }
        }
    }
    out
}

/// Union of several ascending postings slices (`key=*` over a key's value
/// postings), ascending and deduplicated.
///
/// The lists are merged pairwise, so each posting takes part in a number of
/// merges that is logarithmic in the number of lists.
pub fn union(lists: &[&[Ref]]) -> (out: Vec<u64>)
    requires
        forall|k: int| 0 <= k < lists@.len() ==> ascending((#[trigger] lists@[k])@),
    ensures
        is_union(lists@, out@),
{
    if lists.len() == 0 {
        return Vec::new();
    }
    union_between(lists, 0, lists.len())
}

/// A composable selection of entities of one type: a chain of tag postings to
/// intersect, optionally clipped to a bounding box.
pub struct Selection<'a> {
    /// Each term is one ascending postings slice that must contain the entity.
    pub terms: Vec<&'a [Ref]>,
    /// Optional bounding box clip, as the disjoint ascending entity-index
    /// ranges that a spatial query produced.
    pub bbox_ranges: Option<Vec<Range<u64>>>,
}

/// `n` is the least number of times that `x` occurs in one of `terms`.
pub open spec fn least_count(terms: Seq<&[Ref]>, x: u64, n: nat) -> bool {
    &&& forall|k: int| 0 <= k < terms.len() ==> n <= count((#[trigger] terms[k])@, x)
    &&& exists|k: int| 0 <= k < terms.len() && n == count((#[trigger] terms[k])@, x)
}

impl<'a> Selection<'a> {
    /// The terms are ascending runs, the clip is a set of disjoint ascending
    /// ranges.
    pub open spec fn wf(self) -> bool {
        &&& forall|k: int| 0 <= k < self.terms@.len() ==> ascending((#[trigger] self.terms@[k])@)
        &&& self.bbox_ranges matches Some(ranges) ==> disjoint_ascending(ranges@)
    }

    /// The clip lets `x` through.
    pub open spec fn admits(self, x: u64) -> bool {
        self.bbox_ranges matches Some(ranges) ==> in_ranges(ranges@, x)
    }

    /// `out` is what the selection stands for.
    pub open spec fn selects(self, out: Seq<u64>) -> bool {
        &&& ascending(out)
        &&& self.terms@.len() == 0 ==> out.len() == 0
        &&& self.terms@.len() > 0 ==> forall|x: u64|
            if self.admits(x) {
                least_count(self.terms@, x, #[trigger] count(out, x))
            } else {
                count(out, x) == 0
            }
    }

    /// Empty selection (matches nothing until a term is added).
    pub fn new() -> (out: Self)
        ensures
            out.wf(),
            out.terms@.len() == 0,
            out.bbox_ranges is None,
    {
        Selection { terms: Vec::new(), bbox_ranges: None }
    }

    /// Require membership in `postings` (logical AND).
    pub fn and(self, postings: &'a [Ref]) -> (out: Self)
        ensures
            out.terms@ == self.terms@.push(postings),
            out.bbox_ranges == self.bbox_ranges,
            self.wf() && ascending(postings@) ==> out.wf(),
    {
        let mut terms = self.terms;
        terms.push(postings);
        Selection { terms, bbox_ranges: self.bbox_ranges }
    }

    /// Clip to the ranges from a spatial query.
    pub fn in_bbox(self, ranges: Vec<Range<u64>>) -> (out: Self)
        ensures
            out.terms@ == self.terms@,
            out.bbox_ranges == Some(ranges),
            self.wf() && disjoint_ascending(ranges@) ==> out.wf(),
    {
        Selection { terms: self.terms, bbox_ranges: Some(ranges) }
    }

    /// Resolve to the matching parent indices, ascending.
    pub fn resolve(self) -> (out: Vec<u64>)
        requires
            self.wf(),
        ensures
            self.selects(out@),
    {
        let ghost this = self;
        let terms = self.terms;
        if terms.len() == 0 {
            return Vec::new();
        }
        // Intersect the smallest term first to keep intermediates small.
        let order = shortest_first(&terms);
        let first: usize = order[0];
        let mut acc: Vec<u64> = vstd::slice::slice_to_vec(terms[first]);
        proof {
            assert(order@.contains(first));
            assert forall|x: u64| #[trigger]
                least_among(terms@, order@.take(1), x, count(acc@, x)) by {
                assert(order@.take(1)[0] == first);
            }
        }
        let mut k: usize = 1;
        while k < order.len()
            invariant
                1 <= k <= order@.len(),
                forall|i: int| 0 <= i < terms@.len() ==> ascending((#[trigger] terms@[i])@),
                forall|i: int| 0 <= i < order@.len() ==> (#[trigger] order@[i]) < terms@.len(),
                ascending(acc@),
                forall|x: u64| #[trigger]
                    least_among(terms@, order@.take(k as int), x, count(acc@, x)),
            decreases order@.len() - k,
        {
            let ghost before = acc@;
            let t: usize = order[k];
            acc = intersect(acc.as_slice(), terms[t]);
            proof {
                assert forall|x: u64| #[trigger]
                    least_among(terms@, order@.take(k + 1), x, count(acc@, x)) by {
                    assert(least_among(terms@, order@.take(k as int), x, count(before, x)));
                    assert(order@.take(k + 1)[k as int] == t);
                    assert forall|i: int| 0 <= i < order@.take(k + 1).len() implies count(
                        acc@,
                        x,
                    ) <= count(terms@[(#[trigger] order@.take(k + 1)[i]) as int]@, x) by {
                        if i < k {
                            assert(order@.take(k as int)[i] == order@.take(k + 1)[i]);
                        }
                    }
                    let w = choose|w: int|
                        0 <= w < k && count(before, x) == count(
                            terms@[(#[trigger] order@.take(k as int)[w]) as int]@,
                            x,
                        );
                    assert(order@.take(k as int)[w] == order@.take(k + 1)[w]);
                }
            }
            k = k + 1;
        }
        proof {
            assert(order@.take(k as int) =~= order@);
            assert forall|x: u64| #[trigger] least_count(terms@, x, count(acc@, x)) by {
                assert(least_among(terms@, order@, x, count(acc@, x)));
                assert forall|i: int| 0 <= i < terms@.len() implies count(acc@, x) <= count(
                    (#[trigger] terms@[i])@,
                    x,
                ) by {
                    assert(order@.contains(i as usize));
                    let m = choose|m: int| 0 <= m < order@.len() && order@[m] == i as usize;
                    assert(order@[m] == i);
                }
                let w = choose|w: int|
                    0 <= w < order@.len() && count(acc@, x) == count(
                        terms@[(#[trigger] order@[w]) as int]@,
                        x,
                    );
                assert(count(acc@, x) == count(terms@[order@[w] as int]@, x));
            }
        }
        match self.bbox_ranges {
            Some(ranges) => {
                let out = intersect_bbox(acc.as_slice(), ranges.as_slice());
                proof {
                    let p = |v: u64| in_ranges(ranges@, v);
                    lemma_filter_ascending(acc@, p);
                    assert forall|x: u64|
                        if this.admits(x) {
                            least_count(this.terms@, x, #[trigger] count(out@, x))
                        } else {
                            count(out@, x) == 0
                        } by {
                        assert(count(acc@.filter(p), x) == if p(x) {
                            count(acc@, x)
                        } else {
                            0
                        });
                        assert(least_count(terms@, x, count(acc@, x)));
                    }
                }
                out
            },
            None => {
                proof {
                    assert forall|x: u64|
                        if this.admits(x) {
                            least_count(this.terms@, x, #[trigger] count(acc@, x))
                        } else {
                            count(acc@, x) == 0
                        } by {
                        assert(least_count(terms@, x, count(acc@, x)));
                    }
                }
                acc
            },
        }
    }
}

impl<'a> Default for Selection<'a> {
    fn default() -> (out: Self)
        ensures
            out.wf(),
            out.terms@.len() == 0,
            out.bbox_ranges is None,
    {
        Selection::new()
    }
}

/// `n` is the least number of times that `x` occurs in one of the terms that
/// `order` names.
spec fn least_among(terms: Seq<&[Ref]>, order: Seq<usize>, x: u64, n: nat) -> bool {
    &&& forall|k: int|
        0 <= k < order.len() ==> n <= count(terms[(#[trigger] order[k]) as int]@, x)
    &&& exists|k: int|
        0 <= k < order.len() && n == count(terms[(#[trigger] order[k]) as int]@, x)
}

/// The positions of `terms`, shortest term first.
fn shortest_first(terms: &Vec<&[Ref]>) -> (out: Vec<usize>)
    ensures
        out@.len() == terms@.len(),
        forall|i: usize| #[trigger] out@.contains(i) <==> i < terms@.len(),
        forall|i: int| 0 <= i < out@.len() ==> (#[trigger] out@[i]) < terms@.len(),
        forall|i: int, j: int|
            0 <= i <= j < out@.len() ==> terms@[(#[trigger] out@[i]) as int]@.len()
                <= terms@[(#[trigger] out@[j]) as int]@.len(),
{
    let mut positions: Vec<usize> = Vec::new();
    let mut i: usize = 0;
    while i < terms.len()
        invariant
            i <= terms@.len(),
            positions@.len() == i,
            forall|k: int| 0 <= k < i ==> positions@[k] == k,
        decreases terms@.len() - i,
    {
        positions.push(i);
        i = i + 1;
    }
    let leq = |a: usize, b: usize| -> (r: bool)
        requires
            a < terms@.len(),
            b < terms@.len(),
        ensures
            r == (terms@[a as int]@.len() <= terms@[b as int]@.len()),
        { terms[a].len() <= terms[b].len() };
    let ghost model = |a: usize, b: usize| terms@[a as int]@.len() <= terms@[b as int]@.len();
    let ghost start = positions@;
    let out = merge_sort(positions, &leq, Ghost(model));
    proof {
        lemma_same_items(out@, start);
        assert forall|p: usize| #[trigger] out@.contains(p) <==> p < terms@.len() by {
            if p < terms@.len() {
                assert(start[p as int] == p);
            }
            assert(out@.contains(p) <==> start.contains(p));
        }
        assert forall|i: int| 0 <= i < out@.len() implies (#[trigger] out@[i]) < terms@.len() by {
            assert(out@.contains(out@[i]));
        }
        assert forall|i: int, j: int| 0 <= i <= j < out@.len() implies terms@[(
        #[trigger] out@[i]) as int]@.len() <= terms@[(#[trigger] out@[j]) as int]@.len() by {
            assert(model(out@[i], out@[j]));
        }
    }
    out
}

/// Intersection does not depend on the order of its operands.
pub proof fn intersection_commutes(a: Seq<u64>, b: Seq<u64>, ab: Seq<u64>, ba: Seq<u64>)
    requires
        is_intersection(a, b, ab),
        is_intersection(b, a, ba),
    ensures
        ab == ba,
{
    assert forall|x: u64| #[trigger] count(ab, x) == count(ba, x) by {
        assert(count(ba, x) == least(count(b, x), count(a, x)));
    }
    lemma_ascending_unique(ab, ba);
}

/// Intersecting with a run without repetition keeps what is in it: the
/// merge-join is a filter by membership.
pub proof fn intersection_is_filter(a: Seq<u64>, b: Seq<u64>, ab: Seq<u64>)
    requires
        strictly_ascending(a),
        strictly_ascending(b),
        is_intersection(a, b, ab),
    ensures
        ab == a.filter(|x: u64| b.contains(x)),
        strictly_ascending(ab),
        forall|x: u64| #[trigger] ab.contains(x) <==> a.contains(x) && b.contains(x),
{
    let p = |x: u64| b.contains(x);
    assert(ascending(a));
    lemma_filter_ascending(a, p);
    assert forall|x: u64| #[trigger] count(ab, x) == count(a.filter(p), x) by {
        lemma_strict_count(a, x);
        lemma_strict_count(b, x);
        lemma_filter_ascending(a, p);
        assert(count(a.filter(p), x) == if p(x) {
            count(a, x)
        } else {
            0
        });
    }
    lemma_ascending_unique(ab, a.filter(p));
}

/// Clipping to the runs of an index set keeps exactly the postings in that set:
/// `key=value` within a bounding box is a filter of `key=value`.
pub proof fn clip_is_filter(postings: Seq<u64>, indices: Seq<u64>, ranges: Seq<Range<u64>>)
    requires
        forall|v: u64| #[trigger] in_ranges(ranges, v) <==> indices.contains(v),
    ensures
        clipped(postings, ranges) == postings.filter(|v: u64| indices.contains(v)),
{
    lemma_filter_same(
        postings,
        |v: u64| in_ranges(ranges, v),
        |v: u64| indices.contains(v),
    );
}

/// A selection resolves in only one way.
pub proof fn selection_is_determined(s: Selection<'_>, a: Seq<u64>, b: Seq<u64>)
    requires
        s.selects(a),
        s.selects(b),
    ensures
        a == b,
{
    if s.terms@.len() > 0 {
        assert forall|x: u64| #[trigger] count(a, x) == count(b, x) by {
            if s.admits(x) {
                assert(least_count(s.terms@, x, count(a, x)));
                assert(least_count(s.terms@, x, count(b, x)));
            } else {
                assert(count(b, x) == 0);
            }
        }
        lemma_ascending_unique(a, b);
    } else {
        assert(a =~= b);
    }
}

} // verus!
