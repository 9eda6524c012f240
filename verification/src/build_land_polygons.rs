//! Build the `LandPolygons` index from imported rings.
//!
//! Land or hole is taken from the imported ring's own role, not derived from its
//! winding: the shapefile convention winds outer rings clockwise, the opposite
//! of the coastline convention.

use crate::ext::{lemma_append_run, run, LandPolygons, LandRingEntry};
use crate::geometry::Point;
use crate::land_polygons::coord_first;
use crate::order::{
    cuts, is_ranking, lemma_ranking_exists, lemma_ranking_unique, rank_descending, rank_le, ranking,
};
use crate::osm::Extent;
use crate::query::lemma_filter_member;
use vstd::prelude::*;

verus! {

/// Degrees, in the order of the degrees: for floating point, the bits of what is
/// not negative, and the negated bits of the absolute value of what is. `None`
/// is what is not a number.
pub type Degrees = Option<i64>;

/// Both are numbers, and `a` is at most `b`.
pub open spec fn degrees_le(a: Degrees, b: Degrees) -> bool {
    match (a, b) {
        (Some(x), Some(y)) => x <= y,
        _ => false,
    }
}

/// Whether both are numbers and `a` is at most `b`.
fn degrees_leq(a: Degrees, b: Degrees) -> (out: bool)
    ensures
        out == degrees_le(a, b),
{
    match (a, b) {
        (Some(x), Some(y)) => x <= y,
        _ => false,
    }
}

/// How many degrees a coordinate in archive units stands for.
pub open spec fn degrees_at<D: Fn(i32) -> Degrees>(degrees: D, units: i32) -> Degrees {
    choose|d: Degrees| call_ensures(degrees, (units,), d)
}

/// `degrees` converts any coordinate, and always in the same way.
pub open spec fn converts<D: Fn(i32) -> Degrees>(degrees: D) -> bool {
    &&& forall|units: i32| #[trigger] call_requires(degrees, (units,))
    &&& forall|units: i32, d: Degrees| #[trigger]
        call_ensures(degrees, (units,), d) ==> d == degrees_at(degrees, units)
}

/// An extent in degrees.
#[derive(Clone, Copy, Debug, PartialEq, Eq, Structural)]
pub struct DegreeBox {
    pub min_lon: Degrees,
    pub min_lat: Degrees,
    pub max_lon: Degrees,
    pub max_lat: Degrees,
}

/// An extent in archive units, in degrees.
pub open spec fn degree_box<D: Fn(i32) -> Degrees>(extent: Extent, degrees: D) -> DegreeBox {
    DegreeBox {
        min_lon: degrees_at(degrees, extent.min_lon),
        min_lat: degrees_at(degrees, extent.min_lat),
        max_lon: degrees_at(degrees, extent.max_lon),
        max_lat: degrees_at(degrees, extent.max_lat),
    }
}

/// A vertex of an imported ring: its degrees, and where it is stored, rounded to
/// archive units.
#[derive(Clone, Copy, Debug, PartialEq, Eq, Structural)]
pub struct ImportedVertex {
    pub lon: Degrees,
    pub lat: Degrees,
    pub units: Point,
}

/// An imported ring, reprojected. The area is measured by the caller, in square
/// metres, and given as the bits of the IEEE double.
pub struct ImportedRing {
    pub is_land: bool,
    pub area_m2: u64,
    pub vertices: Vec<ImportedVertex>,
}

impl ImportedRing {
    /// The vertices in archive units.
    pub open spec fn units(self) -> Seq<Point> {
        self.vertices@.map_values(|v: ImportedVertex| v.units)
    }
}

/// One of the first `n` vertices satisfies `p`.
pub open spec fn some_point(
    points: Seq<ImportedVertex>,
    p: spec_fn(ImportedVertex) -> bool,
    n: int,
) -> bool {
    exists|i: int| 0 <= i < n && p(#[trigger] points[i])
}

/// The extent of the vertices overlaps the box, in degrees as they were before
/// rounding: there are vertices on or within each edge.
pub open spec fn overlaps(points: Seq<ImportedVertex>, bbox: DegreeBox) -> bool {
    let n = points.len() as int;
    &&& some_point(points, |q: ImportedVertex| degrees_le(q.lon, bbox.max_lon), n)
    &&& some_point(points, |q: ImportedVertex| degrees_le(bbox.min_lon, q.lon), n)
    &&& some_point(points, |q: ImportedVertex| degrees_le(q.lat, bbox.max_lat), n)
    &&& some_point(points, |q: ImportedVertex| degrees_le(bbox.min_lat, q.lat), n)
}

proof fn lemma_some_point(
    points: Seq<ImportedVertex>,
    p: spec_fn(ImportedVertex) -> bool,
    n: int,
)
    requires
        0 <= n < points.len(),
    ensures
        some_point(points, p, n + 1) == (some_point(points, p, n) || p(points[n])),
{
    if some_point(points, p, n) {
        let i = choose|i: int| 0 <= i < n && p(#[trigger] points[i]);
        assert(0 <= i < n + 1 && p(points[i]));
    }
    if p(points[n]) {
        assert(0 <= n < n + 1 && p(points[n]));
    }
}

/// Whether the extent of `vertices` overlaps `bbox`, in degrees.
pub fn bbox_overlaps(vertices: &[ImportedVertex], bbox: DegreeBox) -> (out: bool)
    ensures
        out == overlaps(vertices@, bbox),
{
    let mut west: bool = false;
    let mut east: bool = false;
    let mut south: bool = false;
    let mut north: bool = false;
    let ghost (pw, pe, ps, pn) = (
        |q: ImportedVertex| degrees_le(q.lon, bbox.max_lon),
        |q: ImportedVertex| degrees_le(bbox.min_lon, q.lon),
        |q: ImportedVertex| degrees_le(q.lat, bbox.max_lat),
        |q: ImportedVertex| degrees_le(bbox.min_lat, q.lat),
    );
    let mut i: usize = 0;
    while i < vertices.len()
        invariant
            i <= vertices@.len(),
            pw == (|q: ImportedVertex| degrees_le(q.lon, bbox.max_lon)),
            pe == (|q: ImportedVertex| degrees_le(bbox.min_lon, q.lon)),
            ps == (|q: ImportedVertex| degrees_le(q.lat, bbox.max_lat)),
            pn == (|q: ImportedVertex| degrees_le(bbox.min_lat, q.lat)),
            west == some_point(vertices@, pw, i as int),
            east == some_point(vertices@, pe, i as int),
            south == some_point(vertices@, ps, i as int),
            north == some_point(vertices@, pn, i as int),
        decreases vertices@.len() - i,
    {
        let v = vertices[i];
        proof {
            lemma_some_point(vertices@, pw, i as int);
            lemma_some_point(vertices@, pe, i as int);
            lemma_some_point(vertices@, ps, i as int);
            lemma_some_point(vertices@, pn, i as int);
        }
        west = west || degrees_leq(v.lon, bbox.max_lon);
        east = east || degrees_leq(bbox.min_lon, v.lon);
        south = south || degrees_leq(v.lat, bbox.max_lat);
        north = north || degrees_leq(bbox.min_lat, v.lat);
        i = i + 1;
    }
    west && east && south && north
}

/// The ring encloses area and overlaps the archive's extent.
pub open spec fn wanted(bbox: DegreeBox) -> spec_fn(ImportedRing) -> bool {
    |ring: ImportedRing| ring.vertices@.len() >= 3 && overlaps(ring.vertices@, bbox)
}

/// The areas of the rings.
pub open spec fn imported_keys(rings: Seq<ImportedRing>) -> Seq<u64> {
    Seq::new(rings.len(), |i: int| rings[i].area_m2)
}

impl LandPolygons {
    /// The index holds the wanted ones of `rings`, largest first.
    pub open spec fn describes(&self, bbox: DegreeBox, rings: Seq<ImportedRing>) -> bool {
        let kept = rings.filter(wanted(bbox));
        let order = ranking(imported_keys(kept));
        &&& self.shaped()
        &&& self.n_rings() == kept.len()
        &&& forall|k: int|
            0 <= k < kept.len() ==> #[trigger] self.ring_at(k) == kept[order[k] as int].units()
        &&& forall|k: int|
            0 <= k < kept.len() ==> (#[trigger] self.rings@[k]).is_land
                == kept[order[k] as int].is_land
    }
}

/// Build the `LandPolygons` index for an archive with the extent `extent`;
/// `degrees` converts its coordinates.
pub fn build<D: Fn(i32) -> Degrees>(
    extent: Extent,
    rings: Vec<ImportedRing>,
    degrees: &D,
) -> (out: LandPolygons)
    requires
        converts(*degrees),
    ensures
        out.describes(degree_box(extent, *degrees), rings@),
{
    let bbox = DegreeBox {
        min_lon: degrees(extent.min_lon),
        min_lat: degrees(extent.min_lat),
        max_lon: degrees(extent.max_lon),
        max_lat: degrees(extent.max_lat),
    };
    keep_overlapping(bbox, rings)
}

/// Keep the rings that overlap the box, largest first.
fn keep_overlapping(bbox: DegreeBox, rings: Vec<ImportedRing>) -> (out: LandPolygons)
    ensures
        out.describes(bbox, rings@),
{
    let ghost kept = rings@.filter(wanted(bbox));
    // The positions of the wanted rings, and their areas.
    let mut places: Vec<usize> = Vec::new();
    let mut keys: Vec<u64> = Vec::new();
    let mut i: usize = 0;
    proof {
        reveal(Seq::filter);
        assert(rings@.take(0) =~= Seq::<ImportedRing>::empty());
    }
    while i < rings.len()
        invariant
            i <= rings@.len(),
            places@.len() == rings@.take(i as int).filter(wanted(bbox)).len(),
            keys@.len() == places@.len(),
            forall|k: int|
                0 <= k < places@.len() ==> (#[trigger] places@[k]) < i && rings@[places@[k] as int]
                    == rings@.take(i as int).filter(wanted(bbox))[k],
            forall|k: int|
                0 <= k < places@.len() ==> #[trigger] keys@[k] == rings@[places@[k] as int].area_m2,
        decreases rings@.len() - i,
    {
        let ghost before = rings@.take(i as int).filter(wanted(bbox));
        proof {
            reveal(Seq::filter);
            assert(rings@.take(i + 1).drop_last() =~= rings@.take(i as int));
            assert(rings@.take(i + 1).last() == rings@[i as int]);
        }
        if rings[i].vertices.len() >= 3 && bbox_overlaps(rings[i].vertices.as_slice(), bbox) {
            places.push(i);
            keys.push(rings[i].area_m2);
            proof {
                assert(wanted(bbox)(rings@[i as int]));
                assert(rings@.take(i + 1).filter(wanted(bbox)) == before.push(rings@[i as int]));
            }
        } else {
            proof {
                assert(!wanted(bbox)(rings@[i as int]));
                assert(rings@.take(i + 1).filter(wanted(bbox)) == before);
            }
        }
        i = i + 1;
    }
    proof {
        assert(rings@.take(i as int) =~= rings@);
        assert(keys@ =~= imported_keys(kept));
    }
    let order = rank_descending(&keys);
    proof {
        lemma_ranking_unique(keys@, order@, ranking(keys@));
    }
    let mut entries: Vec<LandRingEntry> = Vec::new();
    let mut coords: Vec<Point> = Vec::new();
    let ghost mut first: Seq<u64> = seq![0u64];
    let mut k: usize = 0;
    while k < order.len()
        invariant
            k <= order@.len(),
            is_ranking(keys@, order@),
            keys@.len() == places@.len() == kept.len() == order@.len(),
            forall|j: int|
                0 <= j < places@.len() ==> (#[trigger] places@[j]) < rings@.len()
                    && rings@[places@[j] as int] == kept[j],
            entries@.len() == k,
            cuts(first, k as int, coords@.len() as int),
            forall|j: int|
                0 <= j < k ==> (#[trigger] entries@[j]).is_land == kept[order@[j] as int].is_land
                    && entries@[j].coord_first_idx == first[j],
            forall|j: int|
                0 <= j < k ==> #[trigger] run(coords@, first, j) == kept[order@[j] as int].units(),
        decreases order@.len() - k,
    {
        let ring = &rings[places[order[k]]];
        entries.push(LandRingEntry { is_land: ring.is_land, coord_first_idx: coords.len() as u64 });
        let ghost before = coords@;
        let ghost first0 = first;
        let ghost more = ring.units();
        let mut i: usize = 0;
        while i < ring.vertices.len()
            invariant
                i <= ring.vertices@.len(),
                more == ring.units(),
                coords@ == before + more.take(i as int),
            decreases ring.vertices@.len() - i,
        {
            coords.push(ring.vertices[i].units);
            proof {
                assert(coords@ =~= before + more.take(i + 1));
            }
            i = i + 1;
        }
        proof {
            assert(more.take(i as int) =~= more);
            assert(coords.len() == coords@.len());
            first = first.push(coords@.len() as u64);
            lemma_append_run(before, first0, more, k as int, coords@, first);
        }
        k = k + 1;
    }
    entries.push(LandRingEntry { is_land: false, coord_first_idx: coords.len() as u64 });
    let out = LandPolygons { rings: entries, coords };
    proof {
        assert(coord_first(out.rings@) =~= first);
    }
    out
}

/// An imported ring that overlaps the archive's extent is read back whole, with
/// its own role; one that does not is dropped.
pub proof fn overlapping_rings_are_kept_whole(
    lp: &LandPolygons,
    bbox: DegreeBox,
    rings: Seq<ImportedRing>,
    i: int,
) -> (k: int)
    requires
        lp.describes(bbox, rings),
        rings.len() <= usize::MAX,
        0 <= i < rings.len(),
        wanted(bbox)(rings[i]),
    ensures
        0 <= k < lp.n_rings(),
        lp.ring_at(k) == rings[i].units(),
        lp.rings@[k].is_land == rings[i].is_land,
{
    broadcast use vstd::seq_lib::group_filter_ensures;

    let kept = rings.filter(wanted(bbox));
    let keys = imported_keys(kept);
    let order = ranking(keys);
    assert(rings.contains(rings[i]));
    assert(kept.contains(rings[i]));
    let j = choose|j: int| 0 <= j < kept.len() && kept[j] == rings[i];
    rings.lemma_filter_len(wanted(bbox));
    lemma_ranking_exists(keys);
    assert(order.contains(j as usize));
    let k = choose|k: int| 0 <= k < order.len() && order[k] == j as usize;
    assert(lp.ring_at(k) == kept[order[k] as int].units());
    assert(lp.rings@[k].is_land == kept[order[k] as int].is_land);
    k
}

/// The rings are stored by area, largest first, and only those that overlap the
/// archive's extent.
pub proof fn rings_are_stored_largest_first(
    lp: &LandPolygons,
    bbox: DegreeBox,
    rings: Seq<ImportedRing>,
    k: int,
    m: int,
) -> (ij: (int, int))
    requires
        lp.describes(bbox, rings),
        rings.len() <= usize::MAX,
        0 <= k < m < lp.n_rings(),
    ensures
        0 <= ij.0 < rings.len(),
        0 <= ij.1 < rings.len(),
        wanted(bbox)(rings[ij.0]),
        wanted(bbox)(rings[ij.1]),
        lp.ring_at(k) == rings[ij.0].units(),
        lp.ring_at(m) == rings[ij.1].units(),
        rings[ij.0].area_m2 >= rings[ij.1].area_m2,
{
    let kept = rings.filter(wanted(bbox));
    rings.lemma_filter_len(wanted(bbox));
    let keys = imported_keys(kept);
    let order = ranking(keys);
    lemma_ranking_exists(keys);
    assert(rank_le(keys, order[k], order[m]));
    let (a, b) = (kept[order[k] as int], kept[order[m] as int]);
    lemma_filter_member(rings, wanted(bbox), order[k] as int);
    lemma_filter_member(rings, wanted(bbox), order[m] as int);
    let i = choose|i: int| 0 <= i < rings.len() && rings[i] == a;
    let j = choose|j: int| 0 <= j < rings.len() && rings[j] == b;
    assert(lp.ring_at(k) == a.units());
    assert(lp.ring_at(m) == b.units());
    (i, j)
}

} // verus!
