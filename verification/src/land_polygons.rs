//! Query support for the `LandPolygons` index: land polygons imported from an
//! external, already-closed coastline dataset, not derived from the parent
//! archive at all.

use crate::ext::{run, LandPolygons, LandRingEntry};
use crate::geometry::Point;
use crate::order::cuts;
use vstd::prelude::*;

verus! {

/// Where each ring's coordinates start.
pub open spec fn coord_first(rings: Seq<LandRingEntry>) -> Seq<u64> {
    Seq::new(rings.len(), |i: int| rings[i].coord_first_idx)
}

impl LandPolygons {
    /// How many rings are stored.
    pub open spec fn n_rings(&self) -> int {
        self.rings.len() - 1
    }

    /// The rings and the coordinates fit together.
    pub open spec fn shaped(&self) -> bool {
        self.rings.len() >= 1 && cuts(
            coord_first(self.rings@),
            self.n_rings(),
            self.coords.len() as int,
        )
    }

    /// The coordinates of ring `k`.
    pub open spec fn ring_at(&self, k: int) -> Seq<Point> {
        run(self.coords@, coord_first(self.rings@), k)
    }
}

/// One land (or hole) polygon ring.
pub struct LandPolygonRingView {
    pub is_land: bool,
    pub vertices: Vec<Point>,
}

/// Query interface over a precomputed `LandPolygons` index.
#[derive(Clone, Copy)]
pub struct LandPolygonsQuery<'a> {
    pub land_polygons: &'a LandPolygons,
    /// Archive units per degree of the parent that the index was built for.
    pub coord_scale: i32,
}

impl<'a> LandPolygonsQuery<'a> {
    /// Wrap a `LandPolygons` index. `coord_scale` must be that of the *parent*
    /// archive.
    pub fn new(land_polygons: &'a LandPolygons, coord_scale: i32) -> (out: Self)
        ensures
            out.land_polygons == land_polygons,
            out.coord_scale == coord_scale,
    {
        LandPolygonsQuery { land_polygons, coord_scale }
    }

    /// All rings, in stored order (enclosed area descending), in archive units.
    pub fn rings(&self) -> (out: Vec<LandPolygonRingView>)
        requires
            self.land_polygons.shaped(),
        ensures
            out@.len() == self.land_polygons.n_rings(),
            forall|k: int|
                0 <= k < out@.len() ==> (#[trigger] out@[k]).is_land
                    == self.land_polygons.rings@[k].is_land && out@[k].vertices@
                    == self.land_polygons.ring_at(k),
    {
        let n: usize = self.land_polygons.rings.len() - 1;
        let ghost first = coord_first(self.land_polygons.rings@);
        let mut out: Vec<LandPolygonRingView> = Vec::new();
        let mut k: usize = 0;
        while k < n
            invariant
                self.land_polygons.shaped(),
                first == coord_first(self.land_polygons.rings@),
                n == self.land_polygons.n_rings(),
                k <= n,
                out@.len() == k,
                forall|j: int|
                    0 <= j < out@.len() ==> (#[trigger] out@[j]).is_land
                        == self.land_polygons.rings@[j].is_land && out@[j].vertices@
                        == self.land_polygons.ring_at(j),
            decreases n - k,
        {
            let (entry, next) = (self.land_polygons.rings[k], self.land_polygons.rings[k + 1]);
            proof {
                assert(first[k as int] <= first[k + 1] && first[k + 1] <= first[n as int]);
                assert(first[k + 1] <= self.land_polygons.coords.len());
            }
            let coords = vstd::slice::slice_subrange(
                self.land_polygons.coords.as_slice(),
                entry.coord_first_idx as usize,
                next.coord_first_idx as usize,
            );
            out.push(
                LandPolygonRingView {
                    is_land: entry.is_land,
                    vertices: vstd::slice::slice_to_vec(coords),
                },
            );
            k = k + 1;
        }
        out
    }
}

} // verus!
