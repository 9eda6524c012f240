//! Sidecar indexes and query support for osmflat archives.

pub mod answer_laws;
pub mod archive;
pub mod backrefs;
pub mod box_laws;
pub mod build_ext;
pub mod build_backrefs;
pub mod build_coastline;
pub mod build_land_polygons;
pub mod build_multipolygons;
pub mod build_search;
pub mod build_taginfo;
pub mod coast_laws;
pub mod coastline;
pub mod consistency;
pub mod cooccurrences;
pub mod covering;
pub mod dictionary;
pub mod ext;
pub mod fingerprint;
mod fxmap;
pub mod geometry;
pub mod land_polygons;
pub mod lines;
pub mod meet_laws;
pub mod multipolygon;
pub mod near_laws;
pub mod order;
pub mod osm;
pub mod polygon_laws;
pub mod postings;
pub mod query;
pub mod reach;
pub mod reach_laws;
pub mod ring_laws;
pub mod rings;
pub mod scratch;
pub mod search_laws;
pub mod segments;
pub mod select;
pub mod select_laws;
pub mod shape_laws;
pub mod spatial;
pub mod strings;
pub mod taginfo;
pub mod taginfo_index;
pub mod taginfo_laws;
pub mod test_support;
pub mod text_laws;
pub mod way_spatial;
pub mod wide;

pub use crate::archive::ExtArchive;
pub use crate::build_ext::build_into;
pub use crate::ext::{Backrefs, Coastline, Ext, ExtHeader, LandPolygons, Multipolygons, Taginfo};
use std::path::PathBuf;
use vstd::prelude::*;

verus! {

/// A parent entity index: a position in the parent's `nodes`, `ways` or
/// `relations`.
pub type Ref = u64;

/// [`std::path::PathBuf`]: a path, carried as it is.
#[verifier::external_type_specification]
#[verifier::external_body]
pub struct ExPathBuf(std::path::PathBuf);

/// What to build.
#[derive(Debug, Clone)]
pub struct BuildOptions {
    /// Build the inverted tag index.
    pub taginfo: bool,
    /// Build the reverse references.
    pub backrefs: bool,
    /// Build the assembled multipolygon rings.
    pub multipolygons: bool,
    /// Build the assembled coastline rings.
    pub coastline: bool,
    /// Import land polygons from this shapefile.
    pub land_polygons: Option<PathBuf>,
    /// Also build key and tag co-occurrence.
    pub combinations: bool,
    /// Also store `key=*` postings.
    pub key_postings: bool,
    /// Also build the trigram index over value strings.
    pub value_search: bool,
    /// Directory for scratch files. Builds are held in memory and nothing reads it.
    pub mmap_scratch: Option<PathBuf>,
}

impl BuildOptions {
    /// The inverted tag index is wanted: itself, or one of its extras.
    pub open spec fn asks_taginfo(&self) -> bool {
        self.taginfo || self.combinations || self.key_postings || self.value_search
    }

    /// Whether the inverted tag index is wanted.
    pub fn wants_taginfo(&self) -> (out: bool)
        ensures
            out == self.asks_taginfo(),
    {
        self.taginfo || self.combinations || self.key_postings || self.value_search
    }

    /// Whether no index is wanted.
    pub fn wants_nothing(&self) -> (out: bool)
        ensures
            out == (!self.asks_taginfo() && !self.backrefs && !self.multipolygons
                && !self.coastline && self.land_polygons is None),
    {
        !self.wants_taginfo() && !self.backrefs && !self.multipolygons && !self.coastline
            && self.land_polygons.is_none()
    }
}

impl Default for BuildOptions {
    fn default() -> (out: Self)
        ensures
            !out.taginfo,
            !out.backrefs,
            !out.multipolygons,
            !out.coastline,
            out.land_polygons is None,
            !out.combinations,
            !out.key_postings,
            !out.value_search,
            out.mmap_scratch is None,
    {
        BuildOptions {
            taginfo: false,
            backrefs: false,
            multipolygons: false,
            coastline: false,
            land_polygons: None,
            combinations: false,
            key_postings: false,
            value_search: false,
            mmap_scratch: None,
        }
    }
}

} // verus!
