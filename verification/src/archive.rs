//! A parent archive paired with its verified extension archive.

use crate::backrefs::BackrefsQuery;
use crate::coastline::CoastlineQuery;
use crate::ext::Ext;
use crate::fingerprint::{answers, fits, verify, Mismatch};
use crate::land_polygons::LandPolygonsQuery;
use crate::multipolygon::MultipolygonsQuery;
use crate::osm::Osm;
use crate::taginfo::TaginfoQuery;
use vstd::prelude::*;

verus! {

/// A parent archive paired with its verified extension archive.
///
/// Construct with [`ExtArchive::open`], which checks the fingerprint before
/// returning, so every query method can assume that the two match.
pub struct ExtArchive {
    parent: Osm,
    ext: Ext,
}

impl ExtArchive {
    /// The parent archive.
    pub closed spec fn osm(&self) -> Osm {
        self.parent
    }

    /// The extension archive.
    pub closed spec fn extension(&self) -> Ext {
        self.ext
    }

    /// The two belong together.
    #[verifier::type_invariant]
    pub closed spec fn matched(&self) -> bool {
        fits(&self.parent, self.ext.header)
    }

    /// Pair a parent archive with its extension archive, verifying the
    /// fingerprint. Returns a [`Mismatch`] if the extension archive was built
    /// against a different parent.
    pub fn open(parent: Osm, ext: Ext) -> (out: Result<Self, Mismatch>)
        ensures
            out is Ok <==> fits(&parent, ext.header),
            match out {
                Ok(archive) => archive.osm() == parent && archive.extension() == ext,
                Err(mismatch) => answers(&parent, ext.header, Err(mismatch)),
            },
    {
        match verify(&parent, &ext) {
            Ok(_) => Ok(ExtArchive { parent, ext }),
            Err(mismatch) => Err(mismatch),
        }
    }

    /// The two archives of an open pair belong together.
    pub fn parts(&self) -> (out: (&Osm, &Ext))
        ensures
            *out.0 == self.osm(),
            *out.1 == self.extension(),
            fits(out.0, out.1.header),
    {
        proof {
            use_type_invariant(self);
        }
        (&self.parent, &self.ext)
    }

    /// The underlying parent archive.
    pub fn parent(&self) -> (out: &Osm)
        ensures
            *out == self.osm(),
    {
        &self.parent
    }

    /// The underlying extension archive.
    pub fn ext(&self) -> (out: &Ext)
        ensures
            *out == self.extension(),
    {
        &self.ext
    }

    /// Taginfo and inverted-tag-index queries. `None` if the extension archive
    /// was built without that index.
    pub fn taginfo(&self) -> (out: Option<TaginfoQuery<'_>>)
        ensures
            out is Some <==> self.extension().taginfo is Some,
            out matches Some(q) ==> *q.parent == self.osm() && Some(*q.taginfo)
                == self.extension().taginfo,
    {
        match &self.ext.taginfo {
            Some(taginfo) => Some(TaginfoQuery::new(&self.parent, taginfo)),
            None => None,
        }
    }

    /// Reverse-reference queries. `None` if built without that index.
    pub fn backrefs(&self) -> (out: Option<BackrefsQuery<'_>>)
        ensures
            out is Some <==> self.extension().backrefs is Some,
            out matches Some(q) ==> *q.parent == self.osm() && Some(*q.backrefs)
                == self.extension().backrefs,
    {
        match &self.ext.backrefs {
            Some(backrefs) => Some(BackrefsQuery::new(&self.parent, backrefs)),
            None => None,
        }
    }

    /// Precomputed relation rings. `None` if built without that index.
    pub fn multipolygons(&self) -> (out: Option<MultipolygonsQuery<'_>>)
        ensures
            out is Some <==> self.extension().multipolygons is Some,
            out matches Some(q) ==> *q.parent == self.osm() && Some(*q.multipolygons)
                == self.extension().multipolygons,
    {
        match &self.ext.multipolygons {
            Some(multipolygons) => Some(MultipolygonsQuery::new(&self.parent, multipolygons)),
            None => None,
        }
    }

    /// Precomputed coastline rings. `None` if built without that index.
    pub fn coastline(&self) -> (out: Option<CoastlineQuery<'_>>)
        ensures
            out is Some <==> self.extension().coastline is Some,
            out matches Some(q) ==> *q.parent == self.osm() && Some(*q.coastline)
                == self.extension().coastline,
    {
        match &self.ext.coastline {
            Some(coastline) => Some(CoastlineQuery::new(&self.parent, coastline)),
            None => None,
        }
    }

    /// Imported land polygons. `None` if built without that index.
    pub fn land_polygons(&self) -> (out: Option<LandPolygonsQuery<'_>>)
        ensures
            out is Some <==> self.extension().land_polygons is Some,
            out matches Some(q) ==> q.coord_scale == self.osm().header.coord_scale && Some(
                *q.land_polygons,
            ) == self.extension().land_polygons,
    {
        match &self.ext.land_polygons {
            Some(land_polygons) => Some(
                LandPolygonsQuery::new(land_polygons, self.parent.header.coord_scale),
            ),
            None => None,
        }
    }
}

} // verus!
