//! Build the requested indexes of an archive.

use crate::build_land_polygons::{converts, degree_box, Degrees, ImportedRing};
use crate::coastline::measures_area;
use crate::ext::Ext;
use crate::fingerprint::{build_header, fits};
use crate::geometry::Point;
use crate::osm::Osm;
use crate::rings::{measures, Vertex};
use crate::strings::{lemma_string_end, string_at};
use crate::{
    build_backrefs, build_coastline, build_land_polygons, build_multipolygons, build_taginfo,
    BuildOptions,
};
use vstd::prelude::*;

verus! {

impl Ext {
    /// This is the extension archive of `parent` with the requested indexes.
    pub open spec fn covers<
        F: Fn(Vertex, Vertex) -> u64,
        A: Fn(&Vec<Point>) -> u64,
        D: Fn(i32) -> Degrees,
    >(
        &self,
        parent: &Osm,
        opts: &BuildOptions,
        dist: F,
        area: A,
        degrees: D,
        imported: Option<Vec<ImportedRing>>,
    ) -> bool {
        &&& fits(parent, self.header)
        &&& self.taginfo is Some <==> opts.asks_taginfo()
        &&& self.taginfo matches Some(ti) ==> ti.covers(parent, opts)
        &&& self.backrefs is Some <==> opts.backrefs
        &&& self.backrefs matches Some(b) ==> b.describes(parent)
        &&& self.multipolygons is Some <==> opts.multipolygons
        &&& self.multipolygons matches Some(mp) ==> mp.describes(parent, dist)
        &&& self.coastline is Some <==> opts.coastline
        &&& self.coastline matches Some(c) ==> c.describes(parent, dist, area)
        &&& self.land_polygons is Some <==> imported is Some
        &&& self.land_polygons matches Some(lp) ==> lp.describes(
            degree_box(parent.header.bbox, degrees),
            imported->0@,
        )
    }
}

/// The program's name and version, "osmflat-extc 0.1.0".
pub open spec fn tool_name() -> Seq<u8> {
    seq![111u8, 115u8, 109u8, 102u8, 108u8, 97u8, 116u8, 45u8, 101u8, 120u8, 116u8, 99u8, 32u8, 48u8, 46u8, 49u8, 46u8, 48u8]
}

/// The program's name and version.
fn tool_bytes() -> (out: Vec<u8>)
    ensures
        out@ == tool_name(),
{
    let out: Vec<u8> = vec![111u8, 115u8, 109u8, 102u8, 108u8, 97u8, 116u8, 45u8, 101u8, 120u8, 116u8, 99u8, 32u8, 48u8, 46u8, 49u8, 46u8, 48u8];
    proof {
        assert(out@ =~= tool_name());
    }
    out
}

/// A string table of its own: the empty string, then the builder's name.
pub open spec fn own_strings(builder: Seq<u8>) -> Seq<u8> {
    seq![0u8] + builder + seq![0u8]
}

/// Build the requested indexes of `parent`. `dist` and `area` measure for ring
/// assembly, `imported` holds the land polygon rings, where they are wanted, and
/// `degrees` converts the parent's extent to their degrees.
pub fn build_into<
    F: Fn(Vertex, Vertex) -> u64,
    A: Fn(&Vec<Point>) -> u64,
    D: Fn(i32) -> Degrees,
>(
    parent: &Osm,
    opts: &BuildOptions,
    dist: &F,
    area: &A,
    degrees: &D,
    imported: Option<Vec<ImportedRing>>,
) -> (out: Ext)
    requires
        parent.wf(),
        measures(*dist),
        measures_area(*area),
        converts(*degrees),
    ensures
        out.covers(parent, opts, *dist, *area, *degrees, imported),
        out.stringtable@ == own_strings(tool_name()),
        out.header.builder_idx == 1,
{
    let builder = tool_bytes();
    let mut stringtable: Vec<u8> = Vec::new();
    stringtable.push(0);
    let mut i: usize = 0;
    while i < builder.len()
        invariant
            i <= builder@.len(),
            stringtable@ == seq![0u8] + builder@.take(i as int),
        decreases builder@.len() - i,
    {
        stringtable.push(builder[i]);
        proof {
            assert(stringtable@ =~= seq![0u8] + builder@.take(i + 1));
        }
        i = i + 1;
    }
    stringtable.push(0);
    proof {
        assert(builder@.take(i as int) =~= builder@);
        assert(stringtable@ =~= own_strings(tool_name()));
    }
    let taginfo = if opts.wants_taginfo() {
        Some(build_taginfo::build(parent, opts))
    } else {
        None
    };
    let backrefs = if opts.backrefs {
        Some(build_backrefs::build(parent))
    } else {
        None
    };
    let multipolygons = if opts.multipolygons {
        Some(build_multipolygons::build(parent, dist))
    } else {
        None
    };
    let coastline = if opts.coastline {
        Some(build_coastline::build(parent, dist, area))
    } else {
        None
    };
    let land_polygons = match imported {
        Some(rings) => Some(build_land_polygons::build(parent.header.bbox, rings, degrees)),
        None => None,
    };
    Ext {
        header: build_header(parent, 1),
        stringtable,
        taginfo,
        backrefs,
        multipolygons,
        coastline,
        land_polygons,
    }
}

/// The extension archive's own string table names its builder.
pub proof fn the_builder_is_named()
    ensures
        string_at(own_strings(tool_name()), 1) == tool_name(),
{
    let (table, n) = (own_strings(tool_name()), tool_name().len() as int);
    assert forall|i: int| 1 <= i < 1 + n implies table[i] != 0 by {
        assert(table[i] == tool_name()[i - 1]);
    }
    lemma_string_end(table, 1, 1 + n);
    assert(table.subrange(1, 1 + n) =~= tool_name());
}

} // verus!
