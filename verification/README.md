# osmflat-ext

Sidecar indexes and query support for osmflat archives: an inverted tag index
(taginfo), reverse references, precomputed multipolygon and coastline rings,
imported land polygons, and combined tag and spatial queries. The library is
written in Verus: the functions under `src/` carry contracts, and Verus proves
them, all but those of the few wrappers around outside crates, which are believed.

## Layout

- `src/osm.rs`, `src/consistency.rs`: the parent archive as plain values, and
  whether one that was read from outside is consistent.
- `src/ext.rs`, `src/archive.rs`, `src/fingerprint.rs`, `src/build_ext.rs`: the
  extension archive, its fingerprint, and how a build fills it.
- `src/dictionary.rs`, `src/postings.rs`, `src/cooccurrences.rs`,
  `src/build_taginfo.rs`, `src/build_search.rs`, `src/taginfo_index.rs`: building
  the tag index. `src/taginfo.rs` queries it; `src/taginfo_laws.rs` says what it
  promises of its parent.
- `src/scratch.rs`, `src/build_backrefs.rs`, `src/backrefs.rs`: reverse references.
- `src/rings.rs`, `src/multipolygon.rs`, `src/coastline.rs`,
  `src/land_polygons.rs` and their `build_` modules: ring assembly and rendering
  geometry.
- `src/query.rs`, `src/select.rs`: merge-joins and combined queries.
- `src/geometry.rs`, `src/segments.rs`, `src/wide.rs`, `src/spatial.rs`,
  `src/lines.rs`, `src/reach.rs`, `src/way_spatial.rs`, `src/covering.rs`: exact
  plane geometry, and radius, nearest and polygon queries.
- `src/fxmap.rs` and `substring_raw` in `src/strings.rs`: the calls into outside
  crates, with the contracts that are believed of them.
- `src/test_support.rs`: small synthetic archives for tests.
- `app/`: the `osmflat-extc` program: arguments, reading the parent and a
  shapefile, distances and areas on the globe, writing the result.

## Coordinates

The library computes with archive units (degrees times the archive's
`coord_scale`), so containment, distance and orientation are exact. Distances and
areas in meters are measured by the caller and handed in as the bits of floats
that are not negative, which are ordered as the floats are.
Whether an imported land ring overlaps the archive is decided on its degrees, before
they are rounded to archive units; the degrees come in as integers in their order.
