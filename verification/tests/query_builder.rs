//! Combined tag and spatial queries must equal the intersection of each
//! constraint's independently computed result.

use osmflat_ext::archive::ExtArchive;
use osmflat_ext::geometry::Point;
use osmflat_ext::osm::{Extent, Osm, Span};
use osmflat_ext::query::{self, Bbox, EntityType, Query, QueryError, Shape};
use osmflat_ext::rings::Vertex;
use osmflat_ext::spatial::{nodes_in_polygon, nodes_within_radius};
use osmflat_ext::test_support::{
    build_ext_archive, build_parent_archive, Fixture, MemberSpec, NodeSpec, RelationSpec, TagSpec,
    WaySpec, COORD_SCALE,
};
use osmflat_ext::BuildOptions;
use std::collections::BTreeSet;

fn units(degrees: f64) -> i32 {
    (degrees * COORD_SCALE as f64) as i32
}

fn tag(key: &str, value: &str) -> TagSpec {
    TagSpec::new(key.as_bytes(), value.as_bytes())
}

/// Deterministic LCG in `[0, 1)`, so the fixture is reproducible without a
/// dev-dependency.
struct Lcg(u64);

impl Lcg {
    fn next(&mut self) -> f64 {
        self.0 = self
            .0
            .wrapping_mul(6_364_136_223_846_793_005)
            .wrapping_add(1_442_695_040_888_963_407);
        (self.0 >> 11) as f64 / (1u64 << 53) as f64
    }

    fn below(&mut self, n: usize) -> usize {
        (self.next() * n as f64) as usize
    }
}

const AMENITIES: [&str; 2] = ["cafe", "bar"];
const NAMES: [&str; 3] = ["A", "B", "C"];
const HIGHWAYS: [&str; 2] = ["residential", "primary"];

/// ~400 nodes, 60 ways, 20 relations over a 0.1° square, with overlapping
/// tags so multi-tag intersections are non-trivial.
fn fixture() -> Fixture {
    let mut rng = Lcg(0x5eed_1234_abcd_ef01);
    let mut nodes = Vec::new();
    for _ in 0..400 {
        let mut tags = Vec::new();
        if rng.next() < 0.5 {
            tags.push(tag("amenity", AMENITIES[rng.below(2)]));
        }
        if rng.next() < 0.6 {
            tags.push(tag("name", NAMES[rng.below(3)]));
        }
        if rng.next() < 0.2 {
            tags.push(tag("highway", "crossing"));
        }
        nodes.push(NodeSpec {
            lon: units(-77.05 + rng.next() * 0.1),
            lat: units(38.85 + rng.next() * 0.1),
            tags,
        });
    }

    let mut ways = Vec::new();
    for _ in 0..60 {
        let refs = (0..2 + rng.below(3))
            .map(|_| rng.below(nodes.len()))
            .collect();
        let mut tags = vec![tag("highway", HIGHWAYS[rng.below(2)])];
        if rng.next() < 0.6 {
            tags.push(tag("name", NAMES[rng.below(3)]));
        }
        ways.push(WaySpec { refs, tags });
    }

    let mut relations = Vec::new();
    for _ in 0..20 {
        let (lon, lat) = (-77.05 + rng.next() * 0.09, 38.85 + rng.next() * 0.09);
        let bbox = (rng.next() < 0.85).then_some(Extent {
            min_lon: units(lon),
            min_lat: units(lat),
            max_lon: units(lon + 0.01),
            max_lat: units(lat + 0.01),
        });
        let members = (0..1 + rng.below(3))
            .map(|_| MemberSpec::Way(rng.below(ways.len())))
            .collect();
        let mut tags = vec![tag("type", "route")];
        if rng.next() < 0.6 {
            tags.push(tag("name", NAMES[rng.below(3)]));
        }
        relations.push(RelationSpec {
            bbox,
            members,
            tags,
        });
    }

    Fixture {
        nodes,
        ways,
        relations,
    }
}

fn archive(opts: BuildOptions) -> ExtArchive {
    let parent = build_parent_archive(
        &fixture(),
        osmflat::schema::osm::OSM.as_bytes(),
        &|lon: i32, lat: i32| (lon ^ lat.rotate_left(16)) as u32 as u64,
        &|e: Extent| (e.min_lon ^ e.max_lat.rotate_left(16)) as u32 as u64,
    );
    build_ext_archive(
        parent,
        &opts,
        &|_: Vertex, _: Vertex| 0u64,
        &|_: &Vec<Point>| 0u64,
        &|_: i32| Some(0i64),
        None,
    )
}

fn taginfo_archive() -> ExtArchive {
    archive(BuildOptions {
        taginfo: true,
        ..Default::default()
    })
}

fn spans(parent: &Osm, entity: EntityType) -> Vec<Span> {
    match entity {
        EntityType::Node => parent.nodes.iter().map(|n| n.tags).collect(),
        EntityType::Way => parent.ways.iter().map(|w| w.tags).collect(),
        EntityType::Relation => parent.relations.iter().map(|r| r.tags).collect(),
    }
}

/// Entities of `entity` type with a tag that satisfies `p`, by scanning the
/// parent (no index).
fn by_scan(parent: &Osm, entity: EntityType, p: impl Fn(&[u8], &[u8]) -> bool) -> BTreeSet<u64> {
    spans(parent, entity)
        .into_iter()
        .enumerate()
        .filter(|(_, r)| {
            (r.start..r.end).any(|ti| {
                let tag = &parent.tags[parent.tags_index[ti as usize] as usize];
                p(parent.string(tag.key_idx), parent.string(tag.value_idx))
            })
        })
        .map(|(i, _)| i as u64)
        .collect()
}

/// Entities carrying the exact tag `key=value`.
fn tag_by_scan(parent: &Osm, entity: EntityType, key: &str, value: &str) -> BTreeSet<u64> {
    by_scan(parent, entity, |k, v| k == key.as_bytes() && v == value.as_bytes())
}

#[derive(Clone, Debug)]
enum Spatial {
    Bbox(Bbox),
    Radius(Point, i32),
    Polygon(Vec<Point>),
}

impl Spatial {
    fn applies_to(&self, entity: EntityType) -> bool {
        matches!(self, Spatial::Bbox(_)) || entity == EntityType::Node
    }

    /// This constraint's own result, from the independent per-constraint API.
    fn by_itself(&self, parent: &Osm, entity: EntityType) -> BTreeSet<u64> {
        match (self, entity) {
            (Spatial::Bbox(b), EntityType::Node) => query::node_indices_in_bbox(parent, *b),
            (Spatial::Bbox(b), EntityType::Way) => query::way_indices_in_bbox(parent, *b),
            (Spatial::Bbox(b), EntityType::Relation) => query::relation_indices_in_bbox(parent, *b),
            (Spatial::Radius(center, r), _) => nodes_within_radius(parent, *center, *r)
                .into_iter()
                .map(|i| i as u64)
                .collect(),
            (Spatial::Polygon(p), _) => nodes_in_polygon(parent, p)
                .into_iter()
                .map(|i| i as u64)
                .collect(),
        }
        .into_iter()
        .collect()
    }
}

/// The box in archive units: a node's degrees lie in it exactly where its units
/// do.
fn bbox(min_lon: f64, min_lat: f64, max_lon: f64, max_lat: f64) -> Bbox {
    let scale = COORD_SCALE as f64;
    Bbox {
        min_lon: (min_lon * scale).ceil() as i64,
        min_lat: (min_lat * scale).ceil() as i64,
        max_lon: (max_lon * scale).floor() as i64,
        max_lat: (max_lat * scale).floor() as i64,
    }
}

fn point(lon: f64, lat: f64) -> Point {
    Point {
        lon: units(lon),
        lat: units(lat),
    }
}

fn radius(lon: f64, lat: f64, degrees: f64) -> Spatial {
    Spatial::Radius(
        point(lon, lat),
        (degrees * COORD_SCALE as f64).ceil() as i32,
    )
}

/// Degrees that are not finite have no place in archive units.
fn within_radius<'a>(q: Query<'a>, lon: f64, lat: f64, degrees: f64) -> Query<'a> {
    if !lon.is_finite() || !lat.is_finite() || !degrees.is_finite() {
        return q.with_shape(query::Spatial::NotFinite(Shape::Radius));
    }
    q.within_radius(
        point(lon, lat),
        (degrees * COORD_SCALE as f64).ceil() as i32,
    )
}

fn in_bbox<'a>(q: Query<'a>, corners: [f64; 4]) -> Query<'a> {
    if corners.iter().any(|c| !c.is_finite()) {
        return q.with_shape(query::Spatial::NotFinite(Shape::Bbox));
    }
    q.in_bbox(bbox(corners[0], corners[1], corners[2], corners[3]))
}

#[test]
fn query_equals_intersection_of_each_constraint() {
    let archive = taginfo_archive();
    let parent = archive.parent();

    let tag_sets: &[&[(&str, &str)]] = &[
        &[],
        &[("amenity", "cafe")],
        &[("name", "A")],
        &[("amenity", "cafe"), ("name", "B")],
        &[("amenity", "bar"), ("name", "C"), ("highway", "crossing")],
        &[("highway", "primary"), ("name", "A")],
        &[("type", "route"), ("name", "C")],
        // Present key, absent value; and an absent key.
        &[("amenity", "library")],
        &[("amenity", "cafe"), ("no_such_key", "x")],
    ];
    let triangle = vec![
        point(-77.04, 38.86),
        point(-76.96, 38.87),
        point(-77.0, 38.94),
    ];
    let spatial_sets: Vec<Vec<Spatial>> = vec![
        vec![],
        vec![Spatial::Bbox(bbox(-77.03, 38.87, -76.99, 38.92))],
        vec![
            Spatial::Bbox(bbox(-77.05, 38.85, -76.98, 38.91)),
            Spatial::Bbox(bbox(-77.02, 38.88, -76.95, 38.95)),
        ],
        vec![radius(-77.0, 38.9, 0.025)],
        vec![Spatial::Polygon(triangle.clone())],
        vec![
            Spatial::Bbox(bbox(-77.04, 38.86, -76.97, 38.93)),
            radius(-77.01, 38.9, 0.03),
            Spatial::Polygon(triangle),
        ],
        // A bbox that holds nothing.
        vec![Spatial::Bbox(bbox(10.0, 10.0, 10.1, 10.1))],
    ];

    let mut non_empty = 0;
    for entity in [EntityType::Node, EntityType::Way, EntityType::Relation] {
        for tags in tag_sets {
            for spatial in &spatial_sets {
                let mut q = archive.query();
                for (k, v) in tags.iter() {
                    q = q.with_tag(k.as_bytes(), v.as_bytes());
                }
                for s in spatial {
                    q = match s {
                        Spatial::Bbox(b) => q.in_bbox(*b),
                        Spatial::Radius(center, r) => q.within_radius(*center, *r),
                        Spatial::Polygon(p) => q.in_polygon(p),
                    };
                }
                let got = match entity {
                    EntityType::Node => q.nodes(),
                    EntityType::Way => q.ways(),
                    EntityType::Relation => q.relations(),
                };
                let ctx = format!("{entity:?} tags={tags:?} spatial={spatial:?}");

                if tags.is_empty() && spatial.is_empty() {
                    assert_eq!(got, Err(QueryError::Unconstrained), "{ctx}");
                    continue;
                }
                if let Some(s) = spatial.iter().find(|s| !s.applies_to(entity)) {
                    assert!(
                        matches!(got, Err(QueryError::NodesOnly { entity: e, .. }) if e == entity),
                        "{ctx}: {s:?} should be rejected, got {got:?}"
                    );
                    continue;
                }

                let mut want: Option<BTreeSet<u64>> = None;
                let constraint_sets = tags
                    .iter()
                    .map(|(k, v)| tag_by_scan(parent, entity, k, v))
                    .chain(spatial.iter().map(|s| s.by_itself(parent, entity)));
                for set in constraint_sets {
                    want = Some(match want {
                        None => set,
                        Some(prev) => prev.intersection(&set).copied().collect(),
                    });
                }
                let want: Vec<u64> = want.expect("constrained").into_iter().collect();

                assert_eq!(got.as_ref(), Ok(&want), "{ctx}");
                if !want.is_empty() {
                    non_empty += 1;
                }
            }
        }
    }
    // Guard against a fixture where everything is trivially empty.
    assert!(non_empty >= 40, "only {non_empty} non-empty cases");
}

#[test]
fn query_is_reusable_across_entity_types() {
    let archive = taginfo_archive();
    let q = archive
        .query()
        .with_tag(b"name", b"A")
        .in_bbox(bbox(-77.05, 38.85, -76.95, 38.95));
    let parent = archive.parent();
    for (entity, got) in [
        (EntityType::Node, q.nodes()),
        (EntityType::Way, q.ways()),
        (EntityType::Relation, q.relations()),
    ] {
        let by_tag = tag_by_scan(parent, entity, "name", "A");
        let in_box = Spatial::Bbox(bbox(-77.05, 38.85, -76.95, 38.95)).by_itself(parent, entity);
        let want: Vec<u64> = by_tag.intersection(&in_box).copied().collect();
        assert_eq!(got, Ok(want), "{entity:?}");
    }
}

#[test]
fn spatial_only_query_works_without_taginfo_but_tags_need_it() {
    let archive = archive(BuildOptions {
        backrefs: true,
        ..Default::default()
    });
    let parent = archive.parent();
    let b = bbox(-77.03, 38.87, -76.99, 38.92);

    let want: Vec<u64> = query::node_indices_in_bbox(parent, b);
    assert!(!want.is_empty());
    assert_eq!(archive.query().in_bbox(b).nodes(), Ok(want));

    assert_eq!(
        archive
            .query()
            .with_tag(b"amenity", b"cafe")
            .in_bbox(b)
            .nodes(),
        Err(QueryError::NoTaginfo)
    );
}

#[test]
fn invalid_spatial_constraints_are_errors() {
    let archive = taginfo_archive();
    let invalid = |q: query::Query| {
        assert!(
            matches!(q.nodes(), Err(QueryError::InvalidSpatial(_))),
            "expected InvalidSpatial"
        )
    };

    invalid(within_radius(archive.query(), -77.0, 38.9, -0.1));
    invalid(within_radius(archive.query(), f64::NAN, 38.9, 0.1));
    invalid(
        archive
            .query()
            .in_polygon(&[point(-77.0, 38.9), point(-76.9, 38.9)]),
    );
    invalid(in_bbox(archive.query(), [-76.9, 38.8, -77.0, 38.9]));
    invalid(in_bbox(
        archive.query().with_tag(b"amenity", b"cafe"),
        [f64::INFINITY, 38.8, -77.0, 38.9],
    ));
}

#[test]
fn errors_name_the_shape_and_come_in_order() {
    let archive = taginfo_archive();
    let center = point(-77.0, 38.9);
    assert_eq!(archive.query().relations(), Err(QueryError::Unconstrained));
    assert_eq!(
        archive.query().within_radius(center, 5).ways(),
        Err(QueryError::NodesOnly {
            entity: EntityType::Way,
            shape: Shape::Radius
        })
    );
    let ring = [point(0.0, 0.0), point(1.0, 0.0), point(0.0, 1.0)];
    assert_eq!(
        archive.query().in_polygon(&ring).relations(),
        Err(QueryError::NodesOnly {
            entity: EntityType::Relation,
            shape: Shape::Polygon
        })
    );
    // The first shape that cannot be used is the one that is reported.
    assert_eq!(
        archive
            .query()
            .within_radius(center, -1)
            .in_polygon(&ring[..2])
            .ways(),
        Err(QueryError::InvalidSpatial(Shape::Radius))
    );
}

#[test]
fn keys_select_what_carries_them_and_narrow_other_constraints() {
    let archive = taginfo_archive();
    let parent = archive.parent();
    let b = bbox(-77.03, 38.87, -76.99, 38.92);
    for entity in [EntityType::Node, EntityType::Way, EntityType::Relation] {
        let resolve = |q: Query| match entity {
            EntityType::Node => q.nodes(),
            EntityType::Way => q.ways(),
            EntityType::Relation => q.relations(),
        };
        for key in ["name", "highway", "no_such_key"] {
            let with_key = by_scan(parent, entity, |k, _| k == key.as_bytes());
            assert_eq!(
                resolve(archive.query().with_key(key.as_bytes())),
                Ok(with_key.iter().copied().collect()),
                "{entity:?} {key}"
            );
            let in_box = Spatial::Bbox(b).by_itself(parent, entity);
            let named = tag_by_scan(parent, entity, "name", "A");
            assert_eq!(
                resolve(
                    archive
                        .query()
                        .with_tag(b"name", b"A")
                        .with_key(key.as_bytes())
                        .in_bbox(b)
                ),
                Ok(with_key
                    .iter()
                    .copied()
                    .filter(|x| in_box.contains(x) && named.contains(x))
                    .collect()),
                "{entity:?} {key} in a box"
            );
        }
    }
}
