//! The fingerprint guard: an extension archive built for one parent refuses to
//! open against any other parent build.

use osmflat_ext::archive::ExtArchive;
use osmflat_ext::ext::Ext;
use osmflat_ext::fingerprint::{parent_schema_hash, Mismatch};
use osmflat_ext::geometry::Point;
use osmflat_ext::osm::{Extent, Osm};
use osmflat_ext::rings::Vertex;
use osmflat_ext::test_support::{
    build_ext, build_parent_archive, Fixture, MemberSpec, NodeSpec, RelationSpec, TagSpec, WaySpec,
    COORD_SCALE,
};
use osmflat_ext::BuildOptions;
use std::collections::hash_map::DefaultHasher;
use std::hash::{Hash, Hasher};

fn units(degrees: f64) -> i32 {
    (degrees * COORD_SCALE as f64) as i32
}

fn tag(key: &str, value: &str) -> TagSpec {
    TagSpec::new(key.as_bytes(), value.as_bytes())
}

fn extent(min_lon: f64, min_lat: f64, max_lon: f64, max_lat: f64) -> Extent {
    Extent {
        min_lon: units(min_lon),
        min_lat: units(min_lat),
        max_lon: units(max_lon),
        max_lat: units(max_lat),
    }
}

fn fixture() -> Fixture {
    Fixture {
        nodes: vec![
            NodeSpec {
                lon: units(-77.03),
                lat: units(38.90),
                tags: vec![tag("amenity", "cafe"), tag("name", "Alpha")],
            },
            NodeSpec {
                lon: units(-77.02),
                lat: units(38.91),
                tags: vec![tag("highway", "crossing")],
            },
        ],
        ways: vec![WaySpec {
            refs: vec![0, 1],
            tags: vec![tag("highway", "footway")],
        }],
        relations: vec![RelationSpec {
            bbox: Some(extent(-77.03, 38.90, -77.02, 38.91)),
            members: vec![MemberSpec::Way(0)],
            tags: vec![tag("type", "route")],
        }],
    }
}

fn parent_with(fixture: &Fixture, schema: &[u8]) -> Osm {
    build_parent_archive(
        fixture,
        schema,
        &|lon: i32, _: i32| lon.wrapping_sub(i32::MIN) as u32 as u64,
        &|e: Extent| e.min_lon.wrapping_sub(i32::MIN) as u32 as u64,
    )
}

fn parent(fixture: &Fixture) -> Osm {
    parent_with(fixture, osmflat::schema::osm::OSM.as_bytes())
}

fn ext_for(fixture: &Fixture) -> Ext {
    build_ext(
        &parent(fixture),
        &BuildOptions {
            taginfo: true,
            backrefs: true,
            ..Default::default()
        },
        &|_: Vertex, _: Vertex| 0u64,
        &|_: &Vec<Point>| 0u64,
        &|_: i32| Some(0i64),
        None,
    )
}

/// Open `ext` against a parent rebuilt from `rebuilt`.
fn open_against(ext: Ext, rebuilt: &Fixture) -> Result<ExtArchive, Mismatch> {
    ExtArchive::open(parent(rebuilt), ext)
}

fn count_mismatch(result: Result<ExtArchive, Mismatch>) -> (&'static str, u64, u64) {
    match result {
        Err(Mismatch::Count {
            what,
            expected,
            actual,
        }) => (what, expected, actual),
        Err(other) => panic!("expected a count mismatch, got {other:?}"),
        Ok(_) => panic!("stale sidecar opened against a different parent"),
    }
}

#[test]
fn sidecar_opens_against_an_identical_rebuild() {
    let ext = ext_for(&fixture());
    let archive = open_against(ext, &fixture()).expect("identical rebuild must match");
    assert!(archive.taginfo().is_some());
    assert!(archive.backrefs().is_some());
    assert!(archive.multipolygons().is_none());
    assert!(archive.coastline().is_none());
    assert!(archive.land_polygons().is_none());
}

#[test]
fn sidecar_refuses_parent_with_an_extra_node() {
    let mut rebuilt = fixture();
    rebuilt.nodes.push(NodeSpec {
        lon: units(-77.01),
        lat: units(38.92),
        tags: vec![],
    });
    // `expected` is the live parent, `actual` what the sidecar recorded.
    assert_eq!(
        count_mismatch(open_against(ext_for(&fixture()), &rebuilt)),
        ("nodes", 3, 2)
    );
}

#[test]
fn sidecar_refuses_parent_with_an_extra_way() {
    let mut rebuilt = fixture();
    rebuilt.ways.push(WaySpec {
        refs: vec![1, 0],
        tags: vec![],
    });
    assert_eq!(
        count_mismatch(open_against(ext_for(&fixture()), &rebuilt)),
        ("ways", 2, 1)
    );
}

#[test]
fn sidecar_refuses_parent_with_an_extra_relation() {
    let mut rebuilt = fixture();
    rebuilt.relations.push(RelationSpec {
        bbox: None,
        members: vec![MemberSpec::Node(0)],
        tags: vec![],
    });
    assert_eq!(
        count_mismatch(open_against(ext_for(&fixture()), &rebuilt)),
        ("relations", 2, 1)
    );
}

#[test]
fn sidecar_refuses_parent_with_a_new_distinct_tag() {
    let mut rebuilt = fixture();
    rebuilt.nodes[1].tags.push(tag("crossing", "marked"));
    let (what, expected, actual) = count_mismatch(open_against(ext_for(&fixture()), &rebuilt));
    assert_eq!(what, "tags");
    assert_eq!(expected, actual + 1);
}

#[test]
fn sidecar_refuses_parent_whose_strings_changed_but_counts_did_not() {
    // Same entities and tags, only a longer string: every vector length is
    // unchanged, so the stringtable length is what catches the rebuild.
    let mut rebuilt = fixture();
    rebuilt.nodes[0].tags[1] = tag("name", "Alpha Bravo");
    let (what, expected, actual) = count_mismatch(open_against(ext_for(&fixture()), &rebuilt));
    assert_eq!(what, "stringtable");
    assert_eq!(expected, actual + " Bravo".len() as u64);
}

#[test]
fn the_schema_hash_is_that_of_the_schema_string() {
    let schema = osmflat::schema::osm::OSM;
    let mut hasher = DefaultHasher::new();
    schema.hash(&mut hasher);
    assert_eq!(parent_schema_hash(&parent(&fixture())), hasher.finish());
}

#[test]
fn sidecar_refuses_parent_with_another_schema() {
    let ext = ext_for(&fixture());
    let recorded = ext.header.parent_schema_hash;
    let other = parent_with(&fixture(), b"namespace osm {}");
    let live = parent_schema_hash(&other);
    match ExtArchive::open(other, ext) {
        Err(mismatch) => assert_eq!(
            mismatch,
            Mismatch::SchemaHash {
                expected: live,
                actual: recorded
            }
        ),
        Ok(_) => panic!("opened against another schema"),
    }
}

#[test]
fn sidecar_refuses_parent_with_another_replication_sequence() {
    let mut rebuilt = parent(&fixture());
    rebuilt.header.replication_sequence_number = 17;
    match ExtArchive::open(rebuilt, ext_for(&fixture())) {
        Err(mismatch) => assert_eq!(
            mismatch,
            Mismatch::ReplicationSequence {
                expected: 17,
                actual: 0
            }
        ),
        Ok(_) => panic!("opened against another replication state"),
    }
}

#[test]
fn the_sidecar_names_its_builder() {
    let ext = ext_for(&fixture());
    assert_eq!(ext.header.builder_idx, 1);
    assert_eq!(ext.stringtable[0], 0);
    assert_eq!(&ext.stringtable[1..ext.stringtable.len() - 1], b"osmflat-extc 0.1.0");
    assert_eq!(ext.stringtable.last(), Some(&0));
}
