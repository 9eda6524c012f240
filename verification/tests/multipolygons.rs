//! A synthetic multipolygon relation whose outer ring is split across two ways:
//! precomputed polygons against live assembly.

use osmflat_ext::geometry::Point;
use osmflat_ext::multipolygon::{assemble_multipolygon, is_area_relation, Vertex};
use osmflat_ext::osm::{Extent, Osm};
use osmflat_ext::test_support::{
    build_ext_archive, build_parent_archive, Fixture, MemberSpec, NodeSpec, RelationSpec, TagSpec,
    WaySpec, COORD_SCALE,
};
use osmflat_ext::BuildOptions;

fn units(degrees: f64) -> i32 {
    (degrees * COORD_SCALE as f64) as i32
}

fn tag(key: &str, value: &str) -> TagSpec {
    TagSpec::new(key.as_bytes(), value.as_bytes())
}

fn node(lon: f64, lat: f64) -> NodeSpec {
    NodeSpec {
        lon: units(lon),
        lat: units(lat),
        tags: vec![],
    }
}

/// A unit-square multipolygon relation, its outer ring split across two ways
/// that share endpoints (0,0) and (1,1).
fn square_fixture() -> Fixture {
    Fixture {
        nodes: vec![node(0.0, 0.0), node(0.0, 1.0), node(1.0, 1.0), node(1.0, 0.0)],
        ways: vec![
            WaySpec {
                refs: vec![0, 1, 2],
                tags: vec![],
            },
            WaySpec {
                refs: vec![2, 3, 0],
                tags: vec![],
            },
        ],
        relations: vec![RelationSpec {
            bbox: Some(Extent {
                min_lon: 0,
                min_lat: 0,
                max_lon: units(1.0),
                max_lat: units(1.0),
            }),
            members: vec![MemberSpec::Way(0), MemberSpec::Way(1)],
            tags: vec![tag("type", "multipolygon"), tag("natural", "water")],
        }],
    }
}

fn parent(fixture: &Fixture) -> Osm {
    build_parent_archive(
        fixture,
        osmflat::schema::osm::OSM.as_bytes(),
        &|lon: i32, lat: i32| lon.wrapping_add(lat).wrapping_sub(i32::MIN) as u32 as u64,
        &|e: Extent| e.min_lon.wrapping_sub(i32::MIN) as u32 as u64,
    )
}

fn meters(a: Vertex, b: Vertex) -> u64 {
    const R: f64 = 6_378_137.0;
    let radians = |units: i32| (units as f64 / COORD_SCALE as f64).to_radians();
    let (lon1, lat1) = (radians(a.lon), radians(a.lat));
    let (lon2, lat2) = (radians(b.lon), radians(b.lat));
    let x = (lon2 - lon1) * ((lat1 + lat2) / 2.0).cos();
    let y = lat2 - lat1;
    (R * (x * x + y * y).sqrt()).to_bits()
}

fn relation_with(parent: &Osm, key: &[u8], value: &[u8]) -> usize {
    (0..parent.relations.len())
        .find(|&i| parent.find_tag(parent.relations[i].tags, key) == Some(value))
        .expect("fixture relation must survive spatial reordering")
}

#[test]
fn precomputed_polygons_match_live_assembly() {
    let parent = parent(&square_fixture());
    let rel_idx = relation_with(&parent, b"natural", b"water");

    // Live assembly, straight off the parent.
    let (live_polygons, live_open_chains) = assemble_multipolygon(&parent, rel_idx, &meters);
    assert_eq!(live_polygons.len(), 1, "one exterior ring, no holes");
    assert!(live_open_chains.is_empty(), "the ring should fully close");
    let live_coords: Vec<Vec<Point>> = live_polygons[0]
        .iter()
        .map(|ring| ring.iter().map(|v| v.xy()).collect())
        .collect();

    // Precomputed: must match exactly.
    let opts = BuildOptions {
        multipolygons: true,
        ..Default::default()
    };
    let ext_archive = build_ext_archive(parent, &opts, &meters, &|_: &Vec<Point>| 0u64, &|_: i32| Some(0i64), None);
    let precomputed = ext_archive
        .multipolygons()
        .expect("built with --multipolygons")
        .polygons(rel_idx);

    assert_eq!(
        precomputed,
        vec![live_coords],
        "precomputed polygons must match live assembly exactly"
    );
}

#[test]
fn non_area_relation_has_no_precomputed_polygons() {
    let mut fixture = square_fixture();
    // Same shape, but not an area relation (no type=multipolygon/boundary).
    fixture.relations[0].tags = vec![tag("type", "route"), tag("route", "bicycle")];

    let parent = parent(&fixture);
    let rel_idx = relation_with(&parent, b"route", b"bicycle");

    let opts = BuildOptions {
        multipolygons: true,
        ..Default::default()
    };
    let ext_archive = build_ext_archive(parent, &opts, &meters, &|_: &Vec<Point>| 0u64, &|_: i32| Some(0i64), None);
    let precomputed = ext_archive.multipolygons().unwrap().polygons(rel_idx);

    assert!(precomputed.is_empty());
}

#[test]
fn area_relations_are_multipolygons_and_boundaries() {
    for (value, area) in [("multipolygon", true), ("boundary", true), ("route", false)] {
        let mut fixture = square_fixture();
        fixture.relations[0].tags = vec![tag("type", value)];
        let parent = parent(&fixture);
        assert_eq!(is_area_relation(&parent, &parent.relations[0]), area, "{value}");
    }
    let mut fixture = square_fixture();
    fixture.relations[0].tags = vec![tag("boundary", "multipolygon")];
    let parent = parent(&fixture);
    assert!(!is_area_relation(&parent, &parent.relations[0]));
}

/// An inner ring is placed into the outer ring that holds it. The roles of a
/// fixture are empty, so the members are given theirs afterwards.
#[test]
fn inner_rings_become_holes() {
    let mut fixture = square_fixture();
    fixture.nodes.push(node(0.25, 0.25));
    fixture.nodes.push(node(0.75, 0.25));
    fixture.nodes.push(node(0.5, 0.75));
    fixture.ways.push(WaySpec {
        refs: vec![4, 5, 6, 4],
        tags: vec![],
    });
    fixture.relations[0].members.push(MemberSpec::Way(2));
    let mut parent = parent(&fixture);
    let inner_role = parent.stringtable.len() as u64;
    parent.stringtable.extend_from_slice(b"inner\0");
    parent.relation_members[0][2].role_idx = inner_role;
    assert!(parent.is_consistent());

    let (polygons, open) = assemble_multipolygon(&parent, 0, &meters);
    assert!(open.is_empty());
    assert_eq!(polygons.len(), 1);
    assert_eq!(polygons[0].len(), 2, "one hole");
    assert_eq!(polygons[0][1].len(), 4);
}

#[test]
fn a_relation_with_a_gap_leaves_an_open_chain() {
    let mut fixture = square_fixture();
    fixture.relations[0].members.pop();
    let parent = parent(&fixture);
    let (polygons, open) = assemble_multipolygon(&parent, 0, &meters);
    assert!(polygons.is_empty());
    assert_eq!(open.len(), 1);
    assert_eq!(open[0].len(), 3);
}
