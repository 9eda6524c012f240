//! Coastline: ring classification, the ray cast, and precomputed rings against
//! live assembly.

use osmflat_ext::coastline::{assemble_coastline, classify_points, is_land, twice_signed_area};
use osmflat_ext::geometry::{crossing_contribution, Point};
use osmflat_ext::osm::{Extent, Osm};
use osmflat_ext::rings::Vertex;
use osmflat_ext::test_support::{
    build_ext_archive, build_parent_archive, Fixture, NodeSpec, TagSpec, WaySpec, COORD_SCALE,
};
use osmflat_ext::BuildOptions;

fn units(degrees: f64) -> i32 {
    (degrees * COORD_SCALE as f64) as i32
}

fn points(coords: &[(f64, f64)]) -> Vec<Point> {
    coords
        .iter()
        .map(|&(lon, lat)| Point {
            lon: units(lon),
            lat: units(lat),
        })
        .collect()
}

#[test]
fn ccw_ring_is_classified_as_land() {
    // A simple square traversed counter-clockwise.
    let ring = points(&[(0.0, 0.0), (1.0, 0.0), (1.0, 1.0), (0.0, 1.0), (0.0, 0.0)]);
    assert!(
        twice_signed_area(&ring) > 0,
        "CCW ring must have positive signed area"
    );
}

#[test]
fn cw_ring_is_classified_as_water() {
    // The same square traversed clockwise (reversed).
    let ring = points(&[(0.0, 0.0), (0.0, 1.0), (1.0, 1.0), (1.0, 0.0), (0.0, 0.0)]);
    assert!(
        twice_signed_area(&ring) < 0,
        "CW ring must have negative signed area"
    );
}

#[test]
fn twice_the_area_of_a_square_is_exact() {
    let ring = points(&[(0.0, 0.0), (1.0, 0.0), (1.0, 1.0), (0.0, 1.0), (0.0, 0.0)]);
    assert_eq!(twice_signed_area(&ring), 2 * 10_000_000i128 * 10_000_000);
    assert_eq!(twice_signed_area(&ring[..2]), 0);
}

/// Sum of `crossing_contribution` over a ring's or chain's consecutive edges:
/// the same computation `is_land` does per way, without an archive.
fn winding(segments: &[(f64, f64)], lon: f64, lat: f64) -> i64 {
    let p = Point {
        lon: units(lon),
        lat: units(lat),
    };
    points(segments)
        .windows(2)
        .map(|w| crossing_contribution(w[0], w[1], p))
        .sum()
}

#[test]
fn ray_cast_land_inside_ccw_ring() {
    let ring = vec![(0.0, 0.0), (1.0, 0.0), (1.0, 1.0), (0.0, 1.0), (0.0, 0.0)];
    assert!(winding(&ring, 0.5, 0.5) > 0, "center of a CCW ring is land");
}

#[test]
fn ray_cast_water_outside_ring() {
    let ring = vec![(0.0, 0.0), (1.0, 0.0), (1.0, 1.0), (0.0, 1.0), (0.0, 0.0)];
    assert!(winding(&ring, 1.5, 0.5) <= 0, "east of the ring is water");
    assert!(winding(&ring, -0.5, 0.5) <= 0, "west of the ring is water");
}

#[test]
fn ray_cast_water_inside_cw_ring() {
    // An enclosed sea: same square, opposite (CW) winding.
    let ring = vec![(0.0, 0.0), (0.0, 1.0), (1.0, 1.0), (1.0, 0.0), (0.0, 0.0)];
    assert!(
        winding(&ring, 0.5, 0.5) <= 0,
        "center of a CW ring is water"
    );
}

#[test]
fn ray_cast_lake_inside_island() {
    // A CCW island (0,0)-(10,10) with a CW lake (2,2)-(3,3) carved out.
    let island = [
        (0.0, 0.0),
        (10.0, 0.0),
        (10.0, 10.0),
        (0.0, 10.0),
        (0.0, 0.0),
    ];
    let lake = [(2.0, 2.0), (2.0, 3.0), (3.0, 3.0), (3.0, 2.0), (2.0, 2.0)];
    let total_at = |lon: f64, lat: f64| winding(&island, lon, lat) + winding(&lake, lon, lat);

    assert!(
        total_at(5.0, 5.0) > 0,
        "island interior, outside the lake, is land"
    );
    assert!(
        total_at(2.5, 2.5) <= 0,
        "inside the lake (surrounded by land) is water"
    );
    assert!(
        total_at(15.0, 5.0) <= 0,
        "outside the island entirely is water"
    );
}

#[test]
fn ray_cast_open_chain_land_on_left_water_on_right() {
    // An open chain heading northeast: land on the left, that is, northwest.
    let chain = vec![(0.0, 0.0), (10.0, 10.0)];
    assert!(
        winding(&chain, 2.0, 8.0) > 0,
        "NW of the line (y=x) is land"
    );
    assert!(
        winding(&chain, 8.0, 2.0) <= 0,
        "SE of the line (y=x) is water"
    );
}

#[test]
fn a_reversed_edge_counts_once_the_other_way() {
    let (a, b) = (Point { lon: 10, lat: 0 }, Point { lon: 10, lat: 10 });
    let p = Point { lon: 0, lat: 5 };
    assert_eq!(crossing_contribution(a, b, p), 1);
    assert_eq!(crossing_contribution(b, a, p), -1);
    // The upper end is not counted, the lower one is.
    assert_eq!(crossing_contribution(a, b, Point { lon: 0, lat: 10 }), 0);
    assert_eq!(crossing_contribution(a, b, Point { lon: 0, lat: 0 }), 1);
}

fn tag(key: &str, value: &str) -> TagSpec {
    TagSpec::new(key.as_bytes(), value.as_bytes())
}

fn node(lon: f64, lat: f64) -> NodeSpec {
    NodeSpec {
        lon: units(lon),
        lat: units(lat),
        tags: vec![],
    }
}

fn coastline_way(refs: Vec<usize>) -> WaySpec {
    WaySpec {
        refs,
        tags: vec![tag("natural", "coastline")],
    }
}

/// A big CCW "continent" square (0,0)-(10,10) and a small CW "inland sea" square
/// (2,2)-(3,3), each split across two `natural=coastline` ways that share
/// endpoints.
fn fixture() -> Fixture {
    Fixture {
        nodes: vec![
            // Big ring corners: 0..3 (4th closes back to node 0).
            node(0.0, 0.0),
            node(10.0, 0.0),
            node(10.0, 10.0),
            node(0.0, 10.0),
            // Small ring corners: 4..7 (4th closes back to node 4).
            node(2.0, 2.0),
            node(2.0, 3.0),
            node(3.0, 3.0),
            node(3.0, 2.0),
        ],
        ways: vec![
            // Big ring, CCW, split into two ways sharing nodes 0 and 2.
            coastline_way(vec![0, 1, 2]),
            coastline_way(vec![2, 3, 0]),
            // Small ring, CW, split into two ways sharing nodes 4 and 6.
            coastline_way(vec![4, 5, 6]),
            coastline_way(vec![6, 7, 4]),
        ],
        relations: vec![],
    }
}

fn parent(fixture: &Fixture) -> Osm {
    build_parent_archive(
        fixture,
        osmflat::schema::osm::OSM.as_bytes(),
        &|lon: i32, lat: i32| lon.wrapping_add(lat).wrapping_sub(i32::MIN) as u32 as u64,
        &|e: Extent| e.min_lon.wrapping_sub(i32::MIN) as u32 as u64,
    )
}

fn degrees(units: i32) -> f64 {
    units as f64 / COORD_SCALE as f64
}

fn meters(a: Vertex, b: Vertex) -> u64 {
    const R: f64 = 6_378_137.0;
    let (lon1, lat1) = (degrees(a.lon).to_radians(), degrees(a.lat).to_radians());
    let (lon2, lat2) = (degrees(b.lon).to_radians(), degrees(b.lat).to_radians());
    let x = (lon2 - lon1) * ((lat1 + lat2) / 2.0).cos();
    let y = lat2 - lat1;
    (R * (x * x + y * y).sqrt()).to_bits()
}

/// Enclosed area in square meters, as ordered bits.
fn square_meters(ring: &Vec<Point>) -> u64 {
    const R: f64 = 6_378_137.0;
    if ring.len() < 3 {
        return 0.0f64.to_bits();
    }
    let mean_lat = ring.iter().map(|p| degrees(p.lat)).sum::<f64>() / ring.len() as f64;
    let cos_lat = mean_lat.to_radians().cos();
    let xy = |p: &Point| {
        (
            degrees(p.lon).to_radians() * cos_lat * R,
            degrees(p.lat).to_radians() * R,
        )
    };
    let mut sum = 0.0;
    for i in 0..ring.len() {
        let (x0, y0) = xy(&ring[i]);
        let (x1, y1) = xy(&ring[(i + 1) % ring.len()]);
        sum += x0 * y1 - x1 * y0;
    }
    (sum / 2.0).abs().to_bits()
}

#[test]
fn precomputed_coastline_matches_live_assembly() {
    let parent = parent(&fixture());

    // Live assembly, straight off the parent.
    let live = assemble_coastline(&parent, &meters, &square_meters);
    assert_eq!(live.len(), 2, "two independent closed rings");
    assert!(
        f64::from_bits(live[0].area_m2) > f64::from_bits(live[1].area_m2),
        "sorted by area descending"
    );
    assert!(live[0].is_land, "big CCW ring is land");
    assert!(
        !live[1].is_land,
        "small CW ring is water enclosed by coastline"
    );

    // Precomputed: must match exactly.
    let opts = BuildOptions {
        coastline: true,
        ..Default::default()
    };
    let ext_archive = build_ext_archive(parent, &opts, &meters, &square_meters, &|_: i32| Some(0i64), None);
    let coastline = ext_archive.coastline().expect("built with --coastline");
    let precomputed = coastline.rings(&square_meters);

    assert_eq!(precomputed.len(), live.len());
    for (p, l) in precomputed.iter().zip(live.iter()) {
        assert_eq!(p.is_land, l.is_land);
        assert_eq!(p.area_m2, l.area_m2);
        let p_coords: Vec<(i32, i32)> = p.vertices.iter().map(|v| (v.lon, v.lat)).collect();
        let l_coords: Vec<(i32, i32)> = l.vertices.iter().map(|v| (v.lon, v.lat)).collect();
        assert_eq!(p_coords, l_coords);
    }
}

#[test]
fn points_are_classified_by_the_coastline_around_them() {
    let parent = parent(&fixture());
    let probes = points(&[(5.0, 5.0), (2.5, 2.5), (15.0, 5.0), (-1.0, 5.0)]);
    assert_eq!(
        classify_points(&parent, &probes),
        vec![true, false, false, false]
    );
    assert!(is_land(&parent, probes[0]));
    assert!(!is_land(&parent, probes[1]));
}

#[test]
fn ways_without_the_coastline_tag_make_no_rings() {
    let mut plain = fixture();
    for way in &mut plain.ways {
        way.tags = vec![tag("natural", "cliff")];
    }
    let parent = parent(&plain);
    assert!(assemble_coastline(&parent, &meters, &square_meters).is_empty());
    assert!(!is_land(&parent, Point { lon: units(5.0), lat: units(5.0) }));
}
