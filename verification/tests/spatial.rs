//! Radius, nearest and polygon queries over nodes.

use osmflat_ext::osm::{Extent, Osm};
use osmflat_ext::query::Bbox;
use osmflat_ext::spatial::{
    distance_sq, k_nearest_nodes, nodes_in_polygon, nodes_within_radius, square, PolygonFilter,
    RadiusFilter,
};
use osmflat_ext::test_support::{build_parent_archive, Fixture, NodeSpec, COORD_SCALE};

/// A point in degrees.
#[derive(Clone, Copy)]
struct Point {
    lon: f64,
    lat: f64,
}

fn units(degrees: f64) -> i32 {
    (degrees * COORD_SCALE as f64) as i32
}

fn scaled(p: Point) -> osmflat_ext::spatial::Point {
    osmflat_ext::spatial::Point {
        lon: units(p.lon),
        lat: units(p.lat),
    }
}

fn scaled_radius(degrees: f64) -> i32 {
    (degrees * COORD_SCALE as f64).ceil() as i32
}

fn build_archive(coords: &[(f64, f64)]) -> Osm {
    let fixture = Fixture {
        nodes: coords
            .iter()
            .map(|&(lon, lat)| NodeSpec {
                lon: units(lon),
                lat: units(lat),
                tags: vec![],
            })
            .collect(),
        ways: vec![],
        relations: vec![],
    };
    build_parent_archive(
        &fixture,
        osmflat::schema::osm::OSM.as_bytes(),
        &|lon: i32, _: i32| lon.wrapping_sub(i32::MIN) as u32 as u64,
        &|_: Extent| 0u64,
    )
}

fn archive() -> Osm {
    build_archive(&[
        (-77.050, 38.880),
        (-77.030, 38.900),
        (-77.025, 38.905),
        (-77.015, 38.895),
        (-77.000, 38.920),
        (-77.020, 38.902),
    ])
}

fn degrees_sq(a: Point, b: Point) -> f64 {
    let dx = a.lon - b.lon;
    let dy = a.lat - b.lat;
    dx * dx + dy * dy
}

fn node_point(archive: &Osm, idx: usize) -> Point {
    let node = &archive.nodes[idx];
    let scale = archive.header.coord_scale as f64;
    Point {
        lon: node.lon as f64 / scale,
        lat: node.lat as f64 / scale,
    }
}

/// Squared distances in degrees, nearest first, ties by index. The bits of
/// floats that are not negative are ordered as the floats are.
fn by_distance(archive: &Osm, center: Point) -> Vec<(u64, usize)> {
    let mut all: Vec<(u64, usize)> = (0..archive.nodes.len())
        .map(|idx| (degrees_sq(center, node_point(archive, idx)).to_bits(), idx))
        .collect();
    all.sort();
    all
}

#[test]
fn nodes_within_radius_matches_exact_scan_nearest_first() {
    let archive = archive();
    let center = Point {
        lon: -77.025,
        lat: 38.902,
    };
    let radius = 0.011;
    let radius_sq: f64 = radius * radius;

    let expected: Vec<usize> = by_distance(&archive, center)
        .into_iter()
        .filter(|&(dist, _)| f64::from_bits(dist) <= radius_sq)
        .map(|(_, idx)| idx)
        .collect();

    let got = nodes_within_radius(&archive, scaled(center), scaled_radius(radius));
    assert_eq!(got, expected);
    assert!(nodes_within_radius(&archive, scaled(center), -1).is_empty());
}

#[test]
fn k_nearest_nodes_matches_exact_scan() {
    let archive = archive();
    let center = Point {
        lon: -77.024,
        lat: 38.901,
    };

    let expected = by_distance(&archive, center);

    assert_eq!(
        k_nearest_nodes(&archive, scaled(center), 0),
        Vec::<usize>::new()
    );
    assert_eq!(
        k_nearest_nodes(&archive, scaled(center), 3),
        expected
            .iter()
            .take(3)
            .map(|&(_, idx)| idx)
            .collect::<Vec<_>>()
    );
    assert_eq!(
        k_nearest_nodes(&archive, scaled(center), archive.nodes.len() + 10),
        expected.iter().map(|&(_, idx)| idx).collect::<Vec<_>>()
    );
}

/// Exact k-NN oracle in archive units (same truncating scale and tie-break by
/// index as the library), so float rounding can't disagree about ties.
fn k_nearest_oracle(archive: &Osm, center: Point, k: usize) -> Vec<usize> {
    let (cx, cy) = (units(center.lon) as i128, units(center.lat) as i128);
    let mut all: Vec<(i128, usize)> = archive
        .nodes
        .iter()
        .enumerate()
        .map(|(idx, n)| {
            let (dx, dy) = (n.lon as i128 - cx, n.lat as i128 - cy);
            (dx * dx + dy * dy, idx)
        })
        .collect();
    all.sort_unstable();
    all.into_iter().take(k).map(|(_, idx)| idx).collect()
}

#[test]
fn k_nearest_nodes_matches_oracle_across_densities_ties_and_sparse_centers() {
    // A dense ~1 m grid (many exact distance ties), a scattered ~km cloud, and
    // a few far-flung outliers so some searches must expand to the whole world.
    let mut coords = Vec::new();
    for i in 0..12 {
        for j in 0..12 {
            coords.push((-77.0 + i as f64 * 0.00001, 38.9 + j as f64 * 0.00001));
        }
    }
    let mut seed: u64 = 0x9e37_79b9_7f4a_7c15;
    let mut next = || {
        seed = seed
            .wrapping_mul(6_364_136_223_846_793_005)
            .wrapping_add(1_442_695_040_888_963_407);
        (seed >> 11) as f64 / (1u64 << 53) as f64
    };
    for _ in 0..200 {
        coords.push((-77.05 + next() * 0.1, 38.85 + next() * 0.1));
    }
    coords.extend([
        (151.2, -33.9),
        (-0.12, 51.5),
        (179.9, 89.9),
        (-179.9, -89.9),
    ]);
    let archive = build_archive(&coords);

    let centers = [
        // middle of the grid
        Point {
            lon: -76.99995,
            lat: 38.90005,
        },
        // exactly on a grid node
        Point {
            lon: -77.0,
            lat: 38.9,
        },
        // inside the scattered cloud
        Point {
            lon: -77.02,
            lat: 38.88,
        },
        // far from everything
        Point {
            lon: 10.0,
            lat: -45.0,
        },
        // world corner
        Point {
            lon: 180.0,
            lat: 90.0,
        },
    ];
    for center in centers {
        for k in [1, 2, 5, 17, 150, 300, coords.len(), coords.len() + 5] {
            assert_eq!(
                k_nearest_nodes(&archive, scaled(center), k),
                k_nearest_oracle(&archive, center, k),
                "center=({}, {}) k={k}",
                center.lon,
                center.lat
            );
        }
    }
}

#[test]
fn nodes_in_polygon_matches_rectangle_scan_and_includes_boundary() {
    let archive = archive();
    let polygon = [
        Point {
            lon: -77.030,
            lat: 38.895,
        },
        Point {
            lon: -77.015,
            lat: 38.895,
        },
        Point {
            lon: -77.015,
            lat: 38.905,
        },
        Point {
            lon: -77.030,
            lat: 38.905,
        },
    ];

    let expected: Vec<usize> = (0..archive.nodes.len())
        .filter(|&idx| {
            let point = node_point(&archive, idx);
            point.lon >= polygon[0].lon
                && point.lon <= polygon[1].lon
                && point.lat >= polygon[0].lat
                && point.lat <= polygon[2].lat
        })
        .collect();

    let ring: Vec<osmflat_ext::spatial::Point> = polygon.iter().map(|&p| scaled(p)).collect();
    let got = nodes_in_polygon(&archive, &ring);
    assert_eq!(got, expected);
    assert!(!got.is_empty());
    assert!(nodes_in_polygon(&archive, &ring[..2]).is_empty());
}

#[test]
fn distances_and_squares_are_exact() {
    let p = |lon, lat| osmflat_ext::spatial::Point { lon, lat };
    assert_eq!(square(-5), 25);
    assert_eq!(square(i64::MIN), 1i128 << 126);
    assert_eq!(distance_sq(p(1, 2), p(4, 6)), 25);
    let far = distance_sq(p(i32::MIN, i32::MIN), p(i32::MAX, i32::MAX));
    assert_eq!(far, 2 * (u32::MAX as i128) * (u32::MAX as i128));
}

#[test]
fn filters_know_their_box() {
    let center = osmflat_ext::spatial::Point { lon: 10, lat: 20 };
    let filter = RadiusFilter::new(center, 5).unwrap();
    assert_eq!(
        filter.bbox,
        Bbox {
            min_lon: 5,
            min_lat: 15,
            max_lon: 15,
            max_lat: 25
        }
    );
    assert_eq!(filter.radius_sq, 25);
    assert!(RadiusFilter::new(center, -1).is_none());
    // The square around a circle at the edge of the plane does not wrap.
    let edge = osmflat_ext::spatial::Point {
        lon: i32::MAX,
        lat: 0,
    };
    assert_eq!(
        RadiusFilter::new(edge, i32::MAX).unwrap().bbox.max_lon,
        2 * (i32::MAX as i64)
    );

    let ring = [center, osmflat_ext::spatial::Point { lon: 0, lat: 0 }];
    assert!(PolygonFilter::new(&ring).is_none());
}
