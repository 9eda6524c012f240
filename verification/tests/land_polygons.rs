//! Land polygons: a tiny synthetic shapefile (Web Mercator) with an outer land
//! ring, a hole punched in it, and a ring far outside the parent's extent. Land
//! and hole come from the shapefile's own ring role, not from a ring's winding.

use osmflat_ext::build_land_polygons::{
    bbox_overlaps, build, DegreeBox, Degrees, ImportedRing, ImportedVertex,
};
use osmflat_ext::geometry::Point;
use osmflat_ext::osm::{Extent, Osm};
use osmflat_ext::rings::Vertex;
use osmflat_ext::test_support::{
    build_ext_archive, build_parent_archive, Fixture, NodeSpec, COORD_SCALE,
};
use osmflat_ext::BuildOptions;
use shapefile::{Polygon, PolygonRing, Shape};
use std::f64::consts::PI;

const WEB_MERCATOR_R: f64 = 6378137.0;

fn web_mercator_to_wgs84(x: f64, y: f64) -> (f64, f64) {
    let lon = x / WEB_MERCATOR_R * 180.0 / PI;
    let lat = (2.0 * (y / WEB_MERCATOR_R).exp().atan() - PI / 2.0) * 180.0 / PI;
    (lon, lat)
}

fn corner(x: f64, y: f64) -> shapefile::Point {
    shapefile::Point::new(x, y)
}

/// A single dummy node: the fixture only needs to exist.
fn parent() -> Osm {
    let fixture = Fixture {
        nodes: vec![NodeSpec {
            lon: 0,
            lat: 0,
            tags: vec![],
        }],
        ways: vec![],
        relations: vec![],
    };
    build_parent_archive(
        &fixture,
        osmflat::schema::osm::OSM.as_bytes(),
        &|_: i32, _: i32| 0u64,
        &|_: Extent| 0u64,
    )
}

fn units(degrees: f64) -> i32 {
    (degrees * COORD_SCALE as f64).round() as i32
}

fn square_meters(ring: &[(f64, f64)]) -> f64 {
    let mean_lat = ring.iter().map(|&(_, lat)| lat).sum::<f64>() / ring.len() as f64;
    let cos_lat = mean_lat.to_radians().cos();
    let xy = |&(lon, lat): &(f64, f64)| {
        (
            lon.to_radians() * cos_lat * WEB_MERCATOR_R,
            lat.to_radians() * WEB_MERCATOR_R,
        )
    };
    let mut sum = 0.0;
    for i in 0..ring.len() {
        let (x0, y0) = xy(&ring[i]);
        let (x1, y1) = xy(&ring[(i + 1) % ring.len()]);
        sum += x0 * y1 - x1 * y0;
    }
    (sum / 2.0).abs()
}

/// Degrees as a number that is ordered as they are.
fn ordered(degrees: f64) -> Degrees {
    let bits = degrees.to_bits() as i64;
    if degrees.is_nan() {
        return None;
    }
    Some(if bits < 0 { i64::MIN - bits } else { bits })
}

fn degrees_of(units: i32) -> Degrees {
    ordered(units as f64 / COORD_SCALE as f64)
}

fn vertex(lon: f64, lat: f64) -> ImportedVertex {
    ImportedVertex {
        lon: ordered(lon),
        lat: ordered(lat),
        units: Point {
            lon: units(lon),
            lat: units(lat),
        },
    }
}

/// The rings of a shape, reprojected.
fn imported(shapes: Vec<Shape>) -> Vec<ImportedRing> {
    let mut out = Vec::new();
    for shape in shapes {
        if let Shape::Polygon(polygon) = shape {
            for ring in polygon.rings() {
                let degrees: Vec<(f64, f64)> = ring
                    .points()
                    .iter()
                    .map(|p| web_mercator_to_wgs84(p.x, p.y))
                    .collect();
                out.push(ImportedRing {
                    is_land: matches!(ring, PolygonRing::Outer(_)),
                    area_m2: square_meters(&degrees).to_bits(),
                    vertices: degrees.iter().map(|&(lon, lat)| vertex(lon, lat)).collect(),
                });
            }
        }
    }
    out
}

#[test]
fn imports_and_reprojects_overlapping_rings_and_filters_far_away_ones() {
    let dir = tempfile::tempdir().unwrap();
    let shp_path = dir.path().join("test_land_polygons.shp");

    // Outer land ring straddling the Web Mercator origin, given in
    // counter-clockwise point order: the writer will reverse it, so this proves
    // that land or hole is the ring's declared role. Overlaps the parent's
    // (unset, so (0,0,0,0)) extent.
    let land_ring = PolygonRing::Outer(vec![
        corner(-1000.0, -1000.0),
        corner(1000.0, -1000.0),
        corner(1000.0, 1000.0),
        corner(-1000.0, 1000.0),
        corner(-1000.0, -1000.0),
    ]);
    // A hole punched in the land ring: must come out classified as not-land.
    let hole_ring = PolygonRing::Inner(vec![
        corner(-100.0, -100.0),
        corner(100.0, -100.0),
        corner(100.0, 100.0),
        corner(-100.0, 100.0),
        corner(-100.0, -100.0),
    ]);
    // Small square far out in the positive quadrant: filtered out entirely.
    let far_ring = PolygonRing::Outer(vec![
        corner(1_999_000.0, 1_999_000.0),
        corner(2_001_000.0, 1_999_000.0),
        corner(2_001_000.0, 2_001_000.0),
        corner(1_999_000.0, 2_001_000.0),
        corner(1_999_000.0, 1_999_000.0),
    ]);

    {
        let mut writer = shapefile::ShapeWriter::from_path(&shp_path).unwrap();
        writer
            .write_shape(&Polygon::with_rings(vec![land_ring, hole_ring]))
            .unwrap();
        writer.write_shape(&Polygon::new(far_ring)).unwrap();
    }

    let rings = imported(shapefile::read_shapes(&shp_path).unwrap());
    assert_eq!(rings.len(), 3);
    let opts = BuildOptions {
        land_polygons: Some(shp_path),
        ..Default::default()
    };
    let ext_archive = build_ext_archive(
        parent(),
        &opts,
        &|_: Vertex, _: Vertex| 0u64,
        &|_: &Vec<Point>| 0u64,
        &degrees_of,
        Some(rings),
    );
    let land_polygons = ext_archive
        .land_polygons()
        .expect("built with --land-polygons");
    assert_eq!(land_polygons.coord_scale, COORD_SCALE);
    let rings = land_polygons.rings();

    assert_eq!(
        rings.len(),
        2,
        "the far-away ring must be filtered out, land+hole kept"
    );
    // Sorted by area descending: the big land ring first, the small hole second.
    assert!(rings[0].is_land, "outer ring must be classified as land");
    assert!(!rings[1].is_land, "inner ring must be classified as a hole");

    // Compare as a set of corners: the writer may reverse and rotate a ring.
    let mut expected: Vec<(i32, i32)> = [
        (-1000.0, -1000.0),
        (1000.0, -1000.0),
        (1000.0, 1000.0),
        (-1000.0, 1000.0),
    ]
    .iter()
    .map(|&(x, y)| {
        let (lon, lat) = web_mercator_to_wgs84(x, y);
        (units(lon), units(lat))
    })
    .collect();
    expected.sort();

    // Drop the closing duplicate vertex before comparing corners.
    let mut actual: Vec<(i32, i32)> = rings[0].vertices[..rings[0].vertices.len() - 1]
        .iter()
        .map(|p| (p.lon, p.lat))
        .collect();
    actual.sort();

    assert_eq!(actual.len(), expected.len());
    for (&(lon, lat), &(elon, elat)) in actual.iter().zip(expected.iter()) {
        assert!((lon - elon).abs() < 1);
        assert!((lat - elat).abs() < 1);
    }
}

#[test]
fn overlap_includes_a_shared_edge() {
    let bbox = DegreeBox {
        min_lon: ordered(-0.0),
        min_lat: ordered(0.0),
        max_lon: ordered(10.0),
        max_lat: ordered(10.0),
    };
    let ring = |corners: &[(f64, f64)]| -> Vec<ImportedVertex> {
        corners.iter().map(|&(lon, lat)| vertex(lon, lat)).collect()
    };
    assert!(bbox_overlaps(&ring(&[(10.0, 10.0), (20.0, 10.0), (20.0, 20.0)]), bbox));
    assert!(bbox_overlaps(&ring(&[(0.0, 0.0), (-5.0, 0.0), (-5.0, -5.0)]), bbox));
    assert!(!bbox_overlaps(&ring(&[(11.0, 0.0), (20.0, 0.0), (20.0, 10.0)]), bbox));
    // The extent counts, not the vertices: a ring around the box overlaps it.
    let around = ring(&[(-5.0, -5.0), (15.0, -5.0), (15.0, 15.0), (-5.0, 15.0)]);
    assert!(bbox_overlaps(&around, bbox));
    assert!(!bbox_overlaps(&[], bbox));
    // What is not a number is on no side of an edge.
    let lost = ring(&[(f64::NAN, 5.0), (f64::NAN, 6.0), (f64::NAN, 7.0)]);
    assert!(!bbox_overlaps(&lost, bbox));
}

/// Overlap is a matter of degrees: a ring that lies less than half an archive unit
/// outside the extent is dropped, though its corners are rounded onto the edge.
#[test]
fn overlap_is_decided_before_rounding() {
    let edge = Extent {
        min_lon: 0,
        min_lat: 0,
        max_lon: 10,
        max_lat: 10,
    };
    let degrees = |units: f64| units / COORD_SCALE as f64;
    let ring = |west: f64| ImportedRing {
        is_land: true,
        area_m2: 1.0f64.to_bits(),
        vertices: vec![
            vertex(degrees(west), 0.0),
            vertex(degrees(20.0), 0.0),
            vertex(degrees(20.0), degrees(5.0)),
        ],
    };
    assert_eq!(ring(10.4).vertices[0].units.lon, 10);
    assert_eq!(build(edge, vec![ring(10.4)], &degrees_of).rings.len(), 1);
    let kept = build(edge, vec![ring(10.4), ring(10.0), ring(9.6)], &degrees_of);
    assert_eq!(kept.rings.len(), 3, "two rings and the sentinel");
    assert_eq!(kept.coords[0], Point { lon: 10, lat: 0 });
    assert_eq!(kept.coords[3], Point { lon: 10, lat: 0 });
}

#[test]
fn rings_of_fewer_than_three_vertices_are_dropped() {
    let short = ImportedRing {
        is_land: true,
        area_m2: 0,
        vertices: vec![vertex(0.0, 0.0), vertex(1.0, 1.0)],
    };
    let ext_archive = build_ext_archive(
        parent(),
        &BuildOptions::default(),
        &|_: Vertex, _: Vertex| 0u64,
        &|_: &Vec<Point>| 0u64,
        &degrees_of,
        Some(vec![short]),
    );
    assert!(ext_archive.land_polygons().unwrap().rings().is_empty());
}
