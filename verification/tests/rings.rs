//! Stitching segments into rings.

use osmflat_ext::multipolygon::{
    assemble_rings, assemble_rings_and_open_chains, AssembledRings, Vertex,
};
use osmflat_ext::test_support::COORD_SCALE;

/// Degrees as archive units.
fn units(degrees: f64) -> i32 {
    (degrees * COORD_SCALE as f64).round() as i32
}

/// Terser vertex constructor; `node_idx` is arbitrary in these tests since only
/// the geometric stitching is under test.
fn v(node_idx: u64, lon: f64, lat: f64) -> Vertex {
    Vertex {
        node_idx,
        lon: units(lon),
        lat: units(lat),
    }
}

/// Approximate great-circle distance in meters, as ordered bits.
fn meters(a: Vertex, b: Vertex) -> u64 {
    const R: f64 = 6_378_137.0;
    let radians = |units: i32| (units as f64 / COORD_SCALE as f64).to_radians();
    let (lon1, lat1) = (radians(a.lon), radians(a.lat));
    let (lon2, lat2) = (radians(b.lon), radians(b.lat));
    let x = (lon2 - lon1) * ((lat1 + lat2) / 2.0).cos();
    let y = lat2 - lat1;
    (R * (x * x + y * y).sqrt()).to_bits()
}

fn assemble(segments: Vec<Vec<Vertex>>) -> AssembledRings {
    assemble_rings_and_open_chains(segments, &meters)
}

#[test]
fn ring_assembler_returns_unclosed_chain() {
    let segments = vec![
        vec![v(1, 1.0, 0.0), v(2, 2.0, 0.0)],
        vec![v(0, 0.0, 0.0), v(1, 1.0, 0.0)],
    ];

    let assembled = assemble(segments);

    assert!(assembled.rings.is_empty());
    assert_eq!(
        assembled.open_chains,
        vec![vec![v(0, 0.0, 0.0), v(1, 1.0, 0.0), v(2, 2.0, 0.0)]]
    );
}

#[test]
fn ring_assembler_keeps_closed_ring_out_of_open_chains() {
    let segments = vec![vec![
        v(0, 0.0, 0.0),
        v(1, 0.0, 1.0),
        v(2, 1.0, 0.0),
        v(0, 0.0, 0.0),
    ]];

    let assembled = assemble(segments);

    assert_eq!(assembled.rings.len(), 1);
    assert!(assembled.open_chains.is_empty());
}

/// When two distinct rings pass near each other, a decoy segment from the other
/// ring can be within the snap tolerance of the open end being stitched. The
/// assembler must splice in the *nearest* matching segment, not merely the first
/// one in list order.
#[test]
fn ring_assembler_picks_nearest_endpoint_not_first_in_list() {
    // Decoy segment belonging to an unrelated ring, placed first in the segment
    // list: within tolerance (~223m), but farther than the true continuation.
    let seg_wrong = vec![v(10, 10.002, 0.0), v(11, 20.0, 0.0)];
    // True continuation: closer to the open end (~111m), but later in the list.
    let seg_correct = vec![v(20, 10.001, 0.0), v(21, 10.0, 1.0), v(0, 0.0, 0.0)];
    let seg_start = vec![v(0, 0.0, 0.0), v(30, 10.0, 0.0)];

    let assembled = assemble(vec![seg_wrong, seg_correct, seg_start]);

    assert_eq!(
        assembled.rings,
        vec![vec![
            v(0, 0.0, 0.0),
            v(30, 10.0, 0.0),
            v(21, 10.0, 1.0),
            v(0, 0.0, 0.0)
        ]],
        "assembler should splice in the nearer segment to produce a closed ring"
    );
    assert_eq!(
        assembled.open_chains.len(),
        1,
        "the decoy segment should be left over as its own open chain"
    );
}

/// Two exclaves of one boundary relation meeting at a single shared node:
/// stitching walks straight through that junction, and the assembler has to
/// split the figure eight back into two rings.
#[test]
fn ring_assembler_splits_ring_that_touches_itself_at_a_node() {
    let figure_eight = vec![
        v(0, 0.0, 0.0),
        v(1, 0.0, 1.0),
        v(2, 1.0, 1.0),
        v(3, 1.0, 0.0),
        v(0, 0.0, 0.0),
        v(4, 0.0, -0.5),
        v(5, -0.5, -0.5),
        v(6, -0.5, 0.0),
        v(0, 0.0, 0.0),
    ];

    let assembled = assemble(vec![figure_eight]);

    assert_eq!(
        assembled.rings.len(),
        2,
        "a ring passing through the same node twice is two rings, not one"
    );
    assert!(assembled.open_chains.is_empty());
    for ring in &assembled.rings {
        assert_eq!(
            ring.first().unwrap().node_idx,
            ring.last().unwrap().node_idx,
            "each split piece must still be explicitly closed"
        );
    }
    let sizes: Vec<usize> = assembled.rings.iter().map(|r| r.len()).collect();
    assert_eq!(sizes, vec![5, 5]);
}

/// A shoreline can pass back near its own starting point long before it is
/// finished; closing there would leave a spurious shortcut edge.
#[test]
fn ring_assembler_prefers_continuing_over_premature_close() {
    let seg_start = vec![v(0, 0.0, 0.0), v(1, 10.0, 0.0)];
    // Wanders back to ~111m from the start, but is not the closing seam.
    let seg_near_start = vec![v(1, 10.0, 0.0), v(2, 0.001, 0.0)];
    // The true continuation: a large loop that closes the ring exactly.
    let seg_far_loop = vec![v(2, 0.001, 0.0), v(3, 5.0, 5.0), v(0, 0.0, 0.0)];

    // The ring being assembled starts from the last segment.
    let assembled = assemble(vec![seg_far_loop, seg_near_start, seg_start]);

    assert_eq!(
        assembled.rings,
        vec![vec![
            v(0, 0.0, 0.0),
            v(1, 10.0, 0.0),
            v(2, 0.001, 0.0),
            v(3, 5.0, 5.0),
            v(0, 0.0, 0.0),
        ]],
        "assembler should keep stitching through the near-start wander"
    );
    assert!(assembled.open_chains.is_empty());
}

/// A gap within the tolerance is bridged only once two ways are stitched.
#[test]
fn a_lone_way_is_not_snapped_shut() {
    let almost = vec![v(0, 0.0, 0.0), v(1, 1.0, 0.0), v(2, 1.0, 1.0), v(3, 0.001, 0.0)];
    let assembled = assemble(vec![almost.clone()]);
    assert!(assembled.rings.is_empty());
    assert_eq!(assembled.open_chains, vec![almost]);
}

#[test]
fn assembling_rings_drops_open_chains() {
    let square = vec![
        v(0, 0.0, 0.0),
        v(1, 1.0, 0.0),
        v(2, 1.0, 1.0),
        v(0, 0.0, 0.0),
    ];
    let open = vec![v(7, 30.0, 30.0), v(8, 31.0, 30.0)];
    assert_eq!(assemble_rings(vec![open, square.clone()], &meters), vec![square]);
    assert!(assemble_rings(vec![], &meters).is_empty());
}
