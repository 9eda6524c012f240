//! What the library promises as a whole, on concrete values.

use osmflat_ext::build_backrefs;
use osmflat_ext::coastline::assemble_coastline_raw;
use osmflat_ext::fingerprint::{build_header, verify};
use osmflat_ext::geometry::{
    cross_product, crosses_ray, point_in_polygon, point_in_ring, point_on_segment, Point,
};
use osmflat_ext::order::{lower_bound, rank_descending, sort_ascending, sorted_indices};
use osmflat_ext::osm::{Extent, Node, Osm, Span};
use osmflat_ext::query::{
    intersect, intersect_bbox, node_indices_in_bbox, relation_indices_in_bbox, to_index_ranges,
    way_indices_in_bbox, Bbox, Selection,
};
use osmflat_ext::reach::{reachable, relation_distance};
use osmflat_ext::rings::{split_self_touching, Vertex};
use osmflat_ext::scratch::{decode_records, encode_records, sort_pairs, PairBuckets};
use osmflat_ext::segments::{segment_distance, segments_touch};
use osmflat_ext::spatial::{nodes_in_polygon, nodes_within_radius, relations_within_radius};
use osmflat_ext::taginfo::{contains_ignore_ascii_case, value_trigrams};
use osmflat_ext::test_support::{
    build_ext, build_ext_archive, build_parent_archive, inverse_order, node_order, relation_order,
    way_bbox, way_order, Fixture, MemberSpec, NodeSpec, RelationSpec, TagSpec, WaySpec,
};
use osmflat_ext::wide::{Ratio, Wide};
use osmflat_ext::{BuildOptions, ExtArchive};
use std::ops::Range;

fn at(lon: i32, lat: i32) -> Point {
    Point { lon, lat }
}

fn node(lon: i32, lat: i32) -> NodeSpec {
    NodeSpec {
        lon,
        lat,
        tags: vec![],
    }
}

fn tag(key: &str, value: &str) -> TagSpec {
    TagSpec::new(key.as_bytes(), value.as_bytes())
}

fn parent(fixture: &Fixture) -> Osm {
    build_parent_archive(
        fixture,
        b"schema",
        &|lon: i32, _: i32| lon.wrapping_sub(i32::MIN) as u32 as u64,
        &|e: Extent| e.min_lon.wrapping_sub(i32::MIN) as u32 as u64,
    )
}

fn archive(fixture: &Fixture, opts: BuildOptions) -> ExtArchive {
    build_ext_archive(
        parent(fixture),
        &opts,
        &|_: Vertex, _: Vertex| 0u64,
        &|_: &Vec<Point>| 0u64,
        &|_: i32| Some(0i64),
        None,
    )
}

/// Three nodes in a row, a way over the outer two, and a chain of relations.
fn fixture() -> Fixture {
    let mut nodes = vec![node(0, 0), node(10, 0), node(20, 0)];
    nodes[0].tags = vec![tag("a", "1"), tag("b", "x")];
    nodes[1].tags = vec![tag("a", "1"), tag("b", "y"), tag("c", "z")];
    nodes[2].tags = vec![tag("a", "2")];
    Fixture {
        nodes,
        ways: vec![WaySpec {
            refs: vec![0, 2],
            tags: vec![tag("a", "2")],
        }],
        relations: vec![
            RelationSpec {
                bbox: Some(Extent {
                    min_lon: 0,
                    min_lat: 0,
                    max_lon: 20,
                    max_lat: 0,
                }),
                members: vec![MemberSpec::Way(0), MemberSpec::Relation(1)],
                tags: vec![tag("a", "3")],
            },
            RelationSpec {
                bbox: None,
                members: vec![MemberSpec::Relation(0), MemberSpec::Node(1)],
                tags: vec![],
            },
        ],
    }
}

#[test]
fn intersecting_either_way_gives_the_same() {
    let (a, b) = (vec![1, 2, 2, 5, 9], vec![2, 2, 2, 5, 6]);
    assert_eq!(intersect(&a, &b), vec![2, 2, 5]);
    assert_eq!(intersect(&b, &a), vec![2, 2, 5]);
    assert_eq!(intersect(&a, &[]), Vec::<u64>::new());
}

#[test]
fn clipping_to_the_runs_of_a_set_keeps_what_is_in_it() {
    let ranges = to_index_ranges(&[1, 2, 3, 7, 9]);
    assert_eq!(ranges, vec![1..4, 7..8, 9..10]);
    assert!(to_index_ranges(&[]).is_empty());
    assert_eq!(intersect_bbox(&[0, 2, 3, 3, 4, 7, 8, 12], &ranges), vec![2, 3, 3, 7]);
    let none: Vec<Range<u64>> = vec![];
    assert!(intersect_bbox(&[0, 2], &none).is_empty());
}

#[test]
fn a_selection_needs_a_term_and_every_term() {
    let (a, b) = (vec![1u64, 2, 3, 4], vec![2u64, 4, 6]);
    assert!(Selection::new().resolve().is_empty());
    assert!(Selection::new().in_bbox(vec![0..10]).resolve().is_empty());
    assert_eq!(Selection::new().and(&a).resolve(), a);
    assert_eq!(Selection::new().and(&a).and(&b).resolve(), vec![2, 4]);
    assert_eq!(
        Selection::new().and(&b).and(&a).in_bbox(vec![3..5]).resolve(),
        vec![4]
    );
}

#[test]
fn runs_are_sorted_searched_and_ranked() {
    assert_eq!(sorted_indices(vec![5, 1, 5, 3]), vec![1, 3, 5]);
    assert_eq!(sort_ascending(vec![5, 1, 5, 3]), vec![1, 3, 5, 5]);
    assert_eq!(lower_bound(&[1, 3, 5], 3), 1);
    assert_eq!(lower_bound(&[1, 3, 5], 4), 2);
    assert_eq!(lower_bound(&[1, 3, 5], 9), 3);
    assert_eq!(rank_descending(&vec![7, 9, 7, 1]), vec![1, 0, 2, 3]);
}

#[test]
fn records_are_read_back_as_written() {
    let records = vec![(1, u64::MAX), (0, 0), (0x0102_0304_0506_0708, 42)];
    let mut bytes = Vec::new();
    encode_records(&records[..1], &mut bytes);
    encode_records(&records[1..], &mut bytes);
    assert_eq!(bytes.len(), 48);
    assert_eq!(&bytes[..8], &[1, 0, 0, 0, 0, 0, 0, 0]);
    assert_eq!(&bytes[32..40], &[8, 7, 6, 5, 4, 3, 2, 1]);
    assert_eq!(decode_records(&bytes), Some(records));
    assert_eq!(decode_records(&bytes[..47]), None);
    assert_eq!(decode_records(&[]), Some(vec![]));
}

#[test]
fn buckets_give_every_pair_in_order() {
    let pairs = [(9, 1), (0, 7), (4, 2), (9, 0), (0, 7)];
    for n_buckets in [1, 3, 10] {
        let mut buckets = PairBuckets::with_buckets(10, n_buckets);
        for &(child, parent) in &pairs {
            buckets.push(child, parent);
        }
        assert_eq!(
            buckets.into_sorted(),
            vec![(0, 7), (0, 7), (4, 2), (9, 0), (9, 1)]
        );
    }
    assert!(PairBuckets::new(0, 0).into_sorted().is_empty());
    assert_eq!(sort_pairs(vec![(2, 1), (1, 9), (2, 0)]), vec![(1, 9), (2, 0), (2, 1)]);
}

#[test]
fn what_contains_a_string_has_its_trigrams() {
    let grams = |s: &str| {
        let mut out = vec![99];
        value_trigrams(s.as_bytes(), &mut out);
        out
    };
    // Folded to lower case, ascending, each once.
    assert_eq!(grams("aAaA"), vec![0x61_6161]);
    assert_eq!(grams("ABC"), grams("abc"));
    assert_eq!(grams("abc"), vec![0x61_6263]);
    assert!(grams("ab").is_empty());
    let (whole, part) = (grams("Lake Harriet"), grams("ke HA"));
    assert!(contains_ignore_ascii_case(b"Lake Harriet", b"ke HA"));
    assert!(part.iter().all(|g| whole.contains(g)));
    assert!(contains_ignore_ascii_case(b"", b""));
    assert!(!contains_ignore_ascii_case(b"ab", b"abc"));
}

#[test]
fn a_header_fits_the_parent_it_was_built_for() {
    let parent = parent(&fixture());
    let mut ext = build_ext(
        &parent,
        &BuildOptions::default(),
        &|_: Vertex, _: Vertex| 0u64,
        &|_: &Vec<Point>| 0u64,
        &|_: i32| Some(0i64),
        None,
    );
    assert!(verify(&parent, &ext).is_ok());
    assert_eq!(ext.header, build_header(&parent, 1));
    assert_eq!(ext.header.parent_node_count, 3);
    assert_eq!(ext.header.parent_tags_count, 6);
    ext.header.parent_node_count = 4;
    assert!(verify(&parent, &ext).is_err());
}

#[test]
fn only_the_requested_indexes_are_built() {
    let none = archive(&fixture(), BuildOptions::default());
    assert!(none.taginfo().is_none() && none.backrefs().is_none());
    assert!(BuildOptions::default().wants_nothing());
    for extra in 0..3 {
        let opts = BuildOptions {
            combinations: extra == 0,
            key_postings: extra == 1,
            value_search: extra == 2,
            ..Default::default()
        };
        assert!(!opts.wants_nothing());
        let built = archive(&fixture(), opts);
        let taginfo = built.taginfo().expect("implied by its extra");
        assert_eq!(taginfo.has_key_postings(), extra == 1);
        assert_eq!(taginfo.has_value_search(), extra == 2);
    }
}

#[test]
fn keys_and_values_are_found_by_string() {
    let built = archive(
        &fixture(),
        BuildOptions {
            taginfo: true,
            ..Default::default()
        },
    );
    let taginfo = built.taginfo().unwrap();
    let names: Vec<&[u8]> = taginfo.keys().iter().map(|k| k.key()).collect();
    assert_eq!(names, vec![b"a", b"b", b"c"]);
    let a = taginfo.key(b"a").unwrap();
    assert_eq!(a.distinct_values(), 3);
    assert_eq!((a.counts().nodes, a.counts().ways, a.counts().relations), (3, 1, 1));
    assert_eq!(taginfo.kv(b"a", b"1").unwrap().nodes(), &[0, 1]);
    assert_eq!(taginfo.kv(b"a", b"2").unwrap().ways(), &[0]);
    assert!(taginfo.kv(b"a", b"9").is_none());
    assert!(taginfo.kv(b"z", b"1").is_none());
    assert!(taginfo.key(b"").is_none());
    assert_eq!(taginfo.keys_with_prefix(b"").len(), 3);
    assert_eq!(taginfo.keys_with_prefix(b"b").len(), 1);
    assert!(taginfo.keys_with_prefix(b"bb").is_empty());
    assert_eq!(a.value(b"3").unwrap().key().key(), b"a");
}

#[test]
fn being_together_is_mutual() {
    let built = archive(
        &fixture(),
        BuildOptions {
            combinations: true,
            ..Default::default()
        },
    );
    let taginfo = built.taginfo().unwrap();
    let together = |key: &[u8]| -> Vec<(Vec<u8>, u64)> {
        taginfo
            .key(key)
            .unwrap()
            .combinations()
            .iter()
            .map(|c| (c.key().to_vec(), c.together_count()))
            .collect()
    };
    assert_eq!(together(b"a"), vec![(b"b".to_vec(), 2), (b"c".to_vec(), 1)]);
    assert_eq!(together(b"b"), vec![(b"a".to_vec(), 2), (b"c".to_vec(), 1)]);
    assert_eq!(together(b"c"), vec![(b"a".to_vec(), 1), (b"b".to_vec(), 1)]);
    let tags: Vec<(Vec<u8>, Vec<u8>, u64)> = taginfo
        .kv(b"a", b"1")
        .unwrap()
        .combinations()
        .iter()
        .map(|c| (c.key().to_vec(), c.value().to_vec(), c.together_count()))
        .collect();
    assert_eq!(
        tags,
        vec![
            (b"b".to_vec(), b"x".to_vec(), 1),
            (b"b".to_vec(), b"y".to_vec(), 1),
            (b"c".to_vec(), b"z".to_vec(), 1),
        ]
    );
}

#[test]
fn reverse_references_undo_references() {
    let parent = parent(&fixture());
    let backrefs = build_backrefs::build(&parent);
    let query = osmflat_ext::backrefs::BackrefsQuery::new(&parent, &backrefs);
    assert_eq!(query.ways_using_node(0), &[0]);
    assert!(query.ways_using_node(1).is_empty());
    assert!(query.ways_using_node(99).is_empty());
    assert_eq!(query.relations_with_node(1), &[1]);
    assert_eq!(query.relations_with_way(0), &[0]);
    assert_eq!(query.relations_with_relation(0), &[1]);
    assert_eq!(query.relations_with_relation(1), &[0]);
    assert!(query.relations_with_relation(2).is_empty());
}

#[test]
fn strings_end_at_a_nul_or_with_the_table() {
    let mut parent = parent(&fixture());
    parent.stringtable = b"\0one\0two".to_vec();
    assert_eq!(parent.string(0), b"");
    assert_eq!(parent.string(1), b"one");
    assert_eq!(parent.string(2), b"ne");
    assert_eq!(parent.string(5), b"two");
    assert_eq!(parent.string(8), b"");
}

#[test]
fn an_archive_that_points_outside_itself_is_inconsistent() {
    assert!(parent(&fixture()).is_consistent());
    let mut bad = parent(&fixture());
    bad.nodes_index[0] = Some(3);
    assert!(!bad.is_consistent());
    let mut bad = parent(&fixture());
    bad.nodes.push(Node {
        lon: 0,
        lat: 0,
        tags: Span { start: 2, end: 99 },
    });
    assert!(!bad.is_consistent());
    let mut bad = parent(&fixture());
    bad.tags_index[0] = 6;
    assert!(!bad.is_consistent());
    let mut bad = parent(&fixture());
    bad.relation_members.pop();
    assert!(!bad.is_consistent());
    let mut bad = parent(&fixture());
    bad.relation_members[0][0].role_idx = 1000;
    assert!(!bad.is_consistent());
    let mut bad = parent(&fixture());
    bad.stringtable.clear();
    assert!(!bad.is_consistent());
}

#[test]
fn boxes_include_their_edges() {
    let parent = parent(&fixture());
    let b = |min_lon, min_lat, max_lon, max_lat| Bbox {
        min_lon,
        min_lat,
        max_lon,
        max_lat,
    };
    assert_eq!(node_indices_in_bbox(&parent, b(10, 0, 20, 0)), vec![1, 2]);
    // A way by the extent of its nodes: no node of it is in this box.
    assert_eq!(way_indices_in_bbox(&parent, b(5, -1, 6, 1)), vec![0]);
    assert!(way_indices_in_bbox(&parent, b(5, 1, 6, 2)).is_empty());
    // A relation by its stored extent; one without is never found.
    assert_eq!(relation_indices_in_bbox(&parent, b(20, 0, 30, 5)), vec![0]);
    assert!(node_indices_in_bbox(&parent, b(20, 0, 10, 0)).is_empty());
}

#[test]
fn rings_hold_their_vertices_and_edges() {
    let ring = [at(0, 0), at(10, 0), at(10, 10), at(0, 10)];
    for &corner in &ring {
        assert!(point_in_polygon(corner, &ring));
    }
    assert!(point_in_polygon(at(5, 0), &ring));
    assert!(point_in_polygon(at(5, 5), &ring));
    assert!(!point_in_polygon(at(11, 5), &ring));
    assert!(point_in_ring(at(5, 5), &ring));
    assert!(!point_in_ring(at(-1, 5), &ring));
    assert!(crosses_ray(at(0, 5), at(10, 0), at(10, 10)));
    assert!(point_on_segment(at(5, 5), at(0, 0), at(10, 10)));
    assert!(!point_on_segment(at(11, 11), at(0, 0), at(10, 10)));
    assert_eq!(cross_product(at(0, 0), at(3, 0), at(0, 4)), 12);
    assert_eq!(
        cross_product(
            at(i32::MIN, i32::MIN),
            at(i32::MAX, i32::MIN),
            at(i32::MIN, i32::MAX)
        ),
        (u32::MAX as i128) * (u32::MAX as i128)
    );
}

#[test]
fn a_segment_is_as_near_as_its_nearest_point() {
    let d = |num: u128, den: u128| Ratio {
        num: Wide { hi: 0, lo: num },
        den,
    };
    // Before the start, beyond the end, and between.
    assert_eq!(segment_distance(at(-3, 4), at(0, 0), at(10, 0)), d(25, 1));
    assert_eq!(segment_distance(at(13, 4), at(0, 0), at(10, 0)), d(25, 1));
    assert_eq!(segment_distance(at(5, 4), at(0, 0), at(10, 0)), d(1600, 100));
    assert_eq!(segment_distance(at(1, 1), at(4, 5), at(4, 5)), d(25, 1));
    assert!(d(1600, 100).le(d(16, 1)) && d(16, 1).le(d(1600, 100)));
    assert!(!d(1601, 100).le(d(16, 1)));
    assert_eq!(d(3, 2).least(d(4, 3)), d(4, 3));
}

#[test]
fn products_of_words_are_exact() {
    let max = u128::MAX;
    assert_eq!(
        Wide::product(max, max),
        Wide { hi: max - 1, lo: 1 }
    );
    assert_eq!(Wide::product(1 << 64, 1 << 64), Wide { hi: 1, lo: 0 });
    assert_eq!(Wide::product(7, 9), Wide { hi: 0, lo: 63 });
    assert_eq!(
        Wide { hi: 1, lo: 1 << 127 }.times(6),
        Wide { hi: 9, lo: 0 }
    );
    assert!(Wide { hi: 0, lo: max }.le(Wide { hi: 1, lo: 0 }));
}

#[test]
fn segments_meet_whichever_comes_first() {
    let cases = [
        (at(0, 0), at(10, 10), at(0, 10), at(10, 0), true),
        (at(0, 0), at(10, 0), at(5, 0), at(15, 0), true),
        (at(0, 0), at(10, 0), at(10, 0), at(10, 5), true),
        (at(0, 0), at(10, 0), at(11, 0), at(15, 0), false),
        (at(0, 0), at(10, 10), at(6, 5), at(10, 0), false),
    ];
    for (a, b, c, d, meet) in cases {
        assert_eq!(segments_touch(a, b, c, d), meet);
        assert_eq!(segments_touch(c, d, a, b), meet);
    }
}

#[test]
fn relations_reach_through_cycles_once() {
    let parent = parent(&fixture());
    let mut found = reachable(&parent, 0);
    found.sort();
    assert_eq!(found, vec![0, 1]);
    // The member node of the contained relation is the nearest part.
    let near = relation_distance(&parent, 0, at(10, 0)).unwrap();
    assert_eq!((near.num.hi, near.num.lo), (0, 0));
    assert_eq!(relations_within_radius(&parent, at(10, 7), 7), vec![0]);
    assert!(relations_within_radius(&parent, at(10, 7), 6).is_empty());
}

#[test]
fn what_lies_in_a_circle_or_polygon_lies_in_its_box() {
    let parent = parent(&fixture());
    assert_eq!(nodes_within_radius(&parent, at(10, 0), 10), vec![1, 0, 2]);
    assert_eq!(nodes_within_radius(&parent, at(10, 1), 10), vec![1]);
    let ring = [at(-1, -1), at(11, -1), at(11, 1), at(-1, 1)];
    assert_eq!(nodes_in_polygon(&parent, &ring), vec![0, 1]);
}

#[test]
fn split_pieces_are_closed_and_visit_each_node_once() {
    let v = |node_idx: u64| Vertex {
        node_idx,
        lon: 0,
        lat: 0,
    };
    let ids = |ring: &Vec<Vertex>| ring.iter().map(|v| v.node_idx).collect::<Vec<u64>>();
    let ring: Vec<Vertex> = [0, 1, 2, 3, 1, 4, 0].iter().map(|&i| v(i)).collect();
    let pieces = split_self_touching(ring);
    let mut got: Vec<Vec<u64>> = pieces.iter().map(ids).collect();
    got.sort();
    assert_eq!(got, vec![vec![0, 1, 4, 0], vec![1, 2, 3, 1]]);
    let simple: Vec<Vertex> = [5, 6, 7, 5].iter().map(|&i| v(i)).collect();
    assert_eq!(split_self_touching(simple.clone()), vec![simple]);
}

#[test]
fn coastlines_without_rings_leave_their_chains() {
    let mut open = fixture();
    open.ways[0].tags = vec![tag("natural", "coastline")];
    let parent = parent(&open);
    let (rings, chains) = assemble_coastline_raw(
        &parent,
        &|a: Vertex, b: Vertex| ((a.lon - b.lon).abs() as f64 * 1000.0).to_bits(),
        &|_: &Vec<Point>| 0u64,
    );
    assert!(rings.is_empty());
    assert_eq!(chains.len(), 1);
    assert_eq!(chains[0].len(), 2);
}

#[test]
fn fixtures_are_written_in_curve_order() {
    let mut shuffled = fixture();
    shuffled.nodes.swap(0, 2);
    let point = |lon: i32, _: i32| lon as u64;
    let extent = |e: Extent| e.min_lon as u64;
    assert_eq!(node_order(&shuffled, &point), vec![2, 1, 0]);
    assert_eq!(way_order(&shuffled, &extent), vec![0]);
    // A relation without an extent comes last.
    shuffled.relations.swap(0, 1);
    assert_eq!(relation_order(&shuffled, &extent), vec![1, 0]);
    assert_eq!(inverse_order(3, &[2, 0, 1]), vec![1, 2, 0]);
    assert_eq!(
        way_bbox(&shuffled, &shuffled.ways[0]),
        Some(Extent {
            min_lon: 0,
            min_lat: 0,
            max_lon: 20,
            max_lat: 0
        })
    );
    assert_eq!(way_bbox(&shuffled, &WaySpec::default()), None);
}

#[test]
fn fixtures_keep_their_tags_and_references() {
    let parent = parent(&fixture());
    let tags: Vec<(&[u8], &[u8])> = (parent.nodes[1].tags.start..parent.nodes[1].tags.end)
        .map(|i| {
            let tag = &parent.tags[parent.tags_index[i as usize] as usize];
            (parent.string(tag.key_idx), parent.string(tag.value_idx))
        })
        .collect();
    let want: Vec<(&[u8], &[u8])> = vec![(b"a", b"1"), (b"b", b"y"), (b"c", b"z")];
    assert_eq!(tags, want);
    assert_eq!(parent.nodes_index, vec![Some(0), Some(2)]);
    assert_eq!(parent.find_tag(parent.nodes[1].tags, b"b"), Some(&b"y"[..]));
    assert_eq!(parent.find_tag(parent.nodes[1].tags, b"q"), None);
    assert_eq!(parent.relation_members[0][1].idx, Some(1));
    assert_eq!(parent.schema, b"schema");
}

#[test]
fn a_key_counts_its_carriers_where_none_repeats_it() {
    let plain = BuildOptions {
        taginfo: true,
        ..Default::default()
    };
    let stored = BuildOptions {
        key_postings: true,
        ..Default::default()
    };
    for opts in [plain, stored] {
        let built = archive(&fixture(), opts);
        for key in built.taginfo().unwrap().keys() {
            assert_eq!(key.nodes().len() as u64, key.counts().nodes);
            assert_eq!(key.ways().len() as u64, key.counts().ways);
            assert_eq!(key.relations().len() as u64, key.counts().relations);
            for value in key.values() {
                assert!(value.nodes().iter().all(|n| key.nodes().contains(n)));
            }
        }
    }
    // A node with two values of one key is counted for each, and listed once.
    let mut repeated = fixture();
    repeated.nodes[0].tags.push(tag("a", "2"));
    let built = archive(
        &repeated,
        BuildOptions {
            taginfo: true,
            ..Default::default()
        },
    );
    let a = built.taginfo().unwrap().key(b"a").unwrap();
    assert_eq!(a.nodes(), vec![0, 1, 2]);
    assert_eq!(a.counts().nodes, 4);
}

#[test]
fn a_ring_holds_the_same_points_wherever_it_starts() {
    let ring = [at(0, 0), at(10, 0), at(10, 10), at(5, 3), at(0, 10)];
    let probes = [at(5, 1), at(5, 3), at(5, 8), at(0, 5), at(12, 5), at(10, 10)];
    let want: Vec<bool> = probes.iter().map(|&p| point_in_polygon(p, &ring)).collect();
    assert_eq!(want, vec![true, true, false, true, false, true]);
    for k in 0..ring.len() {
        let mut turned = ring;
        turned.rotate_left(k);
        let got: Vec<bool> = probes.iter().map(|&p| point_in_polygon(p, &turned)).collect();
        assert_eq!(got, want);
    }
}

#[test]
fn split_pieces_keep_to_the_edges_of_the_ring() {
    let ids = [0u64, 1, 2, 3, 1, 4, 5, 6, 4, 7, 0];
    let ring: Vec<Vertex> = ids
        .iter()
        .map(|&node_idx| Vertex {
            node_idx,
            lon: 0,
            lat: 0,
        })
        .collect();
    let pieces = split_self_touching(ring);
    assert_eq!(pieces.len(), 3);
    for piece in &pieces {
        for step in piece.windows(2) {
            let edge = [step[0].node_idx, step[1].node_idx];
            assert!(ids.windows(2).any(|w| w == edge), "{edge:?}");
        }
    }
}

/// The tables of a fixture hold its distinct tags and strings, in the order in
/// which they first occur, the empty string first, and nothing else.
#[test]
fn fixtures_have_no_tags_or_strings_besides_their_own() {
    let parent = parent(&fixture());
    assert_eq!(
        parent.stringtable,
        b"\0a\x001\0b\0x\0y\0c\0z\x002\x003\0".to_vec()
    );
    let tags: Vec<(&[u8], &[u8])> = parent
        .tags
        .iter()
        .map(|t| (parent.string(t.key_idx), parent.string(t.value_idx)))
        .collect();
    let want: Vec<(&[u8], &[u8])> = vec![
        (b"a", b"1"),
        (b"b", b"x"),
        (b"b", b"y"),
        (b"c", b"z"),
        (b"a", b"2"),
        (b"a", b"3"),
    ];
    assert_eq!(tags, want);
    assert_eq!(parent.tags_index, vec![0, 1, 0, 2, 3, 4, 4, 5]);
    assert_eq!(parent.ways[0].tags, Span { start: 6, end: 7 });
    assert_eq!(parent.string(parent.relation_members[0][0].role_idx), b"");
    // Without tags there is still the empty string.
    let bare = build_parent_archive(
        &Fixture::default(),
        b"",
        &|_: i32, _: i32| 0u64,
        &|_: Extent| 0u64,
    );
    assert_eq!(bare.stringtable, vec![0]);
    assert!(bare.tags.is_empty() && bare.tags_index.is_empty());
}
