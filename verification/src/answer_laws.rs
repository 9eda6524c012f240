//! Which faults and mismatches are reported, and in what order results come.

use crate::build_search::ranked;
use crate::coastline::{
    area_key, area_keys, coastline_rings, coastline_segments, coastline_value, is_coastline,
    largest_first, natural_key,
};
use crate::cooccurrences::{
    is_key_combos, is_tag_combos, keys_together, lists_key, lists_tag, tags_together, Combo,
    TagCombo,
};
use crate::ext::{ExtHeader, Taginfo};
use crate::fingerprint::{answers, schema_hash, Mismatch};
use crate::geometry::Point;
use crate::multipolygon::{
    boundary_value, inner_role, is_area, multipolygon_value, positions, type_key, vertices, way_nodes,
};
use crate::order::{lemma_ranking_exists, rank_le, ranking};
use crate::osm::{Osm, Relation, Way};
use crate::query::{Bbox, EntityType};
use crate::ring_laws::{
    all_keep_to_edges, assembly_makes_up_no_edge, every_piece_is_kept, keeps_to_edges,
    shares_end_nodes,
};
use crate::rings::{all_nonempty, assembled, split, split_all, Vertex};
use crate::select::{first_fault, Query, QueryError, Shape, Spatial};
use crate::strings::{lex_lt, string_at};
use crate::text_laws::{
    keys_are_together_where_both_are_carried, tags_are_together_where_both_are_carried,
    with_both_keys, with_both_tags,
};
use crate::BuildOptions;
use vstd::prelude::*;

verus! {

/// The position is in the box.
pub open spec fn box_has(bbox: Bbox, lon: int, lat: int) -> bool {
    bbox.min_lon <= lon <= bbox.max_lon && bbox.min_lat <= lat <= bbox.max_lat
}

/// A box is refused exactly where no position is in it, for every kind of entity.
pub proof fn an_empty_box_is_refused(bbox: Bbox, entity: EntityType)
    ensures
        Spatial::Bbox(bbox).fault(entity) is None <==> exists|lon: int, lat: int| #[trigger]
            box_has(bbox, lon, lat),
        Spatial::Bbox(bbox).fault(entity) is Some ==> Spatial::Bbox(bbox).fault(entity) == Some(
            QueryError::InvalidSpatial(Shape::Bbox),
        ),
{
    if bbox.min_lon <= bbox.max_lon && bbox.min_lat <= bbox.max_lat {
        assert(box_has(bbox, bbox.min_lon as int, bbox.min_lat as int));
    }
}

/// The fault of a shape for nodes, which may be drawn or not.
pub open spec fn fault_for_nodes(
    drawn: bool,
    entity: EntityType,
    shape: Shape,
) -> Option<QueryError> {
    if !drawn {
        Some(QueryError::InvalidSpatial(shape))
    } else if entity == EntityType::Node {
        None
    } else {
        Some(QueryError::NodesOnly { entity, shape })
    }
}

/// A circle with a negative radius and a polygon of fewer than three vertices are
/// refused; the others are for nodes only.
pub proof fn circles_and_polygons_are_for_nodes(
    center: Point,
    radius: i32,
    ring: Vec<Point>,
    entity: EntityType,
)
    ensures
        (Spatial::Radius { center, radius }).fault(entity) == fault_for_nodes(
            0 <= radius,
            entity,
            Shape::Radius,
        ),
        Spatial::Polygon(ring).fault(entity) == fault_for_nodes(
            3 <= ring@.len(),
            entity,
            Shape::Polygon,
        ),
{
}

/// The fault is that of shape `i`, and no shape before it has one.
pub open spec fn is_first_fault(
    shapes: Seq<Spatial>,
    entity: EntityType,
    i: int,
    e: QueryError,
) -> bool {
    &&& 0 <= i < shapes.len()
    &&& shapes[i].fault(entity) == Some(e)
    &&& forall|j: int| 0 <= j < i ==> (#[trigger] shapes[j]).fault(entity) is None
}

/// The fault that is reported of several shapes is that of the first one at fault.
pub proof fn the_first_fault_is_reported(shapes: Seq<Spatial>, entity: EntityType)
    ensures
        match first_fault(shapes, entity) {
            Some(e) => exists|i: int| #[trigger] is_first_fault(shapes, entity, i, e),
            None => forall|i: int|
                0 <= i < shapes.len() ==> (#[trigger] shapes[i]).fault(entity) is None,
        },
    decreases shapes.len(),
{
    if shapes.len() > 0 {
        let front = shapes.drop_last();
        let n = shapes.len() - 1;
        the_first_fault_is_reported(front, entity);
        match first_fault(front, entity) {
            Some(e) => {
                let i = choose|i: int| #[trigger] is_first_fault(front, entity, i, e);
                assert forall|j: int| 0 <= j < i implies (#[trigger] shapes[j]).fault(
                    entity,
                ) is None by {
                    assert(front[j] == shapes[j]);
                }
                assert(is_first_fault(shapes, entity, i, e));
            },
            None => {
                assert forall|j: int| 0 <= j < n implies (#[trigger] shapes[j]).fault(
                    entity,
                ) is None by {
                    assert(front[j] == shapes[j]);
                }
                match first_fault(shapes, entity) {
                    Some(e) => {
                        assert(is_first_fault(shapes, entity, n, e));
                    },
                    None => {},
                }
            },
        }
    }
}

/// A query is answered exactly where it has a constraint, no shape of it is at fault,
/// and there is an index for its tags and keys.
pub proof fn a_query_without_fault_is_answered(query: Query<'_>, entity: EntityType)
    ensures
        query.fault(entity) is None <==> ({
            &&& query.tags@.len() + query.keys@.len() + query.shapes@.len() > 0
            &&& forall|i: int|
                0 <= i < query.shapes@.len() ==> (#[trigger] query.shapes@[i]).fault(
                    entity,
                ) is None
            &&& query.tags@.len() + query.keys@.len() > 0
                ==> query.archive.extension().taginfo is Some
        }),
        query.tags@.len() + query.keys@.len() + query.shapes@.len() == 0 ==> query.fault(entity)
            == Some(QueryError::Unconstrained),
{
    the_first_fault_is_reported(query.shapes@, entity);
    match first_fault(query.shapes@, entity) {
        Some(e) => {
            let i = choose|i: int| #[trigger] is_first_fault(query.shapes@, entity, i, e);
            assert(query.shapes@[i].fault(entity) is Some);
        },
        None => {},
    }
}

/// The header agrees with the archive in its schema and in the first `n` of its
/// counts: nodes, ways, relations, tags and string table.
pub open spec fn agrees(parent: &Osm, h: ExtHeader, n: int) -> bool {
    &&& h.parent_schema_hash == schema_hash(parent.schema@)
    &&& n > 0 ==> h.parent_node_count == parent.nodes.len()
    &&& n > 1 ==> h.parent_way_count == parent.ways.len()
    &&& n > 2 ==> h.parent_relation_count == parent.relations.len()
    &&& n > 3 ==> h.parent_tags_count == parent.tags.len()
    &&& n > 4 ==> h.parent_stringtable_len == parent.stringtable.len()
}

/// What a count of the header is compared with, and its name.
pub open spec fn counted(parent: &Osm, h: ExtHeader, n: int) -> (Seq<char>, u64, u64) {
    if n == 0 {
        ("nodes"@, parent.nodes.len() as u64, h.parent_node_count)
    } else if n == 1 {
        ("ways"@, parent.ways.len() as u64, h.parent_way_count)
    } else if n == 2 {
        ("relations"@, parent.relations.len() as u64, h.parent_relation_count)
    } else if n == 3 {
        ("tags"@, parent.tags.len() as u64, h.parent_tags_count)
    } else {
        ("stringtable"@, parent.stringtable.len() as u64, h.parent_stringtable_len)
    }
}

/// The mismatch is in count `n`, and the counts before it agree.
pub open spec fn first_differs(
    parent: &Osm,
    h: ExtHeader,
    n: int,
    what: Seq<char>,
    expected: u64,
    actual: u64,
) -> bool {
    &&& 0 <= n < 5
    &&& agrees(parent, h, n)
    &&& counted(parent, h, n) == (what, expected, actual)
    &&& expected != actual
}

/// A mismatch names the first difference: the schema, then each count, then the
/// replication sequence number, with what the archive has and what the header says.
pub proof fn a_mismatch_names_the_first_difference(
    parent: &Osm,
    h: ExtHeader,
    out: Result<(), Mismatch>,
)
    requires
        answers(parent, h, out),
    ensures
        match out {
            Ok(_) => agrees(parent, h, 5) && h.parent_replication_sequence_number
                == parent.header.replication_sequence_number,
            Err(Mismatch::SchemaHash { expected, actual }) => expected == schema_hash(
                parent.schema@,
            ) && actual == h.parent_schema_hash && expected != actual,
            Err(Mismatch::Count { what, expected, actual }) => exists|n: int| #[trigger]
                first_differs(parent, h, n, what@, expected, actual),
            Err(Mismatch::ReplicationSequence { expected, actual }) => agrees(parent, h, 5)
                && expected == parent.header.replication_sequence_number && actual
                == h.parent_replication_sequence_number && expected != actual,
        },
{
    match out {
        Err(Mismatch::Count { what, expected, actual }) => {
            let n: int = if h.parent_node_count != parent.nodes.len() {
                0
            } else if h.parent_way_count != parent.ways.len() {
                1
            } else if h.parent_relation_count != parent.relations.len() {
                2
            } else if h.parent_tags_count != parent.tags.len() {
                3
            } else {
                4
            };
            assert(first_differs(parent, h, n, what@, expected, actual));
        },
        _ => {},
    }
}

/// The text as bytes.
pub open spec fn bytes_of(text: Seq<char>) -> Seq<u8> {
    text.map_values(|c: char| c as u8)
}

/// The keys, values and roles that the library looks for, spelled out.
pub proof fn the_tags_are_spelled()
    ensures
        natural_key() == bytes_of("natural"@),
        coastline_value() == bytes_of("coastline"@),
        type_key() == bytes_of("type"@),
        multipolygon_value() == bytes_of("multipolygon"@),
        boundary_value() == bytes_of("boundary"@),
        inner_role() == bytes_of("inner"@),
{
    reveal_strlit("natural");
    reveal_strlit("coastline");
    reveal_strlit("type");
    reveal_strlit("multipolygon");
    reveal_strlit("boundary");
    reveal_strlit("inner");
    assert(natural_key() =~= bytes_of("natural"@));
    assert(coastline_value() =~= bytes_of("coastline"@));
    assert(type_key() =~= bytes_of("type"@));
    assert(multipolygon_value() =~= bytes_of("multipolygon"@));
    assert(boundary_value() =~= bytes_of("boundary"@));
    assert(inner_role() =~= bytes_of("inner"@));
}

/// A relation is an area exactly where its `type` is `multipolygon` or `boundary`.
pub proof fn areas_are_multipolygons_and_boundaries(parent: &Osm, relation: Relation)
    ensures
        is_area(parent, relation) <==> ({
            let value = parent.value_for(
                parent.tags_index@.subrange(
                    relation.tags.start as int,
                    relation.tags.end as int,
                ),
                bytes_of("type"@),
            );
            value == Some(bytes_of("multipolygon"@)) || value == Some(bytes_of("boundary"@))
        }),
{
    the_tags_are_spelled();
}

/// A way is coastline exactly where its `natural` is `coastline`.
pub proof fn coastline_is_tagged_natural(parent: &Osm, way: Way)
    ensures
        is_coastline(parent, way) <==> parent.value_for(
            parent.tags_index@.subrange(way.tags.start as int, way.tags.end as int),
            bytes_of("natural"@),
        ) == Some(bytes_of("coastline"@)),
{
    the_tags_are_spelled();
}

/// Segment `seg` is the nodes of coastline way `i`, at least two.
pub open spec fn is_coastline_way(
    parent: &Osm,
    ways: Seq<Way>,
    i: int,
    seg: Seq<Vertex>,
) -> bool {
    &&& 0 <= i < ways.len()
    &&& is_coastline(parent, ways[i])
    &&& seg == vertices(parent, way_nodes(parent, ways[i]))
    &&& seg.len() >= 2
}

/// The coastline segments are those of the coastline ways with at least two nodes:
/// all of them and no others.
pub proof fn coastline_segments_are_the_coastline_ways(
    parent: &Osm,
    ways: Seq<Way>,
    seg: Seq<Vertex>,
)
    ensures
        coastline_segments(parent, ways).contains(seg) <==> exists|i: int| #[trigger]
            is_coastline_way(parent, ways, i, seg),
    decreases ways.len(),
{
    if ways.len() > 0 {
        let front = ways.drop_last();
        let n = ways.len() - 1;
        coastline_segments_are_the_coastline_ways(parent, front, seg);
        let (all, rest) = (coastline_segments(parent, ways), coastline_segments(parent, front));
        if exists|i: int| #[trigger] is_coastline_way(parent, ways, i, seg) {
            let i = choose|i: int| #[trigger] is_coastline_way(parent, ways, i, seg);
            if i < n {
                assert(is_coastline_way(parent, front, i, seg));
                let k = choose|k: int| 0 <= k < rest.len() && rest[k] == seg;
                assert(all[k] == seg);
            } else {
                assert(all[all.len() - 1] == seg);
            }
        }
        if all.contains(seg) {
            let k = choose|k: int| 0 <= k < all.len() && all[k] == seg;
            if k < rest.len() {
                assert(rest[k] == seg);
                let i = choose|i: int| #[trigger] is_coastline_way(parent, front, i, seg);
                assert(is_coastline_way(parent, ways, i, seg));
            } else {
                assert(is_coastline_way(parent, ways, n, seg));
            }
        }
    }
}

/// Rings by area are the same rings, none larger than one before it; rings of one
/// area keep their order.
pub proof fn rings_come_largest_first<A: Fn(&Vec<Point>) -> u64>(
    area: A,
    rings: Seq<Seq<Vertex>>,
    k: int,
    m: int,
) -> (ij: (int, int))
    requires
        rings.len() <= usize::MAX,
        0 <= k < m < rings.len(),
    ensures
        largest_first(area, rings).len() == rings.len(),
        0 <= ij.0 < rings.len() && largest_first(area, rings)[k] == rings[ij.0],
        0 <= ij.1 < rings.len() && largest_first(area, rings)[m] == rings[ij.1],
        ij.0 != ij.1,
        area_key(area, positions(rings[ij.0])) >= area_key(area, positions(rings[ij.1])),
        area_key(area, positions(rings[ij.0])) == area_key(area, positions(rings[ij.1])) ==> ij.0
            < ij.1,
{
    let keys = area_keys(area, rings);
    let order = ranking(keys);
    lemma_ranking_exists(keys);
    assert(order[k] < keys.len() && order[m] < keys.len());
    assert(rank_le(keys, order[k], order[m]));
    assert(order[k] != order[m]);
    (order[k] as int, order[m] as int)
}

/// Every ring is among the rings by area.
pub proof fn every_ring_is_ranked<A: Fn(&Vec<Point>) -> u64>(
    area: A,
    rings: Seq<Seq<Vertex>>,
    i: int,
)
    requires
        rings.len() <= usize::MAX,
        0 <= i < rings.len(),
    ensures
        largest_first(area, rings).contains(rings[i]),
{
    let keys = area_keys(area, rings);
    let order = ranking(keys);
    lemma_ranking_exists(keys);
    assert(order.contains(i as usize));
    let k = choose|k: int| 0 <= k < order.len() && order[k] == i as usize;
    assert(largest_first(area, rings)[k] == rings[i]);
}

/// Every piece of an assembled ring of coastline ways is a coastline ring, and there
/// are no others.
pub proof fn every_coastline_ring_is_kept<
    F: Fn(Vertex, Vertex) -> u64,
    A: Fn(&Vec<Point>) -> u64,
>(parent: &Osm, dist: F, area: A, r: int, k: int)
    requires
        split_all(assembled(dist, coastline_segments(parent, parent.ways@)).0).len() <= usize::MAX,
        0 <= r < assembled(dist, coastline_segments(parent, parent.ways@)).0.len(),
        0 <= k < split(assembled(dist, coastline_segments(parent, parent.ways@)).0[r]).len(),
    ensures
        coastline_rings(parent, dist, area).contains(
            split(assembled(dist, coastline_segments(parent, parent.ways@)).0[r])[k],
        ),
        coastline_rings(parent, dist, area).len() == split_all(
            assembled(dist, coastline_segments(parent, parent.ways@)).0,
        ).len(),
{
    let rings = assembled(dist, coastline_segments(parent, parent.ways@)).0;
    every_piece_is_kept(rings, r, k);
    let pieces = split_all(rings);
    let i = choose|i: int| 0 <= i < pieces.len() && pieces[i] == split(rings[r])[k];
    every_ring_is_ranked(area, pieces, i);
}

/// Every edge of a coastline ring is an edge of a coastline way, where the ways
/// share their end nodes.
pub proof fn the_coastline_keeps_to_its_ways<
    F: Fn(Vertex, Vertex) -> u64,
    A: Fn(&Vec<Point>) -> u64,
>(parent: &Osm, dist: F, area: A)
    requires
        shares_end_nodes(dist, coastline_segments(parent, parent.ways@)),
        split_all(assembled(dist, coastline_segments(parent, parent.ways@)).0).len() <= usize::MAX,
    ensures
        all_keep_to_edges(
            coastline_segments(parent, parent.ways@),
            coastline_rings(parent, dist, area),
        ),
{
    let segments = coastline_segments(parent, parent.ways@);
    assert forall|k: int| 0 <= k < segments.len() implies (#[trigger] segments[k]).len() > 0 by {
        assert(segments.contains(segments[k]));
        coastline_segments_are_the_coastline_ways(parent, parent.ways@, segments[k]);
        let i = choose|i: int| #[trigger]
            is_coastline_way(parent, parent.ways@, i, segments[k]);
        assert(is_coastline_way(parent, parent.ways@, i, segments[k]));
    }
    assert(all_nonempty(segments));
    assembly_makes_up_no_edge(dist, segments);
    let rings = split_all(assembled(dist, segments).0);
    let keys = area_keys(area, rings);
    lemma_ranking_exists(keys);
    let out = largest_first(area, rings);
    assert forall|k: int| 0 <= k < out.len() implies keeps_to_edges(
        segments,
        #[trigger] out[k],
    ) by {
        let at = ranking(keys)[k];
        assert(at < keys.len());
        assert(keeps_to_edges(segments, rings[at as int]));
    }
}

/// The number of objects with a value.
pub open spec fn uses(ti: &Taginfo, v: u64) -> nat {
    ti.postings(EntityType::Node, v as int).len() + ti.postings(EntityType::Way, v as int).len()
        + ti.postings(EntityType::Relation, v as int).len()
}

/// The values of a key by count: each once, the most used first, and those used
/// equally often in their order.
pub proof fn values_come_most_used_first(ti: &Taginfo, k: int, list: Seq<u64>, i: int, j: int)
    requires
        ranked(ti, k, list),
        0 <= i < j < list.len(),
    ensures
        uses(ti, list[i]) >= uses(ti, list[j]),
        uses(ti, list[i]) == uses(ti, list[j]) ==> list[i] < list[j],
{
    assert(list[i] != list[j]);
}

/// The keys listed with a key are the others that some entity carries with it, each
/// with the number of entities that carry both.
pub proof fn key_combinations_are_the_keys_carried_together(
    parent: &Osm,
    key_idx: u64,
    row: Seq<Combo>,
    other: u64,
    together: u64,
)
    requires
        is_key_combos(parent, key_idx, row),
    ensures
        row.contains((Combo { other_key_idx: other, together_count: together })) <==> other
            != key_idx && together > 0 && together == with_both_keys(
            parent,
            EntityType::Node,
            key_idx,
            other,
        ).len() + with_both_keys(parent, EntityType::Way, key_idx, other).len() + with_both_keys(
            parent,
            EntityType::Relation,
            key_idx,
            other,
        ).len(),
{
    keys_are_together_where_both_are_carried(parent, key_idx, other);
    let combo = Combo { other_key_idx: other, together_count: together };
    if row.contains(combo) {
        let i = choose|i: int| 0 <= i < row.len() && row[i] == combo;
        assert(row[i].other_key_idx == other);
    }
    if other != key_idx && keys_together(parent, key_idx, other) > 0 {
        assert(lists_key(row, other));
        let i = choose|i: int| 0 <= i < row.len() && (#[trigger] row[i]).other_key_idx == other;
        if together == keys_together(parent, key_idx, other) {
            assert(row[i] == combo);
        }
    }
}

/// The tags listed with a tag are the others that some entity carries with it, each
/// with the number of entities that carry both.
pub proof fn tag_combinations_are_the_tags_carried_together(
    parent: &Osm,
    slot: u64,
    row: Seq<TagCombo>,
    other: u64,
    together: u64,
)
    requires
        is_tag_combos(parent, slot, row),
    ensures
        row.contains((TagCombo { other_slot: other, together_count: together })) <==> other != slot
            && together > 0 && together == with_both_tags(
            parent,
            EntityType::Node,
            slot,
            other,
        ).len() + with_both_tags(parent, EntityType::Way, slot, other).len() + with_both_tags(
            parent,
            EntityType::Relation,
            slot,
            other,
        ).len(),
{
    tags_are_together_where_both_are_carried(parent, slot, other);
    let combo = TagCombo { other_slot: other, together_count: together };
    if row.contains(combo) {
        let i = choose|i: int| 0 <= i < row.len() && row[i] == combo;
        assert(row[i].other_slot == other);
    }
    if other != slot && tags_together(parent, slot, other) > 0 {
        assert(lists_tag(row, other));
        let i = choose|i: int| 0 <= i < row.len() && (#[trigger] row[i]).other_slot == other;
        if together == tags_together(parent, slot, other) {
            assert(row[i] == combo);
        }
    }
}

/// Keys that occur with a key: most often first, those as often by their strings.
pub proof fn key_combinations_come_most_frequent_first(
    parent: &Osm,
    key_idx: u64,
    row: Seq<Combo>,
    i: int,
    j: int,
)
    requires
        is_key_combos(parent, key_idx, row),
        0 <= i < j < row.len(),
    ensures
        row[i].together_count >= row[j].together_count,
        row[i].together_count == row[j].together_count ==> ({
            let (a, b) = (row[i].other_key_idx, row[j].other_key_idx);
            let (x, y) = (
                string_at(parent.stringtable@, a as int),
                string_at(parent.stringtable@, b as int),
            );
            lex_lt(x, y) || (x == y && a < b)
        }),
{
    assert(row[i].other_key_idx != row[j].other_key_idx);
}

/// Tags that occur with a tag: most often first, those as often by their keys and
/// then by their values.
pub proof fn tag_combinations_come_most_frequent_first(
    parent: &Osm,
    slot: u64,
    row: Seq<TagCombo>,
    i: int,
    j: int,
)
    requires
        is_tag_combos(parent, slot, row),
        0 <= i < j < row.len(),
    ensures
        row[i].together_count >= row[j].together_count,
        row[i].together_count == row[j].together_count ==> ({
            let (a, b) = (row[i].other_slot, row[j].other_slot);
            let (k, m) = (parent.key_string(a as int), parent.key_string(b as int));
            let (v, w) = (parent.value_string(a as int), parent.value_string(b as int));
            lex_lt(k, m) || (k == m && (lex_lt(v, w) || (v == w && a < b)))
        }),
{
    assert(row[i].other_slot != row[j].other_slot);
}

/// Each part of the tag index brings the index, and nothing else does.
pub proof fn parts_of_the_index_bring_the_index(opts: BuildOptions)
    ensures
        !opts.asks_taginfo() <==> !opts.taginfo && !opts.combinations && !opts.key_postings
            && !opts.value_search,
{
}

} // verus!
