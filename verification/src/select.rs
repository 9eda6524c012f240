//! Combined queries: tags, keys and shapes, all of which must hold.

use crate::archive::ExtArchive;
use crate::build_search::{carries_under, postings_slice};
use crate::cooccurrences::{carries, lemma_slot_in_range};
use crate::geometry::{in_polygon, Point};
use crate::order::{ascending, count, lemma_count, strictly_ascending};
use crate::osm::Osm;
use crate::query::{
    admitted, intersect, intersection_is_filter, least_count, Bbox, EntityType, Selection};
use crate::spatial::{node_dist, node_point, PolygonFilter, RadiusFilter};
use crate::taginfo::TaginfoQuery;
use crate::taginfo_laws::{
    a_key_string_names_one_key, every_tag_is_listed, has_key, has_tag,
    key_postings_are_the_carriers, postings_are_the_carriers,
};
use vstd::prelude::*;

verus! {

/// The kinds of spatial constraint.
#[derive(Clone, Copy, Debug, PartialEq, Eq, Structural)]
pub enum Shape {
    Bbox,
    Radius,
    Polygon,
}

/// Why a combined query has no answer.
#[derive(Clone, Copy, Debug, PartialEq, Eq, Structural)]
pub enum QueryError {
    /// No constraint was given.
    Unconstrained,
    /// The shape applies to nodes only.
    NodesOnly { entity: EntityType, shape: Shape },
    /// A tag or key constraint needs an index that the archive does not have.
    NoTaginfo,
    /// A negative radius, fewer than 3 vertices, a box whose edges are out of
    /// order, or numbers that are not finite.
    InvalidSpatial(Shape),
}

/// A spatial constraint, in archive units.
pub enum Spatial {
    Bbox(Bbox),
    Radius { center: Point, radius: i32 },
    Polygon(Vec<Point>),
    /// A shape whose numbers are not finite has no place in archive units.
    NotFinite(Shape),
}

impl Spatial {
    /// The kind of constraint.
    pub open spec fn kind(self) -> Shape {
        match self {
            Spatial::Bbox(_) => Shape::Bbox,
            Spatial::Radius { .. } => Shape::Radius,
            Spatial::Polygon(_) => Shape::Polygon,
            Spatial::NotFinite(shape) => shape,
        }
    }

    /// The constraint describes a shape.
    pub open spec fn valid(self) -> bool {
        match self {
            Spatial::Bbox(bbox) => bbox.min_lon <= bbox.max_lon && bbox.min_lat <= bbox.max_lat,
            Spatial::Radius { radius, .. } => radius >= 0,
            Spatial::Polygon(ring) => ring@.len() >= 3,
            Spatial::NotFinite(_) => false,
        }
    }

    /// What is wrong with the constraint for entities of a type.
    pub open spec fn fault(self, entity: EntityType) -> Option<QueryError> {
        if !self.valid() {
            Some(QueryError::InvalidSpatial(self.kind()))
        } else if self.kind() != Shape::Bbox && entity != EntityType::Node {
            Some(QueryError::NodesOnly { entity, shape: self.kind() })
        } else {
            None
        }
    }

    /// Entity `i` satisfies the constraint.
    pub open spec fn admits(self, parent: &Osm, entity: EntityType, i: int) -> bool {
        match self {
            Spatial::Bbox(bbox) => bbox.admits(parent, entity, i),
            Spatial::Radius { center, radius } => entity == EntityType::Node && 0 <= i
                < parent.nodes.len() && node_dist(parent, center, i) <= radius * radius,
            Spatial::Polygon(ring) => entity == EntityType::Node && 0 <= i < parent.nodes.len()
                && in_polygon(node_point(parent.nodes@[i]), ring@),
            Spatial::NotFinite(_) => false,
        }
    }

    /// The test for the constraint, or what is wrong with it for entities of a
    /// type.
    fn filter(&self, entity: EntityType) -> (out: Result<Filter, QueryError>)
        ensures
            match out {
                Ok(filter) => self.fault(entity) is None && filter.tests(*self),
                Err(e) => self.fault(entity) == Some(e),
            },
    {
        match self {
            Spatial::Bbox(bbox) => {
                if bbox.min_lon <= bbox.max_lon && bbox.min_lat <= bbox.max_lat {
                    return Ok(Filter::Bbox(*bbox));
                }
                Err(QueryError::InvalidSpatial(Shape::Bbox))
            },
            Spatial::Radius { center, radius } => match RadiusFilter::new(*center, *radius) {
                None => Err(QueryError::InvalidSpatial(Shape::Radius)),
                Some(filter) => match entity {
                    EntityType::Node => Ok(Filter::Radius(filter)),
                    _ => Err(QueryError::NodesOnly { entity, shape: Shape::Radius }),
                },
            },
            Spatial::Polygon(ring) => match PolygonFilter::new(ring.as_slice()) {
                None => Err(QueryError::InvalidSpatial(Shape::Polygon)),
                Some(filter) => match entity {
                    EntityType::Node => Ok(Filter::Polygon(filter)),
                    _ => Err(QueryError::NodesOnly { entity, shape: Shape::Polygon }),
                },
            },
            Spatial::NotFinite(shape) => Err(QueryError::InvalidSpatial(*shape)),
        }
    }
}

/// The exact test for one spatial constraint.
enum Filter {
    Bbox(Bbox),
    Radius(RadiusFilter),
    Polygon(PolygonFilter),
}

impl Filter {
    /// The test is that for the constraint.
    spec fn tests(self, shape: Spatial) -> bool {
        match (self, shape) {
            (Filter::Bbox(a), Spatial::Bbox(b)) => a == b,
            (Filter::Radius(filter), Spatial::Radius { center, radius }) => filter.describes(
                center,
                radius,
            ),
            (Filter::Polygon(filter), Spatial::Polygon(ring)) => filter.wf() && filter.ring@
                == ring@,
            _ => false,
        }
    }

    /// Whether entity `i` satisfies the constraint.
    fn admits(&self, parent: &Osm, entity: EntityType, i: u64, Ghost(shape): Ghost<Spatial>) -> (out:
        bool)
        requires
            parent.wf(),
            self.tests(shape),
            shape.fault(entity) is None,
        ensures
            out == shape.admits(parent, entity, i as int),
    {
        if i >= parent.entity_count(entity) as u64 {
            return false;
        }
        match self {
            Filter::Bbox(bbox) => admitted(parent, entity, *bbox, i as usize),
            Filter::Radius(filter) => filter.contains(&parent.nodes[i as usize]),
            Filter::Polygon(filter) => filter.contains(&parent.nodes[i as usize]),
        }
    }
}

/// An exact tag to look for.
pub struct TagTerm {
    pub key: Vec<u8>,
    pub value: Vec<u8>,
}

/// A combined query: every constraint must hold. It can be resolved for each
/// type of entity.
pub struct Query<'a> {
    pub archive: &'a ExtArchive,
    pub tags: Vec<TagTerm>,
    pub keys: Vec<Vec<u8>>,
    pub shapes: Vec<Spatial>,
}

impl ExtArchive {
    /// What the queries rest on: the parent is consistent, and so is the tag
    /// index, where there is one.
    pub open spec fn ready(&self) -> bool {
        &&& self.osm().wf()
        &&& self.extension().taginfo matches Some(ti) ==> ti.wf(&self.osm())
    }

    /// Start a combined query.
    pub fn query(&self) -> (out: Query<'_>)
        ensures
            *out.archive == *self,
            out.tags@.len() == 0,
            out.keys@.len() == 0,
            out.shapes@.len() == 0,
    {
        Query { archive: self, tags: Vec::new(), keys: Vec::new(), shapes: Vec::new() }
    }
}

/// The entity is listed under the tag.
pub open spec fn listed_tag(
    q: TaginfoQuery<'_>,
    entity: EntityType,
    key: Seq<u8>,
    value: Seq<u8>,
    x: u64,
) -> bool {
    exists|v: int| #[trigger]
        q.names_tag(key, value, v) && q.taginfo.postings(entity, v).contains(x)
}

/// The entity is listed under the key.
pub open spec fn listed_key(q: TaginfoQuery<'_>, entity: EntityType, key: Seq<u8>, x: u64) -> bool {
    exists|k: int| #[trigger] q.names_key(key, k) && carries_under(q.taginfo, entity, k, x)
}

/// The entity is listed under each of the tags.
pub open spec fn listed_tags(
    q: TaginfoQuery<'_>,
    entity: EntityType,
    tags: Seq<TagTerm>,
    x: u64,
) -> bool {
    forall|i: int|
        0 <= i < tags.len() ==> listed_tag(
            q,
            entity,
            (#[trigger] tags[i]).key@,
            tags[i].value@,
            x,
        )
}

/// The entity is listed under each of the keys.
pub open spec fn listed_keys(
    q: TaginfoQuery<'_>,
    entity: EntityType,
    keys: Seq<Vec<u8>>,
    x: u64,
) -> bool {
    forall|i: int| 0 <= i < keys.len() ==> listed_key(q, entity, (#[trigger] keys[i])@, x)
}

/// The entity satisfies each of the spatial constraints.
pub open spec fn in_shapes(parent: &Osm, entity: EntityType, shapes: Seq<Spatial>, x: u64) -> bool {
    forall|i: int|
        0 <= i < shapes.len() ==> (#[trigger] shapes[i]).admits(parent, entity, x as int)
}

/// What is wrong with the first of the spatial constraints that cannot be used.
pub open spec fn first_fault(shapes: Seq<Spatial>, entity: EntityType) -> Option<QueryError>
    decreases shapes.len(),
{
    if shapes.len() == 0 {
        None
    } else {
        match first_fault(shapes.drop_last(), entity) {
            Some(e) => Some(e),
            None => shapes.last().fault(entity),
        }
    }
}

impl<'a> Query<'a> {
    /// The tag index that the query goes to.
    pub open spec fn index(self) -> TaginfoQuery<'a> {
        TaginfoQuery { parent: &self.archive.osm(), taginfo: &self.archive.extension().taginfo->0 }
    }

    /// The query asks for a tag or a key.
    pub open spec fn asks_index(self) -> bool {
        self.tags@.len() > 0 || self.keys@.len() > 0
    }

    /// Why the query has no answer for entities of a type.
    pub open spec fn fault(self, entity: EntityType) -> Option<QueryError> {
        if !self.asks_index() && self.shapes@.len() == 0 {
            Some(QueryError::Unconstrained)
        } else {
            match first_fault(self.shapes@, entity) {
                Some(e) => Some(e),
                None => if self.asks_index() && self.archive.extension().taginfo is None {
                    Some(QueryError::NoTaginfo)
                } else {
                    None
                },
            }
        }
    }

    /// The entity satisfies every constraint.
    pub open spec fn admits(self, entity: EntityType, x: u64) -> bool {
        &&& self.tags@.len() > 0 ==> listed_tags(self.index(), entity, self.tags@, x)
        &&& self.keys@.len() > 0 ==> listed_keys(self.index(), entity, self.keys@, x)
        &&& in_shapes(&self.archive.osm(), entity, self.shapes@, x)
    }

    /// What the query is answered for entities of a type.
    pub open spec fn answer(self, entity: EntityType, out: Result<Vec<u64>, QueryError>) -> bool {
        match out {
            Err(e) => self.fault(entity) == Some(e),
            Ok(list) => {
                &&& self.fault(entity) is None
                &&& strictly_ascending(list@)
                &&& forall|x: u64| #[trigger] list@.contains(x) <==> self.admits(entity, x)
            },
        }
    }

    /// Require the exact tag `key=value`.
    pub fn with_tag(self, key: &[u8], value: &[u8]) -> (out: Self)
        ensures
            out.archive == self.archive,
            out.tags@.len() == self.tags@.len() + 1,
            out.tags@.drop_last() == self.tags@,
            out.tags@.last().key@ == key@,
            out.tags@.last().value@ == value@,
            out.keys == self.keys,
            out.shapes == self.shapes,
    {
        let mut tags = self.tags;
        let ghost before = tags@;
        tags.push(
            TagTerm {
                key: vstd::slice::slice_to_vec(key),
                value: vstd::slice::slice_to_vec(value),
            },
        );
        proof {
            assert(tags@.drop_last() =~= before);
        }
        Query { archive: self.archive, tags, keys: self.keys, shapes: self.shapes }
    }

    /// Require the key, with any value.
    pub fn with_key(self, key: &[u8]) -> (out: Self)
        ensures
            out.archive == self.archive,
            out.tags == self.tags,
            out.keys@.len() == self.keys@.len() + 1,
            out.keys@.drop_last() == self.keys@,
            out.keys@.last()@ == key@,
            out.shapes == self.shapes,
    {
        let mut keys = self.keys;
        let ghost before = keys@;
        keys.push(vstd::slice::slice_to_vec(key));
        proof {
            assert(keys@.drop_last() =~= before);
        }
        Query { archive: self.archive, tags: self.tags, keys, shapes: self.shapes }
    }

    /// Require a spatial constraint.
    pub fn with_shape(self, shape: Spatial) -> (out: Self)
        ensures
            out.archive == self.archive,
            out.tags == self.tags,
            out.keys == self.keys,
            out.shapes@ == self.shapes@.push(shape),
    {
        let mut shapes = self.shapes;
        shapes.push(shape);
        Query { archive: self.archive, tags: self.tags, keys: self.keys, shapes }
    }

    /// Require to lie in the box, or to overlap it.
    pub fn in_bbox(self, bbox: Bbox) -> (out: Self)
        ensures
            out.archive == self.archive,
            out.tags == self.tags,
            out.keys == self.keys,
            out.shapes@ == self.shapes@.push(Spatial::Bbox(bbox)),
    {
        self.with_shape(Spatial::Bbox(bbox))
    }

    /// Require to lie within `radius` of `center` (nodes only).
    pub fn within_radius(self, center: Point, radius: i32) -> (out: Self)
        ensures
            out.archive == self.archive,
            out.tags == self.tags,
            out.keys == self.keys,
            out.shapes@ == self.shapes@.push((Spatial::Radius { center, radius })),
    {
        self.with_shape(Spatial::Radius { center, radius })
    }

    /// Require to lie in the polygon, its boundary included (nodes only).
    pub fn in_polygon(self, polygon: &[Point]) -> (out: Self)
        ensures
            out.archive == self.archive,
            out.tags == self.tags,
            out.keys == self.keys,
            out.shapes@.len() == self.shapes@.len() + 1,
            out.shapes@.drop_last() == self.shapes@,
            out.shapes@.last() matches Spatial::Polygon(ring) && ring@ == polygon@,
    {
        let ghost before = self.shapes@;
        let out = self.with_shape(Spatial::Polygon(vstd::slice::slice_to_vec(polygon)));
        proof {
            assert(out.shapes@.drop_last() =~= before);
        }
        out
    }

    /// The nodes that satisfy every constraint, ascending.
    pub fn nodes(&self) -> (out: Result<Vec<u64>, QueryError>)
        requires
            self.archive.ready(),
        ensures
            self.answer(EntityType::Node, out),
    {
        self.resolve(EntityType::Node)
    }

    /// The ways that satisfy every constraint, ascending.
    pub fn ways(&self) -> (out: Result<Vec<u64>, QueryError>)
        requires
            self.archive.ready(),
        ensures
            self.answer(EntityType::Way, out),
    {
        self.resolve(EntityType::Way)
    }

    /// The relations that satisfy every constraint, ascending.
    pub fn relations(&self) -> (out: Result<Vec<u64>, QueryError>)
        requires
            self.archive.ready(),
        ensures
            self.answer(EntityType::Relation, out),
    {
        self.resolve(EntityType::Relation)
    }

    fn resolve(&self, entity: EntityType) -> (out: Result<Vec<u64>, QueryError>)
        requires
            self.archive.ready(),
        ensures
            self.answer(entity, out),
    {
        if self.tags.len() == 0 && self.keys.len() == 0 && self.shapes.len() == 0 {
            return Err(QueryError::Unconstrained);
        }
        let parent = self.archive.parent();
        let filters = match filters_of(&self.shapes, entity) {
            Ok(filters) => filters,
            Err(e) => {
                return Err(e);
            },
        };
        if self.tags.len() == 0 && self.keys.len() == 0 {
            let all = indices(parent.entity_count(entity));
            let acc = retain(parent, entity, &filters, all, Ghost(self.shapes@));
            proof {
                assert forall|x: u64| #[trigger] acc@.contains(x) <==> self.admits(entity, x) by {
                    if in_shapes(parent, entity, self.shapes@, x) {
                        lemma_shape_in_range(parent, entity, self.shapes@[0], x as int);
                    }
                }
            }
            return Ok(acc);
        }
        let q = match self.archive.taginfo() {
            Some(q) => q,
            None => {
                return Err(QueryError::NoTaginfo);
            },
        };
        proof {
            assert(q == self.index());
        }
        // Exact tags first, then shapes, and `key=*` last.
        if self.tags.len() > 0 {
            let tagged = with_tags(&q, &self.tags, entity);
            let acc = retain(parent, entity, &filters, tagged, Ghost(self.shapes@));
            let acc = with_keys(&q, &self.keys, entity, acc);
            return Ok(acc);
        }
        if self.shapes.len() > 0 {
            let all = indices(parent.entity_count(entity));
            let acc = retain(parent, entity, &filters, all, Ghost(self.shapes@));
            let acc = with_keys(&q, &self.keys, entity, acc);
            proof {
                assert forall|x: u64| #[trigger] acc@.contains(x) <==> self.admits(entity, x) by {
                    if in_shapes(parent, entity, self.shapes@, x) {
                        lemma_shape_in_range(parent, entity, self.shapes@[0], x as int);
                    }
                }
            }
            return Ok(acc);
        }
        let first = with_key(&q, self.keys[0].as_slice(), entity);
        let acc = with_keys(&q, &self.keys, entity, first);
        proof {
            assert forall|x: u64| #[trigger] acc@.contains(x) <==> self.admits(entity, x) by {
                if listed_keys(q, entity, self.keys@, x) {
                    assert(listed_key(q, entity, self.keys@[0]@, x));
                }
            }
        }
        Ok(acc)
    }
}

/// A spatial constraint admits entities only.
proof fn lemma_shape_in_range(parent: &Osm, entity: EntityType, shape: Spatial, i: int)
    requires
        shape.admits(parent, entity, i),
    ensures
        0 <= i < parent.len_of(entity),
{
}

/// The tests for the constraints, or what is wrong with the first that cannot
/// be used.
fn filters_of(shapes: &Vec<Spatial>, entity: EntityType) -> (out: Result<Vec<Filter>, QueryError>)
    ensures
        match out {
            Ok(filters) => {
                &&& first_fault(shapes@, entity) is None
                &&& test_all(filters@, shapes@, entity)
            },
            Err(e) => first_fault(shapes@, entity) == Some(e),
        },
{
    let mut filters: Vec<Filter> = Vec::new();
    let mut i: usize = 0;
    while i < shapes.len()
        invariant
            i <= shapes@.len(),
            first_fault(shapes@.take(i as int), entity) is None,
            test_all(filters@, shapes@.take(i as int), entity),
        decreases shapes@.len() - i,
    {
        let ghost next = shapes@.take(i + 1);
        proof {
            assert(next.drop_last() =~= shapes@.take(i as int));
            assert(next.last() == shapes@[i as int]);
        }
        match shapes[i].filter(entity) {
            Ok(filter) => {
                let ghost before = filters@;
                filters.push(filter);
                proof {
                    assert forall|k: int| 0 <= k < filters@.len() implies #[trigger] tests_for(
                        filters@[k],
                        next[k],
                        entity,
                    ) by {
                        if k < i {
                            assert(filters@[k] == before[k]);
                            assert(next[k] == shapes@.take(i as int)[k]);
                            assert(tests_for(before[k], shapes@.take(i as int)[k], entity));
                        }
                    }
                }
            },
            Err(e) => {
                proof {
                    lemma_fault_stays(shapes@, i + 1, entity);
                }
                return Err(e);
            },
        }
        i = i + 1;
    }
    proof {
        assert(shapes@.take(i as int) =~= shapes@);
    }
    Ok(filters)
}

/// Each test is that of its constraint, which can be used.
spec fn test_all(filters: Seq<Filter>, shapes: Seq<Spatial>, entity: EntityType) -> bool {
    &&& filters.len() == shapes.len()
    &&& forall|k: int|
        0 <= k < filters.len() ==> #[trigger] tests_for(filters[k], shapes[k], entity)
}

/// The test is that of the constraint, which can be used.
spec fn tests_for(filter: Filter, shape: Spatial, entity: EntityType) -> bool {
    filter.tests(shape) && shape.fault(entity) is None
}

/// What is wrong with the first constraints is what is wrong with all.
proof fn lemma_fault_stays(shapes: Seq<Spatial>, n: int, entity: EntityType)
    requires
        0 <= n <= shapes.len(),
        first_fault(shapes.take(n), entity) is Some,
    ensures
        first_fault(shapes, entity) == first_fault(shapes.take(n), entity),
    decreases shapes.len(),
{
    if n < shapes.len() {
        assert(shapes.drop_last().take(n) =~= shapes.take(n));
        lemma_fault_stays(shapes.drop_last(), n, entity);
    } else {
        assert(shapes.take(n) =~= shapes);
    }
}

/// The indices below `n`, ascending.
fn indices(n: usize) -> (out: Vec<u64>)
    ensures
        strictly_ascending(out@),
        forall|x: u64| #[trigger] out@.contains(x) <==> x < n,
{
    let mut out: Vec<u64> = Vec::new();
    let mut i: usize = 0;
    while i < n
        invariant
            i <= n,
            out@.len() == i,
            forall|k: int| 0 <= k < i ==> #[trigger] out@[k] == k,
        decreases n - i,
    {
        out.push(i as u64);
        i = i + 1;
    }
    proof {
        assert forall|x: u64| #[trigger] out@.contains(x) <==> x < n by {
            if x < n {
                assert(out@[x as int] == x);
            }
        }
    }
    out
}

/// What of `list` satisfies every constraint.
fn retain(
    parent: &Osm,
    entity: EntityType,
    filters: &Vec<Filter>,
    list: Vec<u64>,
    Ghost(shapes): Ghost<Seq<Spatial>>,
) -> (out: Vec<u64>)
    requires
        parent.wf(),
        strictly_ascending(list@),
        test_all(filters@, shapes, entity),
    ensures
        strictly_ascending(out@),
        forall|x: u64| #[trigger]
            out@.contains(x) <==> list@.contains(x) && in_shapes(parent, entity, shapes, x),
{
    let mut out: Vec<u64> = Vec::new();
    let mut i: usize = 0;
    while i < list.len()
        invariant
            parent.wf(),
            i <= list@.len(),
            strictly_ascending(list@),
            test_all(filters@, shapes, entity),
            strictly_ascending(out@),
            forall|k: int| 0 <= k < out@.len() ==> list@.take(i as int).contains(#[trigger] out@[k]),
            forall|x: u64| #[trigger]
                out@.contains(x) <==> list@.take(i as int).contains(x) && in_shapes(
                    parent,
                    entity,
                    shapes,
                    x,
                ),
        decreases list@.len() - i,
    {
        let x: u64 = list[i];
        let ghost before = out@;
        let ghost seen = list@.take(i as int);
        proof {
            assert(list@.take(i + 1) =~= seen.push(x));
        }
        let keep = admits_all(parent, entity, filters, x, Ghost(shapes));
        if keep {
            proof {
                assert forall|k: int| 0 <= k < before.len() implies before[k] < x by {
                    assert(seen.contains(before[k]));
                    let j = choose|j: int| 0 <= j < seen.len() && seen[j] == before[k];
                    assert(list@[j] < list@[i as int]);
                }
            }
            out.push(x);
        }
        proof {
            assert forall|y: u64| #[trigger] out@.contains(y) <==> list@.take(i + 1).contains(y)
                && in_shapes(parent, entity, shapes, y) by {
                vstd::seq_lib::lemma_seq_contains_after_push(seen, x, y);
                vstd::seq_lib::lemma_seq_contains_after_push(before, x, y);
                assert(before.contains(y) <==> seen.contains(y) && in_shapes(
                    parent,
                    entity,
                    shapes,
                    y,
                ));
            }
            assert forall|k: int| 0 <= k < out@.len() implies list@.take(i + 1).contains(
                #[trigger] out@[k],
            ) by {
                assert(out@.contains(out@[k]));
            }
        }
        i = i + 1;
    }
    proof {
        assert(list@.take(i as int) =~= list@);
    }
    out
}

/// Whether an entity satisfies every constraint.
fn admits_all(
    parent: &Osm,
    entity: EntityType,
    filters: &Vec<Filter>,
    x: u64,
    Ghost(shapes): Ghost<Seq<Spatial>>,
) -> (out: bool)
    requires
        parent.wf(),
        test_all(filters@, shapes, entity),
    ensures
        out == in_shapes(parent, entity, shapes, x),
{
    let mut i: usize = 0;
    while i < filters.len()
        invariant
            parent.wf(),
            i <= filters@.len(),
            test_all(filters@, shapes, entity),
            forall|k: int|
                0 <= k < i ==> (#[trigger] shapes[k]).admits(parent, entity, x as int),
        decreases filters@.len() - i,
    {
        proof {
            assert(tests_for(filters@[i as int], shapes[i as int], entity));
        }
        if !filters[i].admits(parent, entity, x, Ghost(shapes[i as int])) {
            return false;
        }
        i = i + 1;
    }
    true
}

/// The entities that are listed under each of the tags, ascending, each once.
fn with_tags(q: &TaginfoQuery<'_>, tags: &Vec<TagTerm>, entity: EntityType) -> (out: Vec<u64>)
    requires
        q.wf(),
        tags@.len() > 0,
    ensures
        strictly_ascending(out@),
        forall|x: u64| #[trigger] out@.contains(x) <==> listed_tags(*q, entity, tags@, x),
{
    let mut selection = Selection::new();
    let mut i: usize = 0;
    while i < tags.len()
        invariant
            q.wf(),
            i <= tags@.len(),
            selection.wf(),
            selection.bbox_ranges is None,
            selection.terms@.len() == i,
            forall|k: int|
                0 <= k < i ==> found(*q, entity, #[trigger] tags@[k], selection.terms@[k]@),
        decreases tags@.len() - i,
    {
        let view = match q.kv(tags[i].key.as_slice(), tags[i].value.as_slice()) {
            Some(view) => view,
            None => {
                let none: Vec<u64> = Vec::new();
                proof {
                    assert forall|x: u64| !listed_tags(*q, entity, tags@, x) by {
                        assert(!listed_tag(
                            *q,
                            entity,
                            tags@[i as int].key@,
                            tags@[i as int].value@,
                            x,
                        ));
                    }
                }
                return none;
            },
        };
        let list = postings_slice(q.taginfo, entity, view.idx);
        let ghost before = selection.terms@;
        selection = selection.and(list);
        proof {
            lemma_found(*q, entity, tags@[i as int], view.idx as int);
            assert forall|k: int| 0 <= k < i + 1 implies found(
                *q,
                entity,
                #[trigger] tags@[k],
                selection.terms@[k]@,
            ) by {
                if k < i {
                    assert(selection.terms@[k] == before[k]);
                }
            }
        }
        i = i + 1;
    }
    let ghost chosen = selection;
    let list = selection.resolve();
    let out = distinct(list);
    proof {
        assert forall|x: u64| #[trigger] out@.contains(x) <==> listed_tags(*q, entity, tags@, x) by {
            lemma_count(list@, x);
            let n = count(list@, x);
            assert(least_count(chosen.terms@, x, n));
            if list@.contains(x) {
                assert forall|k: int| 0 <= k < tags@.len() implies listed_tag(
                    *q,
                    entity,
                    (#[trigger] tags@[k]).key@,
                    tags@[k].value@,
                    x,
                ) by {
                    assert(n <= count(chosen.terms@[k]@, x));
                    lemma_count(chosen.terms@[k]@, x);
                    assert(found(*q, entity, tags@[k], chosen.terms@[k]@));
                }
            }
            if listed_tags(*q, entity, tags@, x) {
                let k = choose|k: int|
                    0 <= k < chosen.terms@.len() && n == count((#[trigger] chosen.terms@[k])@, x);
                lemma_count(chosen.terms@[k]@, x);
                assert(found(*q, entity, tags@[k], chosen.terms@[k]@));
                assert(listed_tag(*q, entity, tags@[k].key@, tags@[k].value@, x));
            }
        }
    }
    out
}

/// `list` holds the entities that are listed under the tag, ascending.
spec fn found(q: TaginfoQuery<'_>, entity: EntityType, tag: TagTerm, list: Seq<u64>) -> bool {
    &&& ascending(list)
    &&& forall|x: u64| #[trigger]
        list.contains(x) <==> listed_tag(q, entity, tag.key@, tag.value@, x)
}

/// The postings of the value that a tag is found at are its entities.
proof fn lemma_found(q: TaginfoQuery<'_>, entity: EntityType, tag: TagTerm, v: int)
    requires
        q.wf(),
        0 <= v < q.taginfo.n_values(),
        q.names_tag(tag.key@, tag.value@, v),
    ensures
        found(q, entity, tag, q.taginfo.postings(entity, v)),
{
    let list = q.taginfo.postings(entity, v);
    assert forall|x: u64| #[trigger] list.contains(x) <==> listed_tag(
        q,
        entity,
        tag.key@,
        tag.value@,
        x,
    ) by {
        if listed_tag(q, entity, tag.key@, tag.value@, x) {
            let w = choose|w: int| #[trigger]
                q.names_tag(tag.key@, tag.value@, w) && q.taginfo.postings(entity, w).contains(x);
            lemma_one_value(q, tag.key@, tag.value@, v, w);
        }
    }
}

/// A tag is found at one value.
pub proof fn lemma_one_value(q: TaginfoQuery<'_>, key: Seq<u8>, value: Seq<u8>, v: int, w: int)
    requires
        q.names_tag(key, value, v),
        q.names_tag(key, value, w),
    ensures
        v == w,
{
    let k = choose|k: int| #[trigger] q.names_key(key, k) && q.names_value(k, value, v);
    let h = choose|h: int| #[trigger] q.names_key(key, h) && q.names_value(h, value, w);
    assert(q.key_string(k) == q.key_string(h));
    assert(k == h);
    assert(q.taginfo.under(k, v) && q.taginfo.under(k, w));
}

/// `list` without repeats.
fn distinct(list: Vec<u64>) -> (out: Vec<u64>)
    requires
        ascending(list@),
    ensures
        strictly_ascending(out@),
        forall|x: u64| #[trigger] out@.contains(x) <==> list@.contains(x),
{
    let mut out: Vec<u64> = Vec::new();
    let mut i: usize = 0;
    while i < list.len()
        invariant
            i <= list@.len(),
            ascending(list@),
            strictly_ascending(out@),
            out@.len() > 0 ==> i > 0 && out@.last() == list@[i - 1],
            out@.len() == 0 ==> i == 0,
            forall|x: u64| #[trigger] out@.contains(x) <==> list@.take(i as int).contains(x),
        decreases list@.len() - i,
    {
        let x: u64 = list[i];
        let ghost before = out@;
        let ghost seen = list@.take(i as int);
        let repeats = i > 0 && list[i - 1] == x;
        if !repeats {
            proof {
                if i > 0 {
                    assert(list@[i - 1] <= list@[i as int]);
                }
            }
            out.push(x);
        }
        proof {
            assert(list@.take(i + 1) =~= seen.push(x));
            assert forall|y: u64| #[trigger] out@.contains(y) <==> list@.take(i + 1).contains(y) by {
                vstd::seq_lib::lemma_seq_contains_after_push(seen, x, y);
                vstd::seq_lib::lemma_seq_contains_after_push(before, x, y);
                assert(before.contains(y) <==> seen.contains(y));
                if repeats {
                    assert(seen[i - 1] == x);
                    assert(seen.contains(x));
                }
            }
        }
        i = i + 1;
    }
    proof {
        assert(list@.take(i as int) =~= list@);
    }
    out
}

/// The entities that are listed under the key, ascending, each once.
fn with_key(q: &TaginfoQuery<'_>, key: &[u8], entity: EntityType) -> (out: Vec<u64>)
    requires
        q.wf(),
    ensures
        strictly_ascending(out@),
        forall|x: u64| #[trigger] out@.contains(x) <==> listed_key(*q, entity, key@, x),
{
    match q.key(key) {
        Some(view) => {
            let out = view.postings_of(entity);
            proof {
                assert forall|x: u64| #[trigger] out@.contains(x) <==> listed_key(
                    *q,
                    entity,
                    key@,
                    x,
                ) by {
                    assert(q.names_key(key@, view.idx as int));
                    if listed_key(*q, entity, key@, x) {
                        let k = choose|k: int| #[trigger]
                            q.names_key(key@, k) && carries_under(q.taginfo, entity, k, x);
                        assert(q.key_string(k) == q.key_string(view.idx as int));
                        assert(k == view.idx);
                    }
                }
            }
            out
        },
        None => Vec::new(),
    }
}

/// What of `list` is listed under each of the keys.
fn with_keys(q: &TaginfoQuery<'_>, keys: &Vec<Vec<u8>>, entity: EntityType, list: Vec<u64>) -> (out:
    Vec<u64>)
    requires
        q.wf(),
        strictly_ascending(list@),
    ensures
        strictly_ascending(out@),
        forall|x: u64| #[trigger]
            out@.contains(x) <==> list@.contains(x) && listed_keys(*q, entity, keys@, x),
{
    let ghost start = list@;
    let mut out = list;
    let mut i: usize = 0;
    while i < keys.len()
        invariant
            q.wf(),
            i <= keys@.len(),
            strictly_ascending(out@),
            forall|x: u64| #[trigger]
                out@.contains(x) <==> start.contains(x) && listed_keys(
                    *q,
                    entity,
                    keys@.take(i as int),
                    x,
                ),
        decreases keys@.len() - i,
    {
        let ghost before = out@;
        let other = with_key(q, keys[i].as_slice(), entity);
        out = intersect(out.as_slice(), other.as_slice());
        proof {
            intersection_is_filter(before, other@, out@);
            assert forall|x: u64| #[trigger] out@.contains(x) <==> start.contains(x) && listed_keys(
                *q,
                entity,
                keys@.take(i + 1),
                x,
            ) by {
                let (fewer, more) = (keys@.take(i as int), keys@.take(i + 1));
                assert(before.contains(x) <==> start.contains(x) && listed_keys(
                    *q,
                    entity,
                    fewer,
                    x,
                ));
                assert(other@.contains(x) <==> listed_key(*q, entity, keys@[i as int]@, x));
                if listed_keys(*q, entity, more, x) {
                    assert(listed_key(*q, entity, more[i as int]@, x));
                    assert forall|k: int| 0 <= k < fewer.len() implies listed_key(
                        *q,
                        entity,
                        (#[trigger] fewer[k])@,
                        x,
                    ) by {
                        assert(more[k] == fewer[k]);
                    }
                }
                if listed_keys(*q, entity, fewer, x) && listed_key(*q, entity, keys@[i as int]@, x) {
                    assert forall|k: int| 0 <= k < more.len() implies listed_key(
                        *q,
                        entity,
                        (#[trigger] more[k])@,
                        x,
                    ) by {
                        if k < i {
                            assert(more[k] == fewer[k]);
                        }
                    }
                }
            }
        }
        i = i + 1;
    }
    proof {
        assert(keys@.take(i as int) =~= keys@);
    }
    out
}

/// Where a key string occurs, it has a first key.
proof fn lemma_first_key(q: TaginfoQuery<'_>, key: Seq<u8>, k: int) -> (first: int)
    requires
        0 <= k < q.taginfo.n_keys(),
        q.key_string(k) == key,
    ensures
        q.names_key(key, first),
    decreases k,
{
    if q.names_key(key, k) {
        k
    } else {
        let h = choose|h: int| 0 <= h < k && #[trigger] q.key_string(h) == key;
        lemma_first_key(q, key, h)
    }
}

/// Where a value string occurs under a key, it has a first value.
proof fn lemma_first_value(q: TaginfoQuery<'_>, k: int, value: Seq<u8>, v: int) -> (first: int)
    requires
        q.taginfo.under(k, v),
        q.value_string(v) == value,
    ensures
        q.names_value(k, value, first),
    decreases v - q.taginfo.keys@[k].value_first_idx,
{
    if q.names_value(k, value, v) {
        v
    } else {
        let w = choose|w: int| #[trigger]
            q.taginfo.under(k, w) && w < v && q.value_string(w) == value;
        lemma_first_value(q, k, value, w)
    }
}

/// In the index of an archive, the entities listed under a tag are those that
/// carry it.
pub proof fn a_tag_lists_its_carriers(
    q: TaginfoQuery<'_>,
    slots: Seq<u64>,
    entity: EntityType,
    key: Seq<u8>,
    value: Seq<u8>,
    x: u64,
)
    requires
        q.parent.wf(),
        q.parent.deduplicated(),
        q.taginfo.indexes(q.parent, slots),
    ensures
        listed_tag(q, entity, key, value, x) <==> x < q.parent.len_of(entity) && has_tag(
            q.parent,
            entity,
            x as int,
            key,
            value,
        ),
{
    if listed_tag(q, entity, key, value, x) {
        let v = choose|v: int| #[trigger]
            q.names_tag(key, value, v) && q.taginfo.postings(entity, v).contains(x);
        let k = choose|k: int| #[trigger] q.names_key(key, k) && q.names_value(k, value, v);
        postings_are_the_carriers(q.parent, q.taginfo, slots, entity, k, v, x);
    }
    if x < q.parent.len_of(entity) && has_tag(q.parent, entity, x as int, key, value) {
        let s = choose|s: u64| #[trigger]
            carries(q.parent, entity, x as int, s) && q.parent.key_string(s as int) == key
                && q.parent.value_string(s as int) == value;
        lemma_slot_in_range(q.parent, entity, x as int, s);
        let (h, w) = every_tag_is_listed(q.parent, q.taginfo, slots, s);
        let k = lemma_first_key(q, key, h);
        a_key_string_names_one_key(q.parent, q.taginfo, slots, h, k);
        let v = lemma_first_value(q, k, value, w);
        assert(q.names_tag(key, value, v));
        postings_are_the_carriers(q.parent, q.taginfo, slots, entity, k, v, x);
    }
}

/// In the index of an archive, the entities listed under a key are those that
/// carry it.
pub proof fn a_key_lists_its_carriers(
    q: TaginfoQuery<'_>,
    slots: Seq<u64>,
    entity: EntityType,
    key: Seq<u8>,
    x: u64,
)
    requires
        q.parent.wf(),
        q.parent.deduplicated(),
        q.taginfo.indexes(q.parent, slots),
    ensures
        listed_key(q, entity, key, x) <==> x < q.parent.len_of(entity) && has_key(
            q.parent,
            entity,
            x as int,
            key,
        ),
{
    if listed_key(q, entity, key, x) {
        let k = choose|k: int| #[trigger]
            q.names_key(key, k) && carries_under(q.taginfo, entity, k, x);
        key_postings_are_the_carriers(q.parent, q.taginfo, slots, entity, k, x);
    }
    if x < q.parent.len_of(entity) && has_key(q.parent, entity, x as int, key) {
        let s = choose|s: u64| #[trigger]
            carries(q.parent, entity, x as int, s) && q.parent.key_string(s as int) == key;
        lemma_slot_in_range(q.parent, entity, x as int, s);
        let (h, w) = every_tag_is_listed(q.parent, q.taginfo, slots, s);
        let k = lemma_first_key(q, key, h);
        key_postings_are_the_carriers(q.parent, q.taginfo, slots, entity, k, x);
    }
}

/// The entity carries every tag and key that the query asks for, and satisfies
/// its spatial constraints.
pub open spec fn meets(query: Query<'_>, entity: EntityType, x: u64) -> bool {
    &&& x < query.archive.osm().len_of(entity)
    &&& forall|i: int|
        0 <= i < query.tags@.len() ==> has_tag(
            &query.archive.osm(),
            entity,
            x as int,
            (#[trigger] query.tags@[i]).key@,
            query.tags@[i].value@,
        )
    &&& forall|i: int|
        0 <= i < query.keys@.len() ==> has_key(
            &query.archive.osm(),
            entity,
            x as int,
            (#[trigger] query.keys@[i])@,
        )
    &&& in_shapes(&query.archive.osm(), entity, query.shapes@, x)
}

/// With the index of its parent, a combined query is the intersection of its
/// constraints: it selects exactly the entities of the parent that carry every
/// tag and every key and satisfy every spatial constraint.
pub proof fn a_query_is_the_intersection_of_its_constraints(
    query: Query<'_>,
    slots: Seq<u64>,
    entity: EntityType,
    x: u64,
)
    requires
        query.archive.osm().wf(),
        query.archive.osm().deduplicated(),
        query.fault(entity) is None,
        query.asks_index() ==> query.archive.extension().taginfo->0.indexes(
            &query.archive.osm(),
            slots,
        ),
    ensures
        query.admits(entity, x) <==> meets(query, entity, x),
{
    let q = query.index();
    let (tags, keys, shapes) = (query.tags@, query.keys@, query.shapes@);
    if query.asks_index() {
        assert forall|i: int| 0 <= i < tags.len() implies (listed_tag(
            q,
            entity,
            (#[trigger] tags[i]).key@,
            tags[i].value@,
            x,
        ) <==> x < q.parent.len_of(entity) && has_tag(
            q.parent,
            entity,
            x as int,
            tags[i].key@,
            tags[i].value@,
        )) by {
            a_tag_lists_its_carriers(q, slots, entity, tags[i].key@, tags[i].value@, x);
        }
        assert forall|i: int| 0 <= i < keys.len() implies (listed_key(
            q,
            entity,
            (#[trigger] keys[i])@,
            x,
        ) <==> x < q.parent.len_of(entity) && has_key(q.parent, entity, x as int, keys[i]@)) by {
            a_key_lists_its_carriers(q, slots, entity, keys[i]@, x);
        }
    }
    if query.admits(entity, x) {
        if tags.len() > 0 {
            assert(listed_tag(q, entity, tags[0].key@, tags[0].value@, x));
        }
        if keys.len() > 0 {
            assert(listed_key(q, entity, keys[0]@, x));
        }
        if shapes.len() > 0 {
            lemma_shape_in_range(q.parent, entity, shapes[0], x as int);
        }
    }
}

} // verus!
