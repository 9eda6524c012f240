//! The extension archive: every index that can accompany a parent archive.
//!
//! An index groups its items in runs: a vector of groups holds, for each group,
//! where its run of items starts, and ends with a sentinel that closes the last
//! run.

use crate::geometry::Point;
use crate::order::cuts;
use crate::osm::Osm;
use crate::query::EntityType;
use crate::strings::string_at;
use crate::Ref;
use vstd::prelude::*;

verus! {

/// A distinct key: its string, how many entities of each type carry it, and
/// where its values and its co-occurring keys start.
#[derive(Clone, Copy, Debug, PartialEq, Eq, Structural)]
pub struct KeyEntry {
    pub key_idx: u64,
    pub count_nodes: u64,
    pub count_ways: u64,
    pub count_relations: u64,
    pub value_first_idx: u64,
    pub combo_first_idx: u64,
}

/// A distinct value of a key: its string, and where its postings and its
/// co-occurring tags start.
#[derive(Clone, Copy, Debug, PartialEq, Eq, Structural)]
pub struct ValueEntry {
    pub value_idx: u64,
    pub node_first_idx: u64,
    pub way_first_idx: u64,
    pub rel_first_idx: u64,
    pub tag_combo_first_idx: u64,
}

/// A key that occurs together with another.
#[derive(Clone, Copy, Debug, PartialEq, Eq, Structural)]
pub struct ComboEntry {
    pub other_key_idx: u64,
    pub together_count: u64,
}

/// A tag that occurs together with another.
#[derive(Clone, Copy, Debug, PartialEq, Eq, Structural)]
pub struct TagComboEntry {
    pub other_key_idx: u64,
    pub other_value_idx: u64,
    pub together_count: u64,
}

/// Precomputed `key=*` postings, one run per key and entity type.
pub struct KeyPostings {
    pub node_range: Vec<u64>,
    pub nodes: Vec<Ref>,
    pub way_range: Vec<u64>,
    pub ways: Vec<Ref>,
    pub relation_range: Vec<u64>,
    pub relations: Vec<Ref>,
}

/// A trigram, and where the values that contain it start.
#[derive(Clone, Copy, Debug, PartialEq, Eq, Structural)]
pub struct TrigramEntry {
    pub gram: u32,
    pub value_first_idx: u64,
}

/// The trigram index over the value strings.
pub struct ValueSearch {
    pub trigrams: Vec<TrigramEntry>,
    pub values: Vec<Ref>,
}

/// The inverted tag index.
pub struct Taginfo {
    pub keys: Vec<KeyEntry>,
    pub values: Vec<ValueEntry>,
    pub node_post: Vec<Ref>,
    pub way_post: Vec<Ref>,
    pub rel_post: Vec<Ref>,
    pub combos: Vec<ComboEntry>,
    pub tag_combos: Vec<TagComboEntry>,
    /// The positions in `values`, each key's run by descending count.
    pub values_by_count: Vec<Ref>,
    pub key_postings: Option<KeyPostings>,
    pub value_search: Option<ValueSearch>,
}

/// Where each key's values start.
pub open spec fn value_first(keys: Seq<KeyEntry>) -> Seq<u64> {
    Seq::new(keys.len(), |i: int| keys[i].value_first_idx)
}

/// Where each key's co-occurring keys start.
pub open spec fn combo_first(keys: Seq<KeyEntry>) -> Seq<u64> {
    Seq::new(keys.len(), |i: int| keys[i].combo_first_idx)
}

/// Where each value's postings start.
pub open spec fn post_first(values: Seq<ValueEntry>, entity: EntityType) -> Seq<u64> {
    Seq::new(
        values.len(),
        |i: int|
            match entity {
                EntityType::Node => values[i].node_first_idx,
                EntityType::Way => values[i].way_first_idx,
                EntityType::Relation => values[i].rel_first_idx,
            },
    )
}

/// Where each value's co-occurring tags start.
pub open spec fn tag_combo_first(values: Seq<ValueEntry>) -> Seq<u64> {
    Seq::new(values.len(), |i: int| values[i].tag_combo_first_idx)
}

/// Where each trigram's values start.
pub open spec fn gram_first(trigrams: Seq<TrigramEntry>) -> Seq<u64> {
    Seq::new(trigrams.len(), |i: int| trigrams[i].value_first_idx)
}

/// Run `g` of `items`.
pub open spec fn run<T>(items: Seq<T>, first: Seq<u64>, g: int) -> Seq<T> {
    items.subrange(first[g] as int, first[g + 1] as int)
}

/// A run that was closed stays as it is when items are appended.
pub(crate) proof fn lemma_append_run<T>(
    items: Seq<T>,
    first: Seq<u64>,
    more: Seq<T>,
    n: int,
    items2: Seq<T>,
    first2: Seq<u64>,
)
    requires
        cuts(first, n, items.len() as int),
        items2 == items + more,
        items2.len() <= u64::MAX,
        first2 == first.push(items2.len() as u64),
    ensures
        cuts(first2, n + 1, items2.len() as int),
        forall|g: int| 0 <= g < n ==> #[trigger] run(items2, first2, g) == run(items, first, g),
        run(items2, first2, n) == more,
{
    assert(first2[0] == first[0]);
    assert(first2[n] == first[n]);
    assert forall|i: int, j: int| 0 <= i <= j <= n + 1 implies first2[i] <= first2[j] by {
        if j == n + 1 && i <= n {
            assert(first2[i] == first[i]);
            assert(first[i] <= first[n]);
        }
    }
    assert forall|g: int| 0 <= g < n implies #[trigger] run(items2, first2, g) == run(
        items,
        first,
        g,
    ) by {
        assert(first2[g] == first[g] && first2[g + 1] == first[g + 1]);
        assert(first[g + 1] <= first[n]);
        assert(run(items2, first2, g) =~= run(items, first, g));
    }
    assert(run(items2, first2, n) =~= more);
}

/// A list of runs, one per group, laid end to end.
pub struct Runs {
    pub first: Vec<u64>,
    pub items: Vec<u64>,
}

impl Runs {
    /// The runs are well formed.
    pub open spec fn wf(&self, groups: int) -> bool {
        cuts(self.first@, groups, self.items.len() as int)
    }

    pub fn new() -> (out: Self)
        ensures
            out.wf(0),
    {
        let mut first: Vec<u64> = Vec::new();
        first.push(0);
        Runs { first, items: Vec::new() }
    }

    /// Append a run.
    pub(crate) fn push_run(&mut self, list: &Vec<u64>, Ghost(n): Ghost<int>)
        requires
            old(self).wf(n),
        ensures
            final(self).wf(n + 1),
            forall|g: int|
                0 <= g < n ==> #[trigger] run(final(self).items@, final(self).first@, g) == run(
                    old(self).items@,
                    old(self).first@,
                    g,
                ),
            run(final(self).items@, final(self).first@, n) == list@,
            final(self).first@ == old(self).first@.push(final(self).items.len() as u64),
            final(self).items.len() == old(self).items.len() + list.len(),
    {
        let ghost before = self.items@;
        let ghost first0 = self.first@;
        let mut i: usize = 0;
        while i < list.len()
            invariant
                i <= list@.len(),
                self.items@ == before + list@.take(i as int),
                self.first@ == first0,
            decreases list@.len() - i,
        {
            self.items.push(list[i]);
            proof {
                assert(self.items@ =~= before + list@.take(i + 1));
            }
            i = i + 1;
        }
        let total: u64 = self.items.len() as u64;
        self.first.push(total);
        proof {
            assert(list@.take(i as int) =~= list@);
            lemma_append_run(
                before,
                first0,
                list@,
                n,
                self.items@,
                self.first@,
            );
        }
    }
}

impl KeyEntry {
    /// How many entities of a type carry the key.
    pub open spec fn count_of(&self, entity: EntityType) -> u64 {
        match entity {
            EntityType::Node => self.count_nodes,
            EntityType::Way => self.count_ways,
            EntityType::Relation => self.count_relations,
        }
    }
}

impl Taginfo {
    /// The number of keys.
    pub open spec fn n_keys(&self) -> int {
        self.keys.len() - 1
    }

    /// The number of values.
    pub open spec fn n_values(&self) -> int {
        self.values.len() - 1
    }

    /// The postings of one entity type.
    pub open spec fn posts(&self, entity: EntityType) -> Seq<u64> {
        match entity {
            EntityType::Node => self.node_post@,
            EntityType::Way => self.way_post@,
            EntityType::Relation => self.rel_post@,
        }
    }

    /// The postings of value `v`.
    pub open spec fn postings(&self, entity: EntityType, v: int) -> Seq<u64> {
        run(self.posts(entity), post_first(self.values@, entity), v)
    }

    /// Value `v` belongs to key `k`.
    pub open spec fn under(&self, k: int, v: int) -> bool {
        self.keys@[k].value_first_idx <= v < self.keys@[k + 1].value_first_idx
    }

    /// The string of key `k`.
    pub open spec fn key_string(&self, parent: &Osm, k: int) -> Seq<u8> {
        string_at(parent.stringtable@, self.keys@[k].key_idx as int)
    }

    /// The string of value `v`.
    pub open spec fn value_string(&self, parent: &Osm, v: int) -> Seq<u8> {
        string_at(parent.stringtable@, self.values@[v].value_idx as int)
    }
}

/// Reverse references: for each node, the ways that use it, and for each
/// entity, the relations that contain it.
pub struct Backrefs {
    pub node_ways_range: Vec<u64>,
    pub ways_of_node: Vec<Ref>,
    pub node_rels_range: Vec<u64>,
    pub rels_of_node: Vec<Ref>,
    pub way_rels_range: Vec<u64>,
    pub rels_of_way: Vec<Ref>,
    pub rel_rels_range: Vec<u64>,
    pub rels_of_rel: Vec<Ref>,
}

/// The run that `ranges` cuts out of `items` for `idx`: empty where there is no
/// such run.
pub open spec fn sliced<T>(ranges: Seq<u64>, items: Seq<T>, idx: int) -> Seq<T> {
    if 0 <= idx && idx + 1 < ranges.len() && ranges[idx] <= ranges[idx + 1] <= items.len() {
        run(items, ranges, idx)
    } else {
        Seq::empty()
    }
}

/// Slice `items` by the range stored at `idx`; the next entry closes it, so a
/// trailing sentinel must close the last real range.
pub fn slice_range<'a, T>(ranges: &[u64], items: &'a [T], idx: usize) -> (out: &'a [T])
    ensures
        out@ == sliced(ranges@, items@, idx as int),
{
    let n: usize = ranges.len();
    if n > 0 && idx < n - 1 {
        let (start, end): (u64, u64) = (ranges[idx], ranges[idx + 1]);
        if start <= end && end <= items.len() as u64 {
            return vstd::slice::slice_subrange(items, start as usize, end as usize);
        }
    }
    let out = vstd::slice::slice_subrange(items, 0, 0);
    proof {
        assert(out@ =~= Seq::empty());
    }
    out
}

/// Precomputed relation rings: each relation's polygons, each polygon's rings,
/// each ring's nodes.
pub struct Multipolygons {
    pub rel_polygon_range: Vec<u64>,
    pub polygon_ring_range: Vec<u64>,
    pub ring_node_range: Vec<u64>,
    pub nodes: Vec<Ref>,
}

/// A coastline ring: whether its interior is land, and where its nodes start.
#[derive(Clone, Copy, Debug, PartialEq, Eq, Structural)]
pub struct CoastlineRingEntry {
    pub is_land: bool,
    pub node_first_idx: u64,
}

/// Precomputed coastline rings.
pub struct Coastline {
    pub rings: Vec<CoastlineRingEntry>,
    pub nodes: Vec<Ref>,
}

/// A land polygon ring: whether it is land or a hole, and where its coordinates
/// start.
#[derive(Clone, Copy, Debug, PartialEq, Eq, Structural)]
pub struct LandRingEntry {
    pub is_land: bool,
    pub coord_first_idx: u64,
}

/// Imported land polygons, with their own coordinates.
pub struct LandPolygons {
    pub rings: Vec<LandRingEntry>,
    pub coords: Vec<Point>,
}

/// A fingerprint of the parent that an extension archive was built for.
#[derive(Clone, Copy, Debug, PartialEq, Eq, Structural)]
pub struct ExtHeader {
    pub parent_schema_hash: u64,
    pub parent_node_count: u64,
    pub parent_way_count: u64,
    pub parent_relation_count: u64,
    pub parent_tags_count: u64,
    pub parent_stringtable_len: u64,
    pub parent_replication_sequence_number: i64,
    /// Where the extension archive's own string table names its builder.
    pub builder_idx: u64,
}

/// An extension archive.
pub struct Ext {
    pub header: ExtHeader,
    pub stringtable: Vec<u8>,
    pub taginfo: Option<Taginfo>,
    pub backrefs: Option<Backrefs>,
    pub multipolygons: Option<Multipolygons>,
    pub coastline: Option<Coastline>,
    pub land_polygons: Option<LandPolygons>,
}

} // verus!
