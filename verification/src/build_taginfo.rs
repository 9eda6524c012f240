//! Build the `Taginfo` index: inverted tag index and histograms.
//!
//! The parent's `tags` vector is already deduplicated, so a tag *slot* is a
//! position in it. The dictionary fixes the output position of every slot, the
//! postings are laid down in that order, and keys and values are written out
//! with the offsets of their runs.

use crate::build_search::{build_key_postings, build_value_search, build_values_by_count};
use crate::cooccurrences::{is_key_combos, is_tag_combos, Combo, Cooccurrences, TagCombo};
use crate::dictionary::Dictionary;
use crate::ext::{
    combo_first, lemma_append_run, post_first, run, tag_combo_first, value_first, ComboEntry,
    KeyEntry, TagComboEntry, Taginfo, ValueEntry,
};
use crate::order::{cuts, in_run};
use crate::osm::Osm;
use crate::postings::{holds_postings, positions, postings_of_type, TypeCsr};
use crate::query::EntityType;
use crate::taginfo_index::{
    combo_entry, is_postings, key_le, lemma_in_range, lemma_same_index, lemma_same_ranks,
    lemma_same_search, lemma_same_stored, lemma_shaped, lemma_wf, lists_key_combos,
    lists_tag_combos, tag_combo_entry, value_le,
};
use crate::BuildOptions;
use vstd::prelude::*;

verus! {

/// The three postings indexes fit the dictionary.
spec fn same_shape(n: int, nodes: TypeCsr, ways: TypeCsr, rels: TypeCsr) -> bool {
    &&& cuts(nodes.offsets@, n, nodes.posts.len() as int)
    &&& cuts(ways.offsets@, n, ways.posts.len() as int)
    &&& cuts(rels.offsets@, n, rels.posts.len() as int)
}

/// The offsets of value `v` are those of the postings indexes.
spec fn value_at(e: ValueEntry, v: int, nodes: TypeCsr, ways: TypeCsr, rels: TypeCsr) -> bool {
    &&& e.node_first_idx == nodes.offsets@[v]
    &&& e.way_first_idx == ways.offsets@[v]
    &&& e.rel_first_idx == rels.offsets@[v]
}

/// Append the entries of co-occurring tags.
fn append_tag_combos(parent: &Osm, row: &Vec<TagCombo>, out: &mut Vec<TagComboEntry>)
    requires
        forall|i: int| 0 <= i < row@.len() ==> (#[trigger] row@[i]).other_slot < parent.tags.len(),
    ensures
        final(out)@ == old(out)@ + row@.map_values(|c: TagCombo| tag_combo_entry(parent, c)),
{
    let ghost before = out@;
    let ghost entries = row@.map_values(|c: TagCombo| tag_combo_entry(parent, c));
    let mut i: usize = 0;
    while i < row.len()
        invariant
            i <= row@.len(),
            forall|k: int|
                0 <= k < row@.len() ==> (#[trigger] row@[k]).other_slot < parent.tags.len(),
            entries == row@.map_values(|c: TagCombo| tag_combo_entry(parent, c)),
            out@ == before + entries.take(i as int),
        decreases row@.len() - i,
    {
        let other = parent.tags[row[i].other_slot as usize];
        out.push(
            TagComboEntry {
                other_key_idx: other.key_idx,
                other_value_idx: other.value_idx,
                together_count: row[i].together_count,
            },
        );
        proof {
            assert(out@ =~= before + entries.take(i + 1));
        }
        i = i + 1;
    }
    proof {
        assert(entries.take(i as int) =~= entries);
    }
}

/// Append the entries of co-occurring keys.
fn append_combos(row: &Vec<Combo>, out: &mut Vec<ComboEntry>)
    ensures
        final(out)@ == old(out)@ + row@.map_values(|c: Combo| combo_entry(c)),
{
    let ghost before = out@;
    let ghost entries = row@.map_values(|c: Combo| combo_entry(c));
    let mut i: usize = 0;
    while i < row.len()
        invariant
            i <= row@.len(),
            entries == row@.map_values(|c: Combo| combo_entry(c)),
            out@ == before + entries.take(i as int),
        decreases row@.len() - i,
    {
        out.push(
            ComboEntry {
                other_key_idx: row[i].other_key_idx,
                together_count: row[i].together_count,
            },
        );
        proof {
            assert(out@ =~= before + entries.take(i + 1));
        }
        i = i + 1;
    }
    proof {
        assert(entries.take(i as int) =~= entries);
    }
}

/// What the tag co-occurrence entries of value `v` must be.
spec fn tag_row(parent: &Osm, combos: Option<Cooccurrences>, slot: u64) -> Seq<TagComboEntry> {
    match combos {
        Some(c) => c.by_tag@[slot as int]@.map_values(|t: TagCombo| tag_combo_entry(parent, t)),
        None => Seq::empty(),
    }
}

/// What the key co-occurrence entries of key `k` must be.
spec fn key_row(combos: Option<Cooccurrences>, k: int) -> Seq<ComboEntry> {
    match combos {
        Some(c) => c.by_key@[k]@.map_values(|t: Combo| combo_entry(t)),
        None => Seq::empty(),
    }
}

/// Emit the values in dictionary order, with the tags that occur with each, and
/// close the ranges with a sentinel.
fn write_values(
    parent: &Osm,
    dict: &Dictionary,
    nodes: &TypeCsr,
    ways: &TypeCsr,
    rels: &TypeCsr,
    combos: &Option<Cooccurrences>,
) -> (out: (Vec<ValueEntry>, Vec<TagComboEntry>))
    requires
        parent.wf(),
        dict.describes(parent),
        same_shape(dict.slots.len() as int, *nodes, *ways, *rels),
        combos matches Some(c) ==> c.describes(parent, dict.keys@),
    ensures
        out.0.len() == dict.slots.len() + 1,
        forall|v: int|
            0 <= v < dict.slots.len() ==> (#[trigger] out.0@[v]).value_idx
                == parent.tags@[dict.slots@[v] as int].value_idx,
        forall|v: int|
            0 <= v <= dict.slots.len() ==> value_at(#[trigger] out.0@[v], v, *nodes, *ways, *rels),
        cuts(tag_combo_first(out.0@), dict.slots.len() as int, out.1.len() as int),
        forall|v: int|
            0 <= v < dict.slots.len() ==> #[trigger] run(out.1@, tag_combo_first(out.0@), v)
                == tag_row(parent, *combos, dict.slots@[v]),
        combos is None ==> out.1.len() == 0,
{
    let mut values: Vec<ValueEntry> = Vec::new();
    let mut tag_combos: Vec<TagComboEntry> = Vec::new();
    let n: usize = dict.slots.len();
    let ghost mut first: Seq<u64> = seq![0u64];
    let mut p: usize = 0;
    while p < n
        invariant
            parent.wf(),
            dict.describes(parent),
            n == dict.slots.len(),
            p <= n,
            same_shape(n as int, *nodes, *ways, *rels),
            combos matches Some(c) ==> c.describes(parent, dict.keys@),
            values.len() == p,
            forall|v: int|
                0 <= v < p ==> (#[trigger] values@[v]).value_idx
                    == parent.tags@[dict.slots@[v] as int].value_idx && value_at(
                    values@[v],
                    v,
                    *nodes,
                    *ways,
                    *rels,
                ) && values@[v].tag_combo_first_idx == first[v],
            cuts(first, p as int, tag_combos.len() as int),
            forall|v: int|
                0 <= v < p ==> #[trigger] run(tag_combos@, first, v) == tag_row(
                    parent,
                    *combos,
                    dict.slots@[v],
                ),
            combos is None ==> tag_combos.len() == 0,
        decreases n - p,
    {
        let t: u64 = dict.slots[p];
        values.push(
            ValueEntry {
                value_idx: parent.tags[t as usize].value_idx,
                node_first_idx: nodes.offsets[p],
                way_first_idx: ways.offsets[p],
                rel_first_idx: rels.offsets[p],
                tag_combo_first_idx: tag_combos.len() as u64,
            },
        );
        let ghost before = tag_combos@;
        let ghost first0 = first;
        match combos {
            Some(c) => {
                proof {
                    assert(is_tag_combos(parent, t, c.by_tag@[t as int]@));
                }
                append_tag_combos(parent, &c.by_tag[t as usize], &mut tag_combos);
            },
            None => {},
        }
        proof {
            let more = tag_row(parent, *combos, t);
            assert(tag_combos@ =~= before + more);
            assert(tag_combos.len() == tag_combos@.len());
            first = first.push(tag_combos@.len() as u64);
            lemma_append_run(before, first0, more, p as int, tag_combos@, first);
        }
        p = p + 1;
    }
    values.push(
        ValueEntry {
            value_idx: 0,
            node_first_idx: nodes.offsets[n],
            way_first_idx: ways.offsets[n],
            rel_first_idx: rels.offsets[n],
            tag_combo_first_idx: tag_combos.len() as u64,
        },
    );
    proof {
        assert(tag_combo_first(values@) =~= first);
    }
    (values, tag_combos)
}

/// Emit the keys in dictionary order, with their totals and the keys that occur
/// with each, and close the ranges with a sentinel.
fn write_keys(
    parent: &Osm,
    dict: &Dictionary,
    nodes: &TypeCsr,
    ways: &TypeCsr,
    rels: &TypeCsr,
    combos: &Option<Cooccurrences>,
) -> (out: (Vec<KeyEntry>, Vec<ComboEntry>))
    requires
        dict.describes(parent),
        same_shape(dict.slots.len() as int, *nodes, *ways, *rels),
        combos matches Some(c) ==> c.describes(parent, dict.keys@),
    ensures
        out.0.len() == dict.keys.len() + 1,
        forall|k: int| 0 <= k < dict.keys.len() ==> (#[trigger] out.0@[k]).key_idx == dict.keys@[k],
        forall|k: int|
            0 <= k <= dict.keys.len() ==> (#[trigger] out.0@[k]).value_first_idx == dict.first@[k],
        forall|k: int|
            0 <= k < dict.keys.len() ==> key_totals(#[trigger] out.0@[k], dict, k, *nodes, *ways, *rels),
        cuts(combo_first(out.0@), dict.keys.len() as int, out.1.len() as int),
        forall|k: int|
            0 <= k < dict.keys.len() ==> #[trigger] run(out.1@, combo_first(out.0@), k) == key_row(
                *combos,
                k,
            ),
        combos is None ==> out.1.len() == 0,
{
    let mut keys: Vec<KeyEntry> = Vec::new();
    let mut list: Vec<ComboEntry> = Vec::new();
    let n: usize = dict.keys.len();
    let ghost mut first: Seq<u64> = seq![0u64];
    let mut g: usize = 0;
    while g < n
        invariant
            dict.describes(parent),
            n == dict.keys.len(),
            g <= n,
            same_shape(dict.slots.len() as int, *nodes, *ways, *rels),
            combos matches Some(c) ==> c.describes(parent, dict.keys@),
            keys.len() == g,
            forall|k: int|
                0 <= k < g ==> (#[trigger] keys@[k]).key_idx == dict.keys@[k]
                    && keys@[k].value_first_idx == dict.first@[k] && keys@[k].combo_first_idx
                    == first[k] && key_totals(keys@[k], dict, k, *nodes, *ways, *rels),
            cuts(first, g as int, list.len() as int),
            forall|k: int|
                0 <= k < g ==> #[trigger] run(list@, first, k) == key_row(*combos, k),
            combos is None ==> list.len() == 0,
        decreases n - g,
    {
        let (lo, hi): (usize, usize) = (dict.first[g] as usize, dict.first[g + 1] as usize);
        proof {
            assert(dict.first@[g as int] <= dict.first@[g + 1]);
            assert(dict.first@[g + 1] <= dict.first@[n as int]);
            assert(dict.first@[g + 1] <= dict.slots.len());
            assert(nodes.offsets@[lo as int] <= nodes.offsets@[hi as int]);
            assert(ways.offsets@[lo as int] <= ways.offsets@[hi as int]);
            assert(rels.offsets@[lo as int] <= rels.offsets@[hi as int]);
        }
        keys.push(
            KeyEntry {
                key_idx: dict.keys[g],
                count_nodes: nodes.offsets[hi] - nodes.offsets[lo],
                count_ways: ways.offsets[hi] - ways.offsets[lo],
                count_relations: rels.offsets[hi] - rels.offsets[lo],
                value_first_idx: dict.first[g],
                combo_first_idx: list.len() as u64,
            },
        );
        let ghost before = list@;
        let ghost first0 = first;
        match combos {
            Some(c) => {
                append_combos(&c.by_key[g], &mut list);
            },
            None => {},
        }
        proof {
            let more = key_row(*combos, g as int);
            assert(list@ =~= before + more);
            assert(list.len() == list@.len());
            first = first.push(list@.len() as u64);
            lemma_append_run(before, first0, more, g as int, list@, first);
        }
        g = g + 1;
    }
    keys.push(
        KeyEntry {
            key_idx: 0,
            count_nodes: 0,
            count_ways: 0,
            count_relations: 0,
            value_first_idx: dict.first[n],
            combo_first_idx: list.len() as u64,
        },
    );
    proof {
        assert(combo_first(keys@) =~= first);
    }
    (keys, list)
}

/// The totals of key `k` are those of its slots.
spec fn key_totals(
    e: KeyEntry,
    dict: &Dictionary,
    k: int,
    nodes: TypeCsr,
    ways: TypeCsr,
    rels: TypeCsr,
) -> bool {
    let (lo, hi) = (dict.first@[k] as int, dict.first@[k + 1] as int);
    &&& e.count_nodes == nodes.offsets@[hi] - nodes.offsets@[lo]
    &&& e.count_ways == ways.offsets@[hi] - ways.offsets@[lo]
    &&& e.count_relations == rels.offsets@[hi] - rels.offsets@[lo]
}

/// Emit keys, values and postings in dictionary order.
fn write(
    parent: &Osm,
    dict: Dictionary,
    nodes: TypeCsr,
    ways: TypeCsr,
    rels: TypeCsr,
    combos: Option<Cooccurrences>,
) -> (out: Taginfo)
    requires
        parent.wf(),
        dict.describes(parent),
        holds_postings(parent, EntityType::Node, dict.slots@, nodes),
        holds_postings(parent, EntityType::Way, dict.slots@, ways),
        holds_postings(parent, EntityType::Relation, dict.slots@, rels),
        combos matches Some(c) ==> c.describes(parent, dict.keys@),
    ensures
        out.indexes(parent, dict.slots@),
        out.indexes_combos(parent, dict.slots@, combos is Some),
        out.key_postings is None,
        out.value_search is None,
        out.values_by_count.len() == 0,
{
    let (values, tag_combos) = write_values(parent, &dict, &nodes, &ways, &rels, &combos);
    let (keys, key_combos) = write_keys(parent, &dict, &nodes, &ways, &rels, &combos);
    let out = Taginfo {
        keys,
        values,
        node_post: nodes.posts,
        way_post: ways.posts,
        rel_post: rels.posts,
        combos: key_combos,
        tag_combos,
        values_by_count: Vec::new(),
        key_postings: None,
        value_search: None,
    };
    proof {
        lemma_written(parent, dict, nodes, ways, rels, out);
        lemma_written_combos(parent, dict, combos, out);
    }
    out
}

proof fn lemma_written(
    parent: &Osm,
    dict: Dictionary,
    nodes: TypeCsr,
    ways: TypeCsr,
    rels: TypeCsr,
    out: Taginfo,
)
    requires
        dict.describes(parent),
        holds_postings(parent, EntityType::Node, dict.slots@, nodes),
        holds_postings(parent, EntityType::Way, dict.slots@, ways),
        holds_postings(parent, EntityType::Relation, dict.slots@, rels),
        out.node_post == nodes.posts,
        out.way_post == ways.posts,
        out.rel_post == rels.posts,
        out.values.len() == dict.slots.len() + 1,
        forall|v: int|
            0 <= v < dict.slots.len() ==> (#[trigger] out.values@[v]).value_idx
                == parent.tags@[dict.slots@[v] as int].value_idx,
        forall|v: int|
            0 <= v <= dict.slots.len() ==> value_at(#[trigger] out.values@[v], v, nodes, ways, rels),
        out.keys.len() == dict.keys.len() + 1,
        forall|k: int|
            0 <= k < dict.keys.len() ==> (#[trigger] out.keys@[k]).key_idx == dict.keys@[k],
        forall|k: int|
            0 <= k <= dict.keys.len() ==> (#[trigger] out.keys@[k]).value_first_idx
                == dict.first@[k],
        forall|k: int|
            0 <= k < dict.keys.len() ==> key_totals(
                #[trigger] out.keys@[k],
                &dict,
                k,
                nodes,
                ways,
                rels,
            ),
    ensures
        out.indexes(parent, dict.slots@),
{
    assert(value_first(out.keys@) =~= dict.first@);
    assert(post_first(out.values@, EntityType::Node) =~= nodes.offsets@);
    assert(post_first(out.values@, EntityType::Way) =~= ways.offsets@);
    assert(post_first(out.values@, EntityType::Relation) =~= rels.offsets@);
    lemma_written_keys(parent, dict, out);
    lemma_written_values(parent, dict, out);
    lemma_written_places(parent, dict, out);
    lemma_written_postings(parent, EntityType::Node, dict.slots@, nodes, out);
    lemma_written_postings(parent, EntityType::Way, dict.slots@, ways, out);
    lemma_written_postings(parent, EntityType::Relation, dict.slots@, rels, out);
    assert forall|k: int| 0 <= k < out.n_keys() implies #[trigger] key_totals(
        out.keys@[k],
        &dict,
        k,
        nodes,
        ways,
        rels,
    ) by {
        assert(out.keys@[k].key_idx == dict.keys@[k]);
    }
    lemma_written_posts(parent, dict, nodes, ways, rels, out);
}

/// The keys are in order, and each has values.
proof fn lemma_written_keys(parent: &Osm, dict: Dictionary, out: Taginfo)
    requires
        dict.describes(parent),
        out.keys.len() == dict.keys.len() + 1,
        forall|k: int|
            0 <= k < dict.keys.len() ==> (#[trigger] out.keys@[k]).key_idx == dict.keys@[k],
        value_first(out.keys@) == dict.first@,
    ensures
        forall|k: int|
            0 <= k < out.n_keys() ==> (#[trigger] out.keys@[k]).value_first_idx < out.keys@[k
                + 1].value_first_idx,
        forall|k: int, h: int|
            0 <= k < h < out.n_keys() ==> #[trigger] key_le(
                parent,
                out.keys@[k].key_idx,
                out.keys@[h].key_idx,
            ) && out.keys@[k].key_idx != out.keys@[h].key_idx,
{
    assert forall|k: int| 0 <= k < out.n_keys() implies (#[trigger] out.keys@[k]).value_first_idx
        < out.keys@[k + 1].value_first_idx by {
        let first = value_first(out.keys@);
        assert(first[k] == out.keys@[k].value_first_idx);
        assert(first[k + 1] == out.keys@[k + 1].value_first_idx);
        assert(dict.first@[k] < dict.first@[k + 1]);
    }
    assert forall|k: int, h: int| 0 <= k < h < out.n_keys() implies #[trigger] key_le(
        parent,
        out.keys@[k].key_idx,
        out.keys@[h].key_idx,
    ) && out.keys@[k].key_idx != out.keys@[h].key_idx by {
        assert(key_le(parent, dict.keys@[k], dict.keys@[h]));
    }
}

/// The values of each key have its slots, in order.
proof fn lemma_written_values(parent: &Osm, dict: Dictionary, out: Taginfo)
    requires
        dict.describes(parent),
        out.keys.len() == dict.keys.len() + 1,
        forall|k: int|
            0 <= k < dict.keys.len() ==> (#[trigger] out.keys@[k]).key_idx == dict.keys@[k],
        value_first(out.keys@) == dict.first@,
    ensures
        forall|k: int, v: int|
            0 <= k < out.n_keys() && #[trigger] out.under(k, v)
                ==> parent.tags@[dict.slots@[v] as int].key_idx == out.keys@[k].key_idx,
        forall|k: int, v: int, w: int|
            0 <= k < out.n_keys() && #[trigger] out.under(k, v) && #[trigger] out.under(k, w) && v
                <= w ==> value_le(parent, dict.slots@[v], dict.slots@[w]),
{
    let first = value_first(out.keys@);
    assert forall|k: int, v: int| 0 <= k < out.n_keys() && #[trigger] out.under(k, v) implies in_run(
        dict.first@,
        k,
        v,
    ) && parent.tags@[dict.slots@[v] as int].key_idx == out.keys@[k].key_idx by {
        assert(first[k] == out.keys@[k].value_first_idx);
        assert(first[k + 1] == out.keys@[k + 1].value_first_idx);
        assert(in_run(dict.first@, k, v));
    }
    assert forall|k: int, v: int, w: int|
        0 <= k < out.n_keys() && #[trigger] out.under(k, v) && #[trigger] out.under(k, w) && v
            <= w implies value_le(parent, dict.slots@[v], dict.slots@[w]) by {
        assert(in_run(dict.first@, k, v));
        assert(in_run(dict.first@, k, w));
    }
}

/// Every slot has its value, under its key.
proof fn lemma_written_places(parent: &Osm, dict: Dictionary, out: Taginfo)
    requires
        dict.describes(parent),
        out.keys.len() == dict.keys.len() + 1,
        out.values.len() == dict.slots.len() + 1,
        forall|v: int|
            0 <= v < dict.slots.len() ==> (#[trigger] out.values@[v]).value_idx
                == parent.tags@[dict.slots@[v] as int].value_idx,
        value_first(out.keys@) == dict.first@,
        forall|k: int|
            0 <= k < out.n_keys() ==> (#[trigger] out.keys@[k]).value_first_idx < out.keys@[k
                + 1].value_first_idx,
        forall|k: int, h: int|
            0 <= k < h < out.n_keys() ==> #[trigger] key_le(
                parent,
                out.keys@[k].key_idx,
                out.keys@[h].key_idx,
            ) && out.keys@[k].key_idx != out.keys@[h].key_idx,
        forall|k: int, v: int|
            0 <= k < out.n_keys() && #[trigger] out.under(k, v)
                ==> parent.tags@[dict.slots@[v] as int].key_idx == out.keys@[k].key_idx,
        forall|k: int, v: int, w: int|
            0 <= k < out.n_keys() && #[trigger] out.under(k, v) && #[trigger] out.under(k, w) && v
                <= w ==> value_le(parent, dict.slots@[v], dict.slots@[w]),
    ensures
        out.places(parent, dict.slots@),
        cuts(value_first(out.keys@), out.n_keys(), out.n_values()),
{
    reveal(Taginfo::places);
}

/// The postings of one type are those of the slots.
proof fn lemma_written_postings(
    parent: &Osm,
    entity: EntityType,
    slots: Seq<u64>,
    csr: TypeCsr,
    out: Taginfo,
)
    requires
        holds_postings(parent, entity, slots, csr),
        out.posts(entity) == csr.posts@,
        out.values.len() == slots.len() + 1,
        post_first(out.values@, entity) == csr.offsets@,
    ensures
        cuts(post_first(out.values@, entity), out.n_values(), out.posts(entity).len() as int),
        forall|v: int|
            0 <= v < out.n_values() ==> is_postings(
                parent,
                entity,
                slots[v],
                #[trigger] out.postings(entity, v),
            ),
{
    assert forall|v: int| 0 <= v < out.n_values() implies is_postings(
        parent,
        entity,
        slots[v],
        #[trigger] out.postings(entity, v),
    ) by {
        assert(is_postings(parent, entity, slots[v], run(csr.posts@, csr.offsets@, v)));
    }
}

/// Every value has its postings, every key their total.
proof fn lemma_written_posts(
    parent: &Osm,
    dict: Dictionary,
    nodes: TypeCsr,
    ways: TypeCsr,
    rels: TypeCsr,
    out: Taginfo,
)
    requires
        written_type(parent, EntityType::Node, dict.slots@, nodes, out),
        written_type(parent, EntityType::Way, dict.slots@, ways, out),
        written_type(parent, EntityType::Relation, dict.slots@, rels, out),
        out.keys.len() == dict.keys.len() + 1,
        value_first(out.keys@) == dict.first@,
        forall|k: int|
            0 <= k < out.n_keys() ==> #[trigger] key_totals(
                out.keys@[k],
                &dict,
                k,
                nodes,
                ways,
                rels,
            ),
    ensures
        out.posts_all(parent, dict.slots@),
        forall|entity: EntityType|
            cuts(
                #[trigger] post_first(out.values@, entity),
                out.n_values(),
                out.posts(entity).len() as int,
            ),
{
    reveal(Taginfo::posts_all);
    let slots = dict.slots@;
    assert forall|entity: EntityType| cuts(
        #[trigger] post_first(out.values@, entity),
        out.n_values(),
        out.posts(entity).len() as int,
    ) by {
        lemma_any_type(parent, entity, slots, nodes, ways, rels, out);
    }
    assert forall|entity: EntityType, v: int| 0 <= v < out.n_values() implies is_postings(
        parent,
        entity,
        slots[v],
        #[trigger] out.postings(entity, v),
    ) by {
        lemma_any_type(parent, entity, slots, nodes, ways, rels, out);
    }
    assert forall|entity: EntityType, k: int| 0 <= k < out.n_keys() implies #[trigger] out.keys@[k].count_of(
        entity,
    ) == post_first(out.values@, entity)[out.keys@[k + 1].value_first_idx as int] - post_first(
        out.values@,
        entity,
    )[out.keys@[k].value_first_idx as int] by {
        lemma_any_type(parent, entity, slots, nodes, ways, rels, out);
        assert(key_totals(out.keys@[k], &dict, k, nodes, ways, rels));
        let first = value_first(out.keys@);
        assert(first[k] == out.keys@[k].value_first_idx);
        assert(first[k + 1] == out.keys@[k + 1].value_first_idx);
        match entity {
            EntityType::Node => {},
            EntityType::Way => {},
            EntityType::Relation => {},
        }
    }
}

/// The postings of one type are written.
spec fn written_type(
    parent: &Osm,
    entity: EntityType,
    slots: Seq<u64>,
    csr: TypeCsr,
    out: Taginfo,
) -> bool {
    &&& post_first(out.values@, entity) == csr.offsets@
    &&& cuts(post_first(out.values@, entity), out.n_values(), out.posts(entity).len() as int)
    &&& forall|v: int|
        0 <= v < out.n_values() ==> is_postings(
            parent,
            entity,
            slots[v],
            #[trigger] out.postings(entity, v),
        )
}

/// What is written of each type is written of any.
proof fn lemma_any_type(
    parent: &Osm,
    entity: EntityType,
    slots: Seq<u64>,
    nodes: TypeCsr,
    ways: TypeCsr,
    rels: TypeCsr,
    out: Taginfo,
)
    requires
        written_type(parent, EntityType::Node, slots, nodes, out),
        written_type(parent, EntityType::Way, slots, ways, out),
        written_type(parent, EntityType::Relation, slots, rels, out),
    ensures
        cuts(post_first(out.values@, entity), out.n_values(), out.posts(entity).len() as int),
        forall|v: int|
            0 <= v < out.n_values() ==> is_postings(
                parent,
                entity,
                slots[v],
                #[trigger] out.postings(entity, v),
            ),
        post_first(out.values@, entity) == match entity {
            EntityType::Node => nodes.offsets@,
            EntityType::Way => ways.offsets@,
            EntityType::Relation => rels.offsets@,
        },
{
    match entity {
        EntityType::Node => {},
        EntityType::Way => {},
        EntityType::Relation => {},
    }
}

proof fn lemma_written_combos(
    parent: &Osm,
    dict: Dictionary,
    combos: Option<Cooccurrences>,
    out: Taginfo,
)
    requires
        dict.describes(parent),
        out.keys.len() == dict.keys.len() + 1,
        out.values.len() == dict.slots.len() + 1,
        combos matches Some(c) ==> c.describes(parent, dict.keys@),
        forall|k: int|
            0 <= k < dict.keys.len() ==> (#[trigger] out.keys@[k]).key_idx == dict.keys@[k],
        cuts(tag_combo_first(out.values@), dict.slots.len() as int, out.tag_combos.len() as int),
        forall|v: int|
            0 <= v < dict.slots.len() ==> #[trigger] run(
                out.tag_combos@,
                tag_combo_first(out.values@),
                v,
            ) == tag_row(parent, combos, dict.slots@[v]),
        cuts(combo_first(out.keys@), dict.keys.len() as int, out.combos.len() as int),
        forall|k: int|
            0 <= k < dict.keys.len() ==> #[trigger] run(out.combos@, combo_first(out.keys@), k)
                == key_row(combos, k),
        combos is None ==> out.combos.len() == 0 && out.tag_combos.len() == 0,
    ensures
        out.indexes_combos(parent, dict.slots@, combos is Some),
{
    reveal(Taginfo::indexes_combos);
    if let Some(c) = combos {
        assert forall|k: int| 0 <= k < out.n_keys() implies lists_key_combos(
            parent,
            out.keys@[k].key_idx,
            #[trigger] run(out.combos@, combo_first(out.keys@), k),
        ) by {
            assert(out.keys@[k].key_idx == dict.keys@[k]);
            assert(is_key_combos(parent, dict.keys@[k], c.by_key@[k]@));
        }
        assert forall|v: int| 0 <= v < out.n_values() implies lists_tag_combos(
            parent,
            dict.slots@[v],
            #[trigger] run(out.tag_combos@, tag_combo_first(out.values@), v),
        ) by {
            let s = dict.slots@[v];
            assert(is_tag_combos(parent, s, c.by_tag@[s as int]@));
        }
    }
}

/// Build the `Taginfo` index of `parent`.
pub fn build(parent: &Osm, opts: &BuildOptions) -> (out: Taginfo)
    requires
        parent.wf(),
    ensures
        out.covers(parent, opts),
{
    // The dictionary fixes the output position of every tag slot.
    let dict = Dictionary::build(parent);
    let pos = positions(parent, &dict);
    let nodes = postings_of_type(parent, EntityType::Node, &dict, &pos);
    let ways = postings_of_type(parent, EntityType::Way, &dict, &pos);
    let rels = postings_of_type(parent, EntityType::Relation, &dict, &pos);
    let combos = if opts.combinations {
        Some(Cooccurrences::build(parent, &dict.keys))
    } else {
        None
    };
    let ghost slots = dict.slots@;
    let mut out = write(parent, dict, nodes, ways, rels, combos);
    proof {
        lemma_shaped(parent, &out, slots);
        lemma_in_range(parent, &out, slots, opts.combinations);
    }
    let ranks = build_values_by_count(&out);
    let stored = if opts.key_postings {
        Some(build_key_postings(&out))
    } else {
        None
    };
    let search = if opts.value_search {
        Some(build_value_search(&out, parent))
    } else {
        None
    };
    let ghost base = out;
    out.values_by_count = ranks;
    out.key_postings = stored;
    out.value_search = search;
    proof {
        lemma_same_index(parent, base, out, slots, opts.combinations);
        lemma_same_ranks(base, out);
        if out.key_postings is Some {
            lemma_same_stored(base, out, out.key_postings->0);
        }
        if out.value_search is Some {
            lemma_same_search(parent, base, out, out.value_search->0);
        }
        lemma_wf(parent, &out, slots, opts.combinations);
    }
    out
}

} // verus!
