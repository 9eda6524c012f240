//! What the `Taginfo` index says of its parent archive.

use crate::build_search::{
    by_count_le, carries_under, is_key_union, object_count, postings_ascend, ranked,
    strings_in_range, value_has_gram,
};
use crate::cooccurrences::{is_key_combos, is_tag_combos, lemma_carried_key, Combo, TagCombo};
use crate::ext::{
    combo_first, post_first, run, tag_combo_first, value_first, ComboEntry, KeyPostings,
    TagComboEntry, Taginfo, ValueSearch,
};
use crate::order::{ascending, count, cuts, lemma_run_of, strictly_ascending};
use crate::osm::Osm;
use crate::query::EntityType;
use crate::strings::{lemma_lex_total, lex_le, string_at, tie_le};
use crate::BuildOptions;
use vstd::prelude::*;

verus! {

/// Key `a` comes no later than key `b`: by string, then by position.
pub open spec fn key_le(parent: &Osm, a: u64, b: u64) -> bool {
    tie_le(
        string_at(parent.stringtable@, a as int),
        a,
        string_at(parent.stringtable@, b as int),
        b,
    )
}

/// Slot `a` comes no later than slot `b` within a key: by value string, then by
/// slot.
pub open spec fn value_le(parent: &Osm, a: u64, b: u64) -> bool {
    tie_le(parent.value_string(a as int), a, parent.value_string(b as int), b)
}

/// `run` is the postings list of `slot`: ascending, with each entity as often
/// as it carries the slot.
pub open spec fn is_postings(
    parent: &Osm,
    entity: EntityType,
    slot: u64,
    run: Seq<u64>,
) -> bool {
    &&& ascending(run)
    &&& forall|e: u64| #[trigger]
        count(run, e) == if e < parent.len_of(entity) {
            count(parent.slots_of(entity, e as int), slot)
        } else {
            0
        }
}

/// The entry of a co-occurring tag.
pub open spec fn tag_combo_entry(parent: &Osm, c: TagCombo) -> TagComboEntry {
    TagComboEntry {
        other_key_idx: parent.tags@[c.other_slot as int].key_idx,
        other_value_idx: parent.tags@[c.other_slot as int].value_idx,
        together_count: c.together_count,
    }
}

/// The entry of a co-occurring key.
pub open spec fn combo_entry(c: Combo) -> ComboEntry {
    ComboEntry { other_key_idx: c.other_key_idx, together_count: c.together_count }
}

/// `entries` are the co-occurring keys of `key_idx`.
pub open spec fn lists_key_combos(parent: &Osm, key_idx: u64, entries: Seq<ComboEntry>) -> bool {
    exists|row: Seq<Combo>| #[trigger]
        is_key_combos(parent, key_idx, row) && entries == row.map_values(
            |c: Combo| combo_entry(c),
        )
}

/// `entries` are the co-occurring tags of `slot`.
pub open spec fn lists_tag_combos(parent: &Osm, slot: u64, entries: Seq<TagComboEntry>) -> bool {
    exists|row: Seq<TagCombo>| #[trigger]
        is_tag_combos(parent, slot, row) && entries == row.map_values(
            |c: TagCombo| tag_combo_entry(parent, c),
        )
}

impl Taginfo {
    /// Every tag slot of `parent` has one value, under its key, and keys and
    /// values are in order: `slots` names the slot behind each value.
    #[verifier::opaque]
    pub open spec fn places(&self, parent: &Osm, slots: Seq<u64>) -> bool {
        &&& self.keys.len() >= 1
        &&& self.values.len() == slots.len() + 1
        // Every tag slot has exactly one value.
        &&& slots.no_duplicates()
        &&& forall|t: u64| t < parent.tags.len() ==> #[trigger] slots.contains(t)
        &&& forall|v: int| 0 <= v < slots.len() ==> (#[trigger] slots[v]) < parent.tags.len()
        &&& forall|v: int|
            0 <= v < slots.len() ==> (#[trigger] self.values@[v]).value_idx
                == parent.tags@[slots[v] as int].value_idx
        // Every value stands under its key; keys and values are in order.
        &&& cuts(value_first(self.keys@), self.n_keys(), self.n_values())
        &&& forall|k: int, v: int|
            0 <= k < self.n_keys() && #[trigger] self.under(k, v)
                ==> parent.tags@[slots[v] as int].key_idx == self.keys@[k].key_idx
        &&& forall|k: int|
            0 <= k < self.n_keys() ==> (#[trigger] self.keys@[k]).value_first_idx < self.keys@[k
                + 1].value_first_idx
        &&& forall|k: int, h: int|
            0 <= k < h < self.n_keys() ==> #[trigger] key_le(
                parent,
                self.keys@[k].key_idx,
                self.keys@[h].key_idx,
            ) && self.keys@[k].key_idx != self.keys@[h].key_idx
        &&& forall|k: int, v: int, w: int|
            0 <= k < self.n_keys() && #[trigger] self.under(k, v) && #[trigger] self.under(k, w) && v
                <= w ==> value_le(parent, slots[v], slots[w])
    }

    /// Every value has the postings of its slot, and every key their total.
    #[verifier::opaque]
    pub open spec fn posts_all(&self, parent: &Osm, slots: Seq<u64>) -> bool {
        &&& forall|entity: EntityType|
            cuts(
                #[trigger] post_first(self.values@, entity),
                self.n_values(),
                self.posts(entity).len() as int,
            )
        &&& forall|entity: EntityType, v: int|
            0 <= v < self.n_values() ==> is_postings(
                parent,
                entity,
                slots[v],
                #[trigger] self.postings(entity, v),
            )
        &&& forall|entity: EntityType, k: int|
            0 <= k < self.n_keys() ==> #[trigger] self.keys@[k].count_of(entity) == post_first(
                self.values@,
                entity,
            )[self.keys@[k + 1].value_first_idx as int] - post_first(
                self.values@,
                entity,
            )[self.keys@[k].value_first_idx as int]
    }

    /// The index covers `parent`: `slots` names the tag slot behind each value.
    pub open spec fn indexes(&self, parent: &Osm, slots: Seq<u64>) -> bool {
        self.shaped() && self.places(parent, slots) && self.posts_all(parent, slots)
    }

    /// The co-occurrence lists, where the index holds them.
    #[verifier::opaque]
    pub open spec fn indexes_combos(&self, parent: &Osm, slots: Seq<u64>, combinations: bool) -> bool {
        &&& cuts(combo_first(self.keys@), self.n_keys(), self.combos.len() as int)
        &&& cuts(tag_combo_first(self.values@), self.n_values(), self.tag_combos.len() as int)
        &&& combinations ==> forall|k: int|
            0 <= k < self.n_keys() ==> lists_key_combos(
                parent,
                self.keys@[k].key_idx,
                #[trigger] run(self.combos@, combo_first(self.keys@), k),
            )
        &&& combinations ==> forall|v: int|
            0 <= v < self.n_values() ==> lists_tag_combos(
                parent,
                slots[v],
                #[trigger] run(self.tag_combos@, tag_combo_first(self.values@), v),
            )
        &&& !combinations ==> self.combos.len() == 0 && self.tag_combos.len() == 0
    }
}

impl Taginfo {
    /// This is the index of `parent`, with the requested extras.
    pub open spec fn covers(&self, parent: &Osm, opts: &BuildOptions) -> bool {
        &&& self.wf(parent)
        &&& exists|slots: Seq<u64>| #[trigger]
            self.indexes(parent, slots) && self.indexes_combos(parent, slots, opts.combinations)
        &&& self.key_postings is Some <==> opts.key_postings
        &&& self.value_search is Some <==> opts.value_search
    }
}


/// What the index says of its slots implies its shape.
pub proof fn lemma_shaped(parent: &Osm, ti: &Taginfo, slots: Seq<u64>)
    requires
        ti.indexes(parent, slots),
    ensures
        ti.shaped(),
        postings_ascend(ti),
        forall|entity: EntityType, k: int|
            0 <= k < ti.n_keys() ==> #[trigger] ti.keys@[k].count_of(entity) == post_first(
                ti.values@,
                entity,
            )[ti.keys@[k + 1].value_first_idx as int] - post_first(
                ti.values@,
                entity,
            )[ti.keys@[k].value_first_idx as int],
{
    reveal(Taginfo::posts_all);
    assert forall|entity: EntityType, v: int| 0 <= v < ti.n_values() implies ascending(
        #[trigger] ti.postings(entity, v),
    ) by {
        assert(is_postings(parent, entity, slots[v], ti.postings(entity, v)));
    }
}

/// The strings of keys and values are in the table.
proof fn lemma_strings(parent: &Osm, ti: &Taginfo, slots: Seq<u64>)
    requires
        parent.wf(),
        ti.indexes(parent, slots),
    ensures
        forall|k: int|
            0 <= k < ti.n_keys() ==> (#[trigger] ti.keys@[k]).key_idx <= parent.stringtable.len(),
        forall|v: int|
            0 <= v < ti.n_values() ==> (#[trigger] ti.values@[v]).value_idx
                <= parent.stringtable.len(),
{
    reveal(Taginfo::places);
    let first = value_first(ti.keys@);
    assert forall|k: int| 0 <= k < ti.n_keys() implies (#[trigger] ti.keys@[k]).key_idx
        <= parent.stringtable.len() by {
        let v = first[k] as int;
        assert(first[k + 1] <= first[ti.n_keys()]);
        assert(ti.keys@[k].value_first_idx < ti.keys@[k + 1].value_first_idx);
        assert(ti.under(k, v));
        assert(slots[v] < parent.tags.len());
    }
    assert forall|v: int| 0 <= v < ti.n_values() implies (#[trigger] ti.values@[v]).value_idx
        <= parent.stringtable.len() by {
        assert(slots[v] < parent.tags.len());
    }
}

/// Keys and values are in string order.
proof fn lemma_sorted(parent: &Osm, ti: &Taginfo, slots: Seq<u64>)
    requires
        ti.indexes(parent, slots),
    ensures
        forall|k: int, h: int|
            0 <= k <= h < ti.n_keys() ==> lex_le(
                #[trigger] ti.key_string(parent, k),
                #[trigger] ti.key_string(parent, h),
            ),
        forall|k: int, v: int, w: int|
            0 <= k < ti.n_keys() && #[trigger] ti.under(k, v) && #[trigger] ti.under(k, w) && v <= w
                ==> lex_le(ti.value_string(parent, v), ti.value_string(parent, w)),
{
    reveal(Taginfo::places);
    let first = value_first(ti.keys@);
    assert forall|k: int, h: int| 0 <= k <= h < ti.n_keys() implies lex_le(
        #[trigger] ti.key_string(parent, k),
        #[trigger] ti.key_string(parent, h),
    ) by {
        lemma_lex_total(ti.key_string(parent, k), ti.key_string(parent, h));
        if k < h {
            assert(key_le(parent, ti.keys@[k].key_idx, ti.keys@[h].key_idx));
        }
    }
    assert forall|k: int, v: int, w: int|
        0 <= k < ti.n_keys() && #[trigger] ti.under(k, v) && #[trigger] ti.under(k, w) && v
            <= w implies lex_le(ti.value_string(parent, v), ti.value_string(parent, w)) by {
        assert(first[k + 1] <= first[ti.n_keys()]);
        lemma_lex_total(ti.value_string(parent, v), ti.value_string(parent, w));
        assert(value_le(parent, slots[v], slots[w]));
        assert(ti.values@[v].value_idx == parent.tags@[slots[v] as int].value_idx);
        assert(ti.values@[w].value_idx == parent.tags@[slots[w] as int].value_idx);
    }
}

proof fn lemma_key_combo_string(parent: &Osm, key_idx: u64, entries: Seq<ComboEntry>, i: int)
    requires
        parent.wf(),
        lists_key_combos(parent, key_idx, entries),
        0 <= i < entries.len(),
    ensures
        entries[i].other_key_idx <= parent.stringtable.len(),
{
    let row = choose|row: Seq<Combo>| #[trigger]
        is_key_combos(parent, key_idx, row) && entries == row.map_values(
            |c: Combo| combo_entry(c),
        );
    assert(entries[i] == combo_entry(row[i]));
    assert(row[i].together_count > 0);
    lemma_carried_key(parent, key_idx, row[i].other_key_idx);
}

proof fn lemma_tag_combo_string(parent: &Osm, slot: u64, entries: Seq<TagComboEntry>, i: int)
    requires
        parent.wf(),
        lists_tag_combos(parent, slot, entries),
        0 <= i < entries.len(),
    ensures
        entries[i].other_key_idx <= parent.stringtable.len(),
        entries[i].other_value_idx <= parent.stringtable.len(),
{
    let row = choose|row: Seq<TagCombo>| #[trigger]
        is_tag_combos(parent, slot, row) && entries == row.map_values(
            |c: TagCombo| tag_combo_entry(parent, c),
        );
    assert(entries[i] == tag_combo_entry(parent, row[i]));
    assert(row[i].other_slot < parent.tags.len());
}

/// The strings of co-occurring keys and tags are in the table.
proof fn lemma_combo_strings(parent: &Osm, ti: &Taginfo, slots: Seq<u64>, combinations: bool)
    requires
        parent.wf(),
        ti.indexes_combos(parent, slots, combinations),
    ensures
        cuts(combo_first(ti.keys@), ti.n_keys(), ti.combos.len() as int),
        cuts(tag_combo_first(ti.values@), ti.n_values(), ti.tag_combos.len() as int),
        forall|c: int|
            0 <= c < ti.combos.len() ==> (#[trigger] ti.combos@[c]).other_key_idx
                <= parent.stringtable.len(),
        forall|c: int|
            0 <= c < ti.tag_combos.len() ==> (#[trigger] ti.tag_combos@[c]).other_key_idx
                <= parent.stringtable.len() && ti.tag_combos@[c].other_value_idx
                <= parent.stringtable.len(),
{
    reveal(Taginfo::indexes_combos);
    if combinations {
        assert forall|c: int| 0 <= c < ti.combos.len() implies (
        #[trigger] ti.combos@[c]).other_key_idx <= parent.stringtable.len() by {
            let f = combo_first(ti.keys@);
            let k = lemma_run_of(f, ti.n_keys(), ti.combos.len() as int, c);
            assert(f[k + 1] <= f[ti.n_keys()]);
            let entries = run(ti.combos@, f, k);
            assert(entries[c - f[k]] == ti.combos@[c]);
            lemma_key_combo_string(parent, ti.keys@[k].key_idx, entries, c - f[k]);
        }
        assert forall|c: int| 0 <= c < ti.tag_combos.len() implies (
        #[trigger] ti.tag_combos@[c]).other_key_idx <= parent.stringtable.len()
            && ti.tag_combos@[c].other_value_idx <= parent.stringtable.len() by {
            let f = tag_combo_first(ti.values@);
            let v = lemma_run_of(f, ti.n_values(), ti.tag_combos.len() as int, c);
            assert(f[v + 1] <= f[ti.n_values()]);
            let entries = run(ti.tag_combos@, f, v);
            assert(entries[c - f[v]] == ti.tag_combos@[c]);
            lemma_tag_combo_string(parent, slots[v], entries, c - f[v]);
        }
    }
}

/// An index of `parent` with its derived parts is one that queries can rest on.
pub proof fn lemma_wf(parent: &Osm, ti: &Taginfo, slots: Seq<u64>, combinations: bool)
    requires
        parent.wf(),
        ti.indexes(parent, slots),
        ti.indexes_combos(parent, slots, combinations),
        ti.ranks_values(),
        ti.key_postings matches Some(kp) ==> kp.stores(ti),
        ti.value_search matches Some(vs) ==> vs.searches(ti, parent),
    ensures
        ti.wf(parent),
{
    lemma_shaped(parent, ti, slots);
    lemma_strings(parent, ti, slots);
    lemma_sorted(parent, ti, slots);
    lemma_combo_strings(parent, ti, slots, combinations);
}

/// The index can be searched for strings.
pub proof fn lemma_in_range(parent: &Osm, ti: &Taginfo, slots: Seq<u64>, combinations: bool)
    requires
        parent.wf(),
        ti.indexes(parent, slots),
        ti.indexes_combos(parent, slots, combinations),
    ensures
        strings_in_range(ti, parent),
{
    lemma_strings(parent, ti, slots);
    lemma_combo_strings(parent, ti, slots, combinations);
}

/// Two indexes that differ in their derived parts only.
pub open spec fn same_core(a: Taginfo, b: Taginfo) -> bool {
    &&& a.keys == b.keys
    &&& a.values == b.values
    &&& a.node_post == b.node_post
    &&& a.way_post == b.way_post
    &&& a.rel_post == b.rel_post
    &&& a.combos == b.combos
    &&& a.tag_combos == b.tag_combos
}

proof fn lemma_same_core(a: Taginfo, b: Taginfo)
    requires
        same_core(a, b),
    ensures
        forall|entity: EntityType| #[trigger] b.posts(entity) == a.posts(entity),
        forall|entity: EntityType, v: int| #[trigger]
            b.postings(entity, v) == a.postings(entity, v),
        forall|k: int, v: int| #[trigger] b.under(k, v) == a.under(k, v),
{
    assert forall|entity: EntityType| #[trigger] b.posts(entity) == a.posts(entity) by {
        match entity {
            EntityType::Node => {},
            EntityType::Way => {},
            EntityType::Relation => {},
        }
    }
    assert forall|entity: EntityType, v: int| #[trigger]
        b.postings(entity, v) == a.postings(entity, v) by {
        assert(b.posts(entity) == a.posts(entity));
    }
}

/// The derived parts do not bear on what the index says of its slots.
pub proof fn lemma_same_index(parent: &Osm, a: Taginfo, b: Taginfo, slots: Seq<u64>, combinations: bool)
    requires
        same_core(a, b),
        a.indexes(parent, slots),
        a.indexes_combos(parent, slots, combinations),
    ensures
        b.indexes(parent, slots),
        b.indexes_combos(parent, slots, combinations),
{
    lemma_same_core(a, b);
    lemma_same_places(parent, a, b, slots);
    lemma_same_posts(parent, a, b, slots);
    reveal(Taginfo::indexes_combos);
}

proof fn lemma_same_posts(parent: &Osm, a: Taginfo, b: Taginfo, slots: Seq<u64>)
    requires
        same_core(a, b),
        a.shaped(),
        a.posts_all(parent, slots),
    ensures
        b.shaped(),
        b.posts_all(parent, slots),
{
    reveal(Taginfo::posts_all);
    lemma_same_core(a, b);
    assert forall|entity: EntityType| cuts(
        #[trigger] post_first(b.values@, entity),
        b.n_values(),
        b.posts(entity).len() as int,
    ) by {
        assert(b.posts(entity) == a.posts(entity));
    }
    assert forall|entity: EntityType, v: int| 0 <= v < b.n_values() implies is_postings(
        parent,
        entity,
        slots[v],
        #[trigger] b.postings(entity, v),
    ) by {
        assert(b.postings(entity, v) == a.postings(entity, v));
    }
    assert forall|entity: EntityType, k: int| 0 <= k < b.n_keys() implies #[trigger] b.keys@[k].count_of(
        entity,
    ) == post_first(b.values@, entity)[b.keys@[k + 1].value_first_idx as int] - post_first(
        b.values@,
        entity,
    )[b.keys@[k].value_first_idx as int] by {
        assert(a.keys@[k].count_of(entity) == b.keys@[k].count_of(entity));
    }
}

proof fn lemma_same_places(parent: &Osm, a: Taginfo, b: Taginfo, slots: Seq<u64>)
    requires
        same_core(a, b),
        a.places(parent, slots),
    ensures
        b.places(parent, slots),
{
    reveal(Taginfo::places);
    lemma_same_core(a, b);
    assert forall|k: int, v: int| 0 <= k < b.n_keys() && #[trigger] b.under(
        k,
        v,
    ) implies parent.tags@[slots[v] as int].key_idx == b.keys@[k].key_idx by {
        assert(a.under(k, v));
    }
    assert forall|k: int, v: int, w: int|
        0 <= k < b.n_keys() && #[trigger] b.under(k, v) && #[trigger] b.under(k, w) && v
            <= w implies value_le(parent, slots[v], slots[w]) by {
        assert(a.under(k, v) && a.under(k, w));
    }
}

pub proof fn lemma_same_ranks(a: Taginfo, b: Taginfo)
    requires
        same_core(a, b),
        b.values_by_count.len() == a.n_values(),
        forall|k: int|
            0 <= k < a.n_keys() ==> ranked(
                &a,
                k,
                #[trigger] run(b.values_by_count@, value_first(a.keys@), k),
            ),
    ensures
        b.ranks_values(),
{
    lemma_same_core(a, b);
    assert forall|k: int| 0 <= k < b.n_keys() implies ranked(
        &b,
        k,
        #[trigger] run(b.values_by_count@, value_first(b.keys@), k),
    ) by {
        let list = run(b.values_by_count@, value_first(a.keys@), k);
        assert(ranked(&a, k, list));
        assert forall|v: u64| #[trigger] list.contains(v) <==> b.under(k, v as int) by {
            assert(a.under(k, v as int) == b.under(k, v as int));
        }
        assert forall|i: int, j: int| 0 <= i <= j < list.len() implies by_count_le(
            &b,
            #[trigger] list[i],
            #[trigger] list[j],
        ) by {
            assert(by_count_le(&a, list[i], list[j]));
            assert(object_count(&b, list[i] as int) == object_count(&a, list[i] as int));
            assert(object_count(&b, list[j] as int) == object_count(&a, list[j] as int));
        }
    }
}

pub proof fn lemma_same_stored(a: Taginfo, b: Taginfo, kp: KeyPostings)
    requires
        same_core(a, b),
        kp.stores(&a),
    ensures
        kp.stores(&b),
{
    lemma_same_core(a, b);
    assert forall|entity: EntityType, k: int| 0 <= k < b.n_keys() implies is_key_union(
        &b,
        entity,
        k,
        #[trigger] run(kp.posts_of(entity), kp.range_of(entity), k),
    ) by {
        let list = run(kp.posts_of(entity), kp.range_of(entity), k);
        assert(is_key_union(&a, entity, k, list));
        assert forall|e: u64| #[trigger] list.contains(e) <==> carries_under(&b, entity, k, e) by {
            if carries_under(&a, entity, k, e) {
                let v = choose|v: int|
                    a.under(k, v) && #[trigger] a.postings(entity, v).contains(e);
                assert(b.under(k, v) && b.postings(entity, v).contains(e));
            }
            if carries_under(&b, entity, k, e) {
                let v = choose|v: int|
                    b.under(k, v) && #[trigger] b.postings(entity, v).contains(e);
                assert(a.under(k, v) && a.postings(entity, v).contains(e));
            }
        }
    }
}

pub proof fn lemma_same_search(parent: &Osm, a: Taginfo, b: Taginfo, vs: ValueSearch)
    requires
        same_core(a, b),
        vs.searches(&a, parent),
    ensures
        vs.searches(&b, parent),
{
    assert forall|v: int, gram: int| #[trigger]
        value_has_gram(&b, parent, v, gram) == value_has_gram(&a, parent, v, gram) by {
    }
    assert forall|g: int| 0 <= g < vs.n_grams() implies strictly_ascending(
        #[trigger] vs.values_of(g),
    ) && forall|v: u64| #[trigger]
        vs.values_of(g).contains(v) <==> value_has_gram(
            &b,
            parent,
            v as int,
            vs.trigrams@[g].gram as int,
        ) by {
        assert forall|v: u64| #[trigger]
            vs.values_of(g).contains(v) <==> value_has_gram(
                &b,
                parent,
                v as int,
                vs.trigrams@[g].gram as int,
            ) by {
            assert(value_has_gram(&b, parent, v as int, vs.trigrams@[g].gram as int)
                == value_has_gram(&a, parent, v as int, vs.trigrams@[g].gram as int));
        }
    }
    assert forall|v: int, gram: int| #[trigger]
        value_has_gram(&b, parent, v, gram) implies vs.has_entry(gram) by {
        assert(value_has_gram(&a, parent, v, gram));
    }
}

} // verus!
