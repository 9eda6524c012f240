//! What an index of a parent archive promises of its parent.

use crate::build_search::{carries_under, is_key_union};
use crate::cooccurrences::{
    carries, carries_both, carries_both_keys, combo_le, is_key_combos, is_tag_combos,
    keys_together, lemma_slot_in_range, lemma_tag_le, lists_key, lists_tag, tag_combo_le, tags_together, tally_in,
    Combo, TagCombo,
};
use crate::ext::{post_first, value_first, Taginfo};
use crate::order::{
    chains, count, cuts, in_order, lemma_count, lemma_ordered_unique, lemma_run_of,
    lemma_strict_unique, separates, strictly_ascending, total,
};
use crate::osm::Osm;
use crate::query::{in_ranges, lemma_filter_all, EntityType};
use crate::strings::{lemma_lex_total, lemma_tie_le};
use crate::taginfo::{
    clipped_total, has_view, occurring_values, occurs_within, views_matching, TaginfoQuery,
    ValueView,
};
use crate::taginfo_index::{is_postings, key_le, value_le};
use std::ops::Range;
use vstd::prelude::*;

verus! {

/// The entity carries the tag `key=value`, as strings.
pub open spec fn has_tag(
    parent: &Osm,
    entity: EntityType,
    i: int,
    key: Seq<u8>,
    value: Seq<u8>,
) -> bool {
    exists|slot: u64| #[trigger]
        carries(parent, entity, i, slot) && parent.key_string(slot as int) == key
            && parent.value_string(slot as int) == value
}

/// The entity carries a tag with the key, as a string.
pub open spec fn has_key(parent: &Osm, entity: EntityType, i: int, key: Seq<u8>) -> bool {
    exists|slot: u64| #[trigger]
        carries(parent, entity, i, slot) && parent.key_string(slot as int) == key
}

/// The slot behind value `v` of key `k` has their strings.
proof fn lemma_slot_strings(parent: &Osm, ti: &Taginfo, slots: Seq<u64>, k: int, v: int)
    requires
        ti.indexes(parent, slots),
        0 <= k < ti.n_keys(),
        ti.under(k, v),
    ensures
        0 <= v < ti.n_values(),
        ti.n_values() == slots.len(),
        slots[v] < parent.tags.len(),
        parent.key_string(slots[v] as int) == ti.key_string(parent, k),
        parent.value_string(slots[v] as int) == ti.value_string(parent, v),
        parent.tags@[slots[v] as int].key_idx == ti.keys@[k].key_idx,
{
    reveal(Taginfo::places);
    let first = value_first(ti.keys@);
    assert(first[k + 1] <= first[ti.n_keys()]);
    assert(ti.values@[v].value_idx == parent.tags@[slots[v] as int].value_idx);
}

/// Membership in a value's postings is carrying its slot.
proof fn lemma_posting_is_carrying(
    parent: &Osm,
    ti: &Taginfo,
    slots: Seq<u64>,
    entity: EntityType,
    v: int,
    e: u64,
)
    requires
        ti.indexes(parent, slots),
        0 <= v < ti.n_values(),
    ensures
        ti.postings(entity, v).contains(e) <==> e < parent.len_of(entity) && carries(
            parent,
            entity,
            e as int,
            slots[v],
        ),
{
    reveal(Taginfo::posts_all);
    let list = ti.postings(entity, v);
    assert(is_postings(parent, entity, slots[v], list));
    lemma_count(list, e);
    assert(count(list, e) == if e < parent.len_of(entity) {
        count(parent.slots_of(entity, e as int), slots[v])
    } else {
        0
    });
    lemma_count(parent.slots_of(entity, e as int), slots[v]);
}

/// The postings of a `key=value` are exactly the entities that carry it.
pub proof fn postings_are_the_carriers(
    parent: &Osm,
    ti: &Taginfo,
    slots: Seq<u64>,
    entity: EntityType,
    k: int,
    v: int,
    e: u64,
)
    requires
        parent.wf(),
        parent.deduplicated(),
        ti.indexes(parent, slots),
        0 <= k < ti.n_keys(),
        ti.under(k, v),
    ensures
        ti.postings(entity, v).contains(e) <==> e < parent.len_of(entity) && has_tag(
            parent,
            entity,
            e as int,
            ti.key_string(parent, k),
            ti.value_string(parent, v),
        ),
{
    lemma_slot_strings(parent, ti, slots, k, v);
    lemma_posting_is_carrying(parent, ti, slots, entity, v, e);
    if e < parent.len_of(entity) && has_tag(
        parent,
        entity,
        e as int,
        ti.key_string(parent, k),
        ti.value_string(parent, v),
    ) {
        let s = choose|s: u64| #[trigger]
            carries(parent, entity, e as int, s) && parent.key_string(s as int) == ti.key_string(
                parent,
                k,
            ) && parent.value_string(s as int) == ti.value_string(parent, v);
        lemma_slot_in_range(parent, entity, e as int, s);
        assert(parent.key_string(s as int) == parent.key_string(slots[v] as int));
        assert(parent.value_string(s as int) == parent.value_string(slots[v] as int));
        assert(s == slots[v]);
    }
}

/// Every tag slot of the archive is listed under its key, with its value.
pub proof fn every_tag_is_listed(parent: &Osm, ti: &Taginfo, slots: Seq<u64>, t: u64) -> (kv: (
    int,
    int,
))
    requires
        ti.indexes(parent, slots),
        t < parent.tags.len(),
    ensures
        0 <= kv.0 < ti.n_keys(),
        ti.under(kv.0, kv.1),
        slots[kv.1] == t,
        ti.key_string(parent, kv.0) == parent.key_string(t as int),
        ti.value_string(parent, kv.1) == parent.value_string(t as int),
{
    let v = {
        reveal(Taginfo::places);
        assert(slots.contains(t));
        choose|v: int| 0 <= v < slots.len() && slots[v] == t
    };
    assert(ti.values.len() == slots.len() + 1) by {
        reveal(Taginfo::places);
    }
    let first = value_first(ti.keys@);
    let k = lemma_run_of(first, ti.n_keys(), ti.n_values(), v);
    assert(ti.under(k, v));
    lemma_slot_strings(parent, ti, slots, k, v);
    (k, v)
}

/// A lookup succeeds exactly for the tags of the archive: where no value under a
/// key with the string `key` has the string `value`, no entity carries
/// `key=value`.
pub proof fn an_unlisted_tag_is_carried_by_none(
    parent: &Osm,
    ti: &Taginfo,
    slots: Seq<u64>,
    entity: EntityType,
    i: int,
    key: Seq<u8>,
    value: Seq<u8>,
)
    requires
        parent.wf(),
        ti.indexes(parent, slots),
        0 <= i < parent.len_of(entity),
        forall|k: int, v: int|
            0 <= k < ti.n_keys() && #[trigger] ti.under(k, v) ==> !(ti.key_string(parent, k) == key
                && ti.value_string(parent, v) == value),
    ensures
        !has_tag(parent, entity, i, key, value),
{
    if has_tag(parent, entity, i, key, value) {
        let s = choose|s: u64| #[trigger]
            carries(parent, entity, i, s) && parent.key_string(s as int) == key
                && parent.value_string(s as int) == value;
        lemma_slot_in_range(parent, entity, i, s);
        let (k, v) = every_tag_is_listed(parent, ti, slots, s);
        assert(ti.under(k, v));
    }
}

/// Keys have distinct strings, so a key string names one key.
pub proof fn a_key_string_names_one_key(parent: &Osm, ti: &Taginfo, slots: Seq<u64>, k: int, h: int)
    requires
        parent.wf(),
        parent.deduplicated(),
        ti.indexes(parent, slots),
        0 <= k < ti.n_keys(),
        0 <= h < ti.n_keys(),
        ti.key_string(parent, k) == ti.key_string(parent, h),
    ensures
        k == h,
{
    reveal(Taginfo::places);
    let first = value_first(ti.keys@);
    assert(ti.keys@[k].value_first_idx < ti.keys@[k + 1].value_first_idx);
    assert(ti.keys@[h].value_first_idx < ti.keys@[h + 1].value_first_idx);
    let (v, w) = (first[k] as int, first[h] as int);
    assert(ti.under(k, v) && ti.under(h, w));
    lemma_slot_strings(parent, ti, slots, k, v);
    lemma_slot_strings(parent, ti, slots, h, w);
    assert(parent.key_string(slots[v] as int) == parent.key_string(slots[w] as int));
    if k < h {
        assert(key_le(parent, ti.keys@[k].key_idx, ti.keys@[h].key_idx));
    } else if h < k {
        assert(key_le(parent, ti.keys@[h].key_idx, ti.keys@[k].key_idx));
    }
}

/// `key=*` is exactly the entities that carry the key.
pub proof fn key_postings_are_the_carriers(
    parent: &Osm,
    ti: &Taginfo,
    slots: Seq<u64>,
    entity: EntityType,
    k: int,
    e: u64,
)
    requires
        parent.wf(),
        parent.deduplicated(),
        ti.indexes(parent, slots),
        0 <= k < ti.n_keys(),
    ensures
        carries_under(ti, entity, k, e) <==> e < parent.len_of(entity) && has_key(
            parent,
            entity,
            e as int,
            ti.key_string(parent, k),
        ),
{
    if carries_under(ti, entity, k, e) {
        let v = choose|v: int| ti.under(k, v) && #[trigger] ti.postings(entity, v).contains(e);
        lemma_slot_strings(parent, ti, slots, k, v);
        lemma_posting_is_carrying(parent, ti, slots, entity, v, e);
        assert(carries(parent, entity, e as int, slots[v]));
    }
    if e < parent.len_of(entity) && has_key(parent, entity, e as int, ti.key_string(parent, k)) {
        let s = choose|s: u64| #[trigger]
            carries(parent, entity, e as int, s) && parent.key_string(s as int) == ti.key_string(
                parent,
                k,
            );
        lemma_slot_in_range(parent, entity, e as int, s);
        let (h, v) = every_tag_is_listed(parent, ti, slots, s);
        a_key_string_names_one_key(parent, ti, slots, h, k);
        lemma_slot_strings(parent, ti, slots, h, v);
        lemma_posting_is_carrying(parent, ti, slots, entity, v, e);
        assert(ti.under(k, v) && ti.postings(entity, v).contains(e));
    }
}

/// What carries `key=value` carries `key=*`.
pub proof fn a_value_is_within_its_key(
    ti: &Taginfo,
    entity: EntityType,
    k: int,
    v: int,
    all: Seq<u64>,
    e: u64,
)
    requires
        ti.under(k, v),
        is_key_union(ti, entity, k, all),
        ti.postings(entity, v).contains(e),
    ensures
        all.contains(e),
{
    assert(carries_under(ti, entity, k, e));
}

/// `key=*` is one list, whether it was stored or merged.
pub proof fn key_postings_are_determined(
    ti: &Taginfo,
    entity: EntityType,
    k: int,
    a: Seq<u64>,
    b: Seq<u64>,
)
    requires
        is_key_union(ti, entity, k, a),
        is_key_union(ti, entity, k, b),
    ensures
        a == b,
{
    assert forall|e: u64| #[trigger] a.contains(e) <==> b.contains(e) by {
        assert(b.contains(e) <==> carries_under(ti, entity, k, e));
    }
    lemma_strict_unique(a, b);
}

/// The lengths of the postings of the values `from..to`, added up.
pub open spec fn postings_total(ti: &Taginfo, entity: EntityType, from: int, to: int) -> int
    decreases to - from,
{
    if to <= from {
        0
    } else {
        postings_total(ti, entity, from, to - 1) + ti.postings(entity, to - 1).len()
    }
}

proof fn lemma_postings_total(ti: &Taginfo, entity: EntityType, from: int, to: int)
    requires
        ti.shaped(),
        0 <= from <= to <= ti.n_values(),
    ensures
        postings_total(ti, entity, from, to) == post_first(ti.values@, entity)[to] - post_first(
            ti.values@,
            entity,
        )[from],
    decreases to - from,
{
    let first = post_first(ti.values@, entity);
    assert(cuts(first, ti.n_values(), ti.posts(entity).len() as int));
    if from < to {
        lemma_postings_total(ti, entity, from, to - 1);
        assert(first[to - 1] <= first[to]);
        assert(first[to] <= first[ti.n_values()]);
    }
}

/// The count of a key is the sum of the counts of its values.
pub proof fn a_key_counts_its_values(parent: &Osm, ti: &Taginfo, entity: EntityType, k: int)
    requires
        ti.wf(parent),
        0 <= k < ti.n_keys(),
    ensures
        ti.keys@[k].count_of(entity) == postings_total(
            ti,
            entity,
            ti.keys@[k].value_first_idx as int,
            ti.keys@[k + 1].value_first_idx as int,
        ),
{
    let first = value_first(ti.keys@);
    assert(first[k] <= first[k + 1]);
    assert(first[k + 1] <= first[ti.n_keys()]);
    lemma_postings_total(ti, entity, first[k] as int, first[k + 1] as int);
    assert(ti.keys@[k].count_of(entity) == post_first(ti.values@, entity)[ti.keys@[k
        + 1].value_first_idx as int] - post_first(
        ti.values@,
        entity,
    )[ti.keys@[k].value_first_idx as int]);
}

/// No entity of the type carries two tags with the key.
pub open spec fn key_occurs_once(parent: &Osm, entity: EntityType, key_idx: u64) -> bool {
    forall|i: int|
        0 <= i < parent.len_of(entity) ==> at_most_one(
            parent,
            #[trigger] parent.slots_of(entity, i),
            key_idx,
        )
}

/// At most one of the slots has the key.
pub open spec fn at_most_one(parent: &Osm, slots: Seq<u64>, key_idx: u64) -> bool {
    forall|a: int, b: int|
        0 <= a < b < slots.len() ==> !(parent.tags@[#[trigger] slots[a] as int].key_idx == key_idx
            && parent.tags@[#[trigger] slots[b] as int].key_idx == key_idx)
}

/// What stands in one place is counted once.
proof fn lemma_counted_once(s: Seq<u64>, x: u64)
    requires
        forall|a: int, b: int|
            0 <= a < b < s.len() ==> !(#[trigger] s[a] == x && #[trigger] s[b] == x),
    ensures
        count(s, x) <= 1,
    decreases s.len(),
{
    if s.len() == 0 {
        lemma_count(s, x);
        assert(s =~= Seq::<u64>::empty());
    } else {
        let t = s.drop_last();
        lemma_counted_once(t, x);
        lemma_count(t, x);
        assert(s =~= t.push(s.last()));
        if s.last() == x && t.contains(x) {
            let a = choose|a: int| 0 <= a < t.len() && t[a] == x;
            assert(s[a] == x && s[s.len() - 1] == x);
        }
    }
}

/// Where no entity repeats a key, the postings of each of its values name an
/// entity once.
proof fn lemma_postings_distinct(
    parent: &Osm,
    ti: &Taginfo,
    slots: Seq<u64>,
    entity: EntityType,
    k: int,
    v: int,
)
    requires
        ti.indexes(parent, slots),
        0 <= k < ti.n_keys(),
        ti.under(k, v),
        key_occurs_once(parent, entity, ti.keys@[k].key_idx),
    ensures
        ti.postings(entity, v).no_duplicates(),
{
    lemma_slot_strings(parent, ti, slots, k, v);
    reveal(Taginfo::posts_all);
    let list = ti.postings(entity, v);
    assert(is_postings(parent, entity, slots[v], list));
    assert forall|e: u64| list.to_multiset().contains(e) implies list.to_multiset().count(e) == 1 by {
        lemma_count(list, e);
        assert(count(list, e) > 0);
        let these = parent.slots_of(entity, e as int);
        assert(at_most_one(parent, these, ti.keys@[k].key_idx));
        assert forall|a: int, b: int| 0 <= a < b < these.len() implies !(#[trigger] these[a]
            == slots[v] && #[trigger] these[b] == slots[v]) by {
        }
        lemma_counted_once(these, slots[v]);
    }
    list.lemma_multiset_has_no_duplicates_conv();
}

/// Where no entity repeats a key, no entity is in the postings of two of its
/// values.
proof fn lemma_postings_disjoint(
    parent: &Osm,
    ti: &Taginfo,
    slots: Seq<u64>,
    entity: EntityType,
    k: int,
    v: int,
    w: int,
    e: u64,
)
    requires
        ti.indexes(parent, slots),
        0 <= k < ti.n_keys(),
        ti.under(k, v),
        ti.under(k, w),
        v != w,
        key_occurs_once(parent, entity, ti.keys@[k].key_idx),
    ensures
        !(ti.postings(entity, v).contains(e) && ti.postings(entity, w).contains(e)),
{
    lemma_slot_strings(parent, ti, slots, k, v);
    lemma_slot_strings(parent, ti, slots, k, w);
    lemma_posting_is_carrying(parent, ti, slots, entity, v, e);
    lemma_posting_is_carrying(parent, ti, slots, entity, w, e);
    if ti.postings(entity, v).contains(e) && ti.postings(entity, w).contains(e) {
        assert(slots[v] != slots[w]) by {
            reveal(Taginfo::places);
        }
        let these = parent.slots_of(entity, e as int);
        let a = choose|a: int| 0 <= a < these.len() && these[a] == slots[v];
        let b = choose|b: int| 0 <= b < these.len() && these[b] == slots[w];
        assert(at_most_one(parent, these, ti.keys@[k].key_idx));
        if a < b {
            assert(these[a] == slots[v] && these[b] == slots[w]);
        } else {
            assert(these[b] == slots[w] && these[a] == slots[v]);
        }
    }
}

/// The entities in the postings of the values `from..to`.
spec fn listed_in(ti: &Taginfo, entity: EntityType, from: int, to: int) -> Set<u64>
    decreases to - from,
{
    if to <= from {
        Set::empty()
    } else {
        listed_in(ti, entity, from, to - 1) + ti.postings(entity, to - 1).to_set()
    }
}

proof fn lemma_listed_in(ti: &Taginfo, entity: EntityType, from: int, to: int)
    ensures
        listed_in(ti, entity, from, to).finite(),
        forall|e: u64| #[trigger]
            listed_in(ti, entity, from, to).contains(e) <==> exists|v: int|
                from <= v < to && #[trigger] ti.postings(entity, v).contains(e),
    decreases to - from,
{
    if from < to {
        let fewer = listed_in(ti, entity, from, to - 1);
        let last = ti.postings(entity, to - 1);
        lemma_listed_in(ti, entity, from, to - 1);
        vstd::seq_lib::seq_to_set_is_finite(last);
        assert forall|e: u64| #[trigger]
            listed_in(ti, entity, from, to).contains(e) <==> exists|v: int|
                from <= v < to && #[trigger] ti.postings(entity, v).contains(e) by {
            if fewer.contains(e) {
                let v = choose|v: int|
                    from <= v < to - 1 && #[trigger] ti.postings(entity, v).contains(e);
                assert(from <= v < to && ti.postings(entity, v).contains(e));
            }
            if last.contains(e) {
                assert(from <= to - 1 < to && ti.postings(entity, to - 1).contains(e));
            }
        }
    }
}

proof fn lemma_listed_total(
    parent: &Osm,
    ti: &Taginfo,
    slots: Seq<u64>,
    entity: EntityType,
    k: int,
    to: int,
)
    requires
        ti.indexes(parent, slots),
        0 <= k < ti.n_keys(),
        ti.keys@[k].value_first_idx <= to <= ti.keys@[k + 1].value_first_idx,
        key_occurs_once(parent, entity, ti.keys@[k].key_idx),
    ensures
        listed_in(ti, entity, ti.keys@[k].value_first_idx as int, to).len() == postings_total(
            ti,
            entity,
            ti.keys@[k].value_first_idx as int,
            to,
        ),
    decreases to,
{
    let from = ti.keys@[k].value_first_idx as int;
    if from < to {
        let fewer = listed_in(ti, entity, from, to - 1);
        let last = ti.postings(entity, to - 1);
        lemma_listed_total(parent, ti, slots, entity, k, to - 1);
        lemma_listed_in(ti, entity, from, to - 1);
        assert(ti.under(k, to - 1));
        lemma_postings_distinct(parent, ti, slots, entity, k, to - 1);
        last.unique_seq_to_set();
        vstd::seq_lib::seq_to_set_is_finite(last);
        assert forall|e: u64| fewer.contains(e) implies !last.to_set().contains(e) by {
            let v = choose|v: int|
                from <= v < to - 1 && #[trigger] ti.postings(entity, v).contains(e);
            assert(ti.under(k, v));
            lemma_postings_disjoint(parent, ti, slots, entity, k, v, to - 1, e);
        }
        assert(fewer.disjoint(last.to_set()));
        vstd::set_lib::lemma_set_disjoint_lens(fewer, last.to_set());
    }
}

/// Where no entity repeats a key, the key's count is the length of its `key=*`
/// list.
pub proof fn a_key_counts_its_carriers(
    parent: &Osm,
    ti: &Taginfo,
    slots: Seq<u64>,
    entity: EntityType,
    k: int,
    list: Seq<u64>,
)
    requires
        ti.wf(parent),
        ti.indexes(parent, slots),
        0 <= k < ti.n_keys(),
        is_key_union(ti, entity, k, list),
        key_occurs_once(parent, entity, ti.keys@[k].key_idx),
    ensures
        list.len() == ti.keys@[k].count_of(entity),
{
    let (from, to) = (ti.keys@[k].value_first_idx as int, ti.keys@[k + 1].value_first_idx as int);
    let first = value_first(ti.keys@);
    assert(first[k] <= first[k + 1]);
    a_key_counts_its_values(parent, ti, entity, k);
    lemma_listed_total(parent, ti, slots, entity, k, to);
    lemma_listed_in(ti, entity, from, to);
    let all = listed_in(ti, entity, from, to);
    assert forall|e: u64| all.contains(e) <==> list.to_set().contains(e) by {
        assert(list.contains(e) <==> carries_under(ti, entity, k, e));
        if all.contains(e) {
            let v = choose|v: int| from <= v < to && #[trigger] ti.postings(entity, v).contains(e);
            assert(ti.under(k, v));
        }
        if carries_under(ti, entity, k, e) {
            let v = choose|v: int| ti.under(k, v) && #[trigger] ti.postings(entity, v).contains(e);
            assert(from <= v < to);
        }
    }
    assert(all =~= list.to_set());
    assert(list.no_duplicates());
    list.unique_seq_to_set();
}

/// `key=*` is one list in every index of an archive, stored or merged: the
/// entities that carry the key, strictly ascending, those of each of its values
/// among them, and as many as the key counts, where none repeats it.
pub proof fn key_lists_agree_with_the_archive(
    parent: &Osm,
    a: &Taginfo,
    a_slots: Seq<u64>,
    b: &Taginfo,
    b_slots: Seq<u64>,
    entity: EntityType,
    k: int,
    h: int,
    a_list: Seq<u64>,
    b_list: Seq<u64>,
)
    requires
        parent.wf(),
        parent.deduplicated(),
        a.wf(parent),
        a.indexes(parent, a_slots),
        b.indexes(parent, b_slots),
        0 <= k < a.n_keys(),
        0 <= h < b.n_keys(),
        a.key_string(parent, k) == b.key_string(parent, h),
        is_key_union(a, entity, k, a_list),
        is_key_union(b, entity, h, b_list),
    ensures
        a_list == b_list,
        strictly_ascending(a_list),
        forall|e: u64| #[trigger]
            a_list.contains(e) <==> e < parent.len_of(entity) && has_key(
                parent,
                entity,
                e as int,
                a.key_string(parent, k),
            ),
        forall|v: int, e: u64| #[trigger]
            a.postings(entity, v).contains(e) && a.under(k, v) ==> a_list.contains(e),
        key_occurs_once(parent, entity, a.keys@[k].key_idx) ==> a_list.len()
            == a.keys@[k].count_of(entity),
{
    assert forall|e: u64| #[trigger] a_list.contains(e) <==> e < parent.len_of(entity) && has_key(
        parent,
        entity,
        e as int,
        a.key_string(parent, k),
    ) by {
        key_postings_are_the_carriers(parent, a, a_slots, entity, k, e);
    }
    assert forall|e: u64| #[trigger] a_list.contains(e) <==> b_list.contains(e) by {
        key_postings_are_the_carriers(parent, b, b_slots, entity, h, e);
        assert(b_list.contains(e) <==> carries_under(b, entity, h, e));
    }
    lemma_strict_unique(a_list, b_list);
    assert forall|v: int, e: u64| #[trigger]
        a.postings(entity, v).contains(e) && a.under(k, v) implies a_list.contains(e) by {
        a_value_is_within_its_key(a, entity, k, v, a_list, e);
    }
    if key_occurs_once(parent, entity, a.keys@[k].key_idx) {
        a_key_counts_its_carriers(parent, a, a_slots, entity, k, a_list);
    }
}

/// Where no entity carries a tag twice, postings are strictly ascending.
pub proof fn postings_strictly_ascend(
    parent: &Osm,
    ti: &Taginfo,
    slots: Seq<u64>,
    entity: EntityType,
    v: int,
)
    requires
        parent.distinct_slots(),
        ti.indexes(parent, slots),
        0 <= v < ti.n_values(),
    ensures
        strictly_ascending(ti.postings(entity, v)),
{
    reveal(Taginfo::posts_all);
    let list = ti.postings(entity, v);
    assert(is_postings(parent, entity, slots[v], list));
    assert forall|e: u64| list.to_multiset().contains(e) implies list.to_multiset().count(e) == 1 by {
        lemma_count(list, e);
        assert(count(list, e) > 0);
        let these = parent.slots_of(entity, e as int);
        assert(these.no_duplicates());
        these.lemma_multiset_has_no_duplicates();
        lemma_count(these, slots[v]);
        assert(these.to_multiset().contains(slots[v]));
    }
    list.lemma_multiset_has_no_duplicates_conv();
    assert forall|i: int, j: int| 0 <= i < j < list.len() implies list[i] < list[j] by {
        assert(list[i] <= list[j]);
        assert(list[i] != list[j]);
    }
}

/// A search finds one list of values, whether by the trigram index or by a scan.
pub proof fn search_is_determined(
    q: TaginfoQuery<'_>,
    from: int,
    to: int,
    p: spec_fn(int) -> bool,
    a: Seq<ValueView<'_>>,
    b: Seq<ValueView<'_>>,
)
    requires
        views_matching(a, q, from, to, p),
        views_matching(b, q, from, to, p),
    ensures
        a.len() == b.len(),
        forall|i: int| 0 <= i < a.len() ==> (#[trigger] a[i]).idx == b[i].idx,
{
    let x = Seq::new(a.len(), |i: int| a[i].idx as u64);
    let y = Seq::new(b.len(), |i: int| b[i].idx as u64);
    assert forall|e: u64| #[trigger] x.contains(e) <==> y.contains(e) by {
        if x.contains(e) {
            let i = choose|i: int| 0 <= i < x.len() && x[i] == e;
            assert(p(a[i].idx as int));
            assert(has_view(b, a[i].idx as int));
            let j = choose|j: int| 0 <= j < b.len() && (#[trigger] b[j]).idx == a[i].idx;
            assert(y[j] == e);
        }
        if y.contains(e) {
            let i = choose|i: int| 0 <= i < y.len() && y[i] == e;
            assert(p(b[i].idx as int));
            assert(has_view(a, b[i].idx as int));
            let j = choose|j: int| 0 <= j < a.len() && (#[trigger] a[j]).idx == b[i].idx;
            assert(x[j] == e);
        }
    }
    lemma_strict_unique(x, y);
    assert forall|i: int| 0 <= i < a.len() implies (#[trigger] a[i]).idx == b[i].idx by {
        assert(x[i] == y[i]);
    }
}

/// Counting within ranges that hold every posting gives the total.
pub proof fn counting_within_everything_gives_the_total(
    ti: &Taginfo,
    entity: EntityType,
    from: int,
    to: int,
    ranges: Seq<Range<u64>>,
)
    requires
        forall|v: int, i: int|
            from <= v < to && 0 <= i < ti.postings(entity, v).len() ==> in_ranges(
                ranges,
                #[trigger] ti.postings(entity, v)[i],
            ),
    ensures
        clipped_total(ti, entity, from, to, ranges) == postings_total(ti, entity, from, to),
    decreases to - from,
{
    if from < to {
        counting_within_everything_gives_the_total(ti, entity, from, to - 1, ranges);
        lemma_filter_all(ti.postings(entity, to - 1), |e: u64| in_ranges(ranges, e));
    }
}

/// Within ranges that hold every posting, every value that is used occurs.
pub proof fn every_used_value_occurs_within_everything(
    ti: &Taginfo,
    from: int,
    to: int,
    nodes: Seq<Range<u64>>,
    ways: Seq<Range<u64>>,
    relations: Seq<Range<u64>>,
)
    requires
        from <= to,
        forall|v: int|
            from <= v < to ==> #[trigger] occurs_within(ti, v, nodes, ways, relations),
    ensures
        occurring_values(ti, from, to, nodes, ways, relations) == to - from,
    decreases to - from,
{
    if from < to {
        every_used_value_occurs_within_everything(ti, from, to - 1, nodes, ways, relations);
        assert(occurs_within(ti, to - 1, nodes, ways, relations));
    }
}

proof fn lemma_tally_same(
    p: spec_fn(EntityType, int) -> bool,
    q: spec_fn(EntityType, int) -> bool,
    entity: EntityType,
    n: nat,
)
    requires
        forall|e: EntityType, i: int| #[trigger] p(e, i) == q(e, i),
    ensures
        tally_in(p, entity, n) == tally_in(q, entity, n),
    decreases n,
{
    if n > 0 {
        lemma_tally_same(p, q, entity, (n - 1) as nat);
        assert(p(entity, n - 1) == q(entity, n - 1));
    }
}

/// Co-occurrence is symmetric.
pub proof fn together_is_symmetric(parent: &Osm, a: u64, b: u64)
    ensures
        keys_together(parent, a, b) == keys_together(parent, b, a),
        tags_together(parent, a, b) == tags_together(parent, b, a),
{
    let (p, q) = (carries_both_keys(parent, a, b), carries_both_keys(parent, b, a));
    lemma_tally_same(p, q, EntityType::Node, parent.len_of(EntityType::Node));
    lemma_tally_same(p, q, EntityType::Way, parent.len_of(EntityType::Way));
    lemma_tally_same(p, q, EntityType::Relation, parent.len_of(EntityType::Relation));
    let (p, q) = (carries_both(parent, a, b), carries_both(parent, b, a));
    lemma_tally_same(p, q, EntityType::Node, parent.len_of(EntityType::Node));
    lemma_tally_same(p, q, EntityType::Way, parent.len_of(EntityType::Way));
    lemma_tally_same(p, q, EntityType::Relation, parent.len_of(EntityType::Relation));
}

/// The co-occurring keys of a key are one list.
pub proof fn key_combinations_are_determined(
    parent: &Osm,
    key_idx: u64,
    a: Seq<Combo>,
    b: Seq<Combo>,
)
    requires
        is_key_combos(parent, key_idx, a),
        is_key_combos(parent, key_idx, b),
    ensures
        a == b,
{
    let leq = |x: Combo, y: Combo| combo_le(parent, x, y);
    lemma_tie_le();
    assert(total(leq));
    assert(chains(leq)) by {
        assert forall|x: Combo, y: Combo, z: Combo| #[trigger] leq(x, y) && #[trigger] leq(
            y,
            z,
        ) implies leq(x, z) by {
        }
    }
    assert(separates(leq)) by {
        assert forall|x: Combo, y: Combo| #[trigger] leq(x, y) && leq(y, x) implies x == y by {
            assert(key_le(parent, x.other_key_idx, y.other_key_idx));
        }
    }
    lemma_combo_rows(parent, key_idx, a, b);
    lemma_combo_rows(parent, key_idx, b, a);
    assert forall|x: Combo| #[trigger] a.contains(x) <==> b.contains(x) by {
    }
    assert(in_order(a, leq));
    assert(in_order(b, leq));
    assert(a.no_duplicates());
    assert(b.no_duplicates());
    lemma_ordered_unique(a, b, leq);
}

proof fn lemma_combo_rows(parent: &Osm, key_idx: u64, a: Seq<Combo>, b: Seq<Combo>)
    requires
        is_key_combos(parent, key_idx, a),
        is_key_combos(parent, key_idx, b),
    ensures
        forall|x: Combo| #[trigger] a.contains(x) ==> b.contains(x),
{
    assert forall|x: Combo| #[trigger] a.contains(x) implies b.contains(x) by {
        let i = choose|i: int| 0 <= i < a.len() && a[i] == x;
        assert(lists_key(b, a[i].other_key_idx));
        let j = choose|j: int|
            0 <= j < b.len() && (#[trigger] b[j]).other_key_idx == a[i].other_key_idx;
        assert(b[j] == x);
    }
}

/// The co-occurring tags of a tag are one list.
pub proof fn tag_combinations_are_determined(
    parent: &Osm,
    slot: u64,
    a: Seq<TagCombo>,
    b: Seq<TagCombo>,
)
    requires
        is_tag_combos(parent, slot, a),
        is_tag_combos(parent, slot, b),
    ensures
        a == b,
{
    let leq = |x: TagCombo, y: TagCombo| tag_combo_le(parent, x, y);
    assert(total(leq)) by {
        assert forall|x: TagCombo, y: TagCombo| #[trigger] leq(x, y) || leq(y, x) by {
            lemma_tag_le(parent, x.other_slot, y.other_slot, y.other_slot);
        }
    }
    assert(chains(leq)) by {
        assert forall|x: TagCombo, y: TagCombo, z: TagCombo| #[trigger] leq(x, y)
            && #[trigger] leq(y, z) implies leq(x, z) by {
            lemma_tag_le(parent, x.other_slot, y.other_slot, z.other_slot);
        }
    }
    assert(separates(leq)) by {
        assert forall|x: TagCombo, y: TagCombo| #[trigger] leq(x, y) && leq(
            y,
            x,
        ) implies x == y by {
            lemma_tie_le();
            lemma_lex_total(
                parent.key_string(x.other_slot as int),
                parent.key_string(y.other_slot as int),
            );
            assert(value_le(parent, x.other_slot, y.other_slot));
        }
    }
    lemma_tag_combo_rows(parent, slot, a, b);
    lemma_tag_combo_rows(parent, slot, b, a);
    assert forall|x: TagCombo| #[trigger] a.contains(x) <==> b.contains(x) by {
    }
    assert(in_order(a, leq));
    assert(in_order(b, leq));
    assert(a.no_duplicates());
    assert(b.no_duplicates());
    lemma_ordered_unique(a, b, leq);
}

proof fn lemma_tag_combo_rows(parent: &Osm, slot: u64, a: Seq<TagCombo>, b: Seq<TagCombo>)
    requires
        is_tag_combos(parent, slot, a),
        is_tag_combos(parent, slot, b),
    ensures
        forall|x: TagCombo| #[trigger] a.contains(x) ==> b.contains(x),
{
    assert forall|x: TagCombo| #[trigger] a.contains(x) implies b.contains(x) by {
        let i = choose|i: int| 0 <= i < a.len() && a[i] == x;
        assert(lists_tag(b, a[i].other_slot));
        let j = choose|j: int| 0 <= j < b.len() && (#[trigger] b[j]).other_slot == a[i].other_slot;
        assert(b[j] == x);
    }
}

} // verus!
