//! What the order of strings, the tags of an entity and the counts over them mean.

use crate::cooccurrences::{
    carries_both, carries_both_keys, carries_key, keys_together, tags_together, tally_in,
};
use crate::ext::Taginfo;
use crate::osm::Osm;
use crate::query::{clipped, in_ranges, EntityType};
use crate::strings::{lex_lt, string_at, string_end};
use crate::taginfo::{clipped_total, occurring_values, occurs_within};
use std::ops::Range;
use vstd::prelude::*;

verus! {

/// The strings agree before `i`, and there `a` ends or has the lesser byte.
pub open spec fn differs_at(a: Seq<u8>, b: Seq<u8>, i: int) -> bool {
    &&& 0 <= i <= a.len()
    &&& i < b.len()
    &&& forall|j: int| 0 <= j < i ==> #[trigger] a[j] == b[j]
    &&& i < a.len() ==> a[i] < b[i]
}

/// A string comes before another exactly where, at the first difference, it ends or
/// has the lesser byte.
pub proof fn strings_are_ordered_by_their_first_difference(a: Seq<u8>, b: Seq<u8>)
    ensures
        lex_lt(a, b) <==> exists|i: int| #[trigger] differs_at(a, b, i),
    decreases a.len(),
{
    if a.len() == 0 {
        if b.len() == 0 {
            assert(a =~= b);
        } else {
            assert(differs_at(a, b, 0));
        }
    } else if b.len() > 0 {
        let (x, y) = (a.skip(1), b.skip(1));
        if a[0] == b[0] {
            strings_are_ordered_by_their_first_difference(x, y);
            if x == y {
                assert(a =~= seq![a[0]] + x);
                assert(b =~= seq![b[0]] + y);
            }
            if lex_lt(x, y) {
                let i = choose|i: int| #[trigger] differs_at(x, y, i);
                assert forall|j: int| 0 <= j < i + 1 implies #[trigger] a[j] == b[j] by {
                    if j > 0 {
                        assert(x[j - 1] == y[j - 1]);
                    }
                }
                assert(differs_at(a, b, i + 1));
            }
            if exists|i: int| #[trigger] differs_at(a, b, i) {
                let i = choose|i: int| #[trigger] differs_at(a, b, i);
                assert forall|j: int| 0 <= j < i - 1 implies #[trigger] x[j] == y[j] by {
                    assert(a[j + 1] == b[j + 1]);
                }
                assert(differs_at(x, y, i - 1));
            }
        } else {
            if a[0] < b[0] {
                assert(differs_at(a, b, 0));
            }
            if exists|i: int| #[trigger] differs_at(a, b, i) {
                let i = choose|i: int| #[trigger] differs_at(a, b, i);
                if i > 0 {
                    assert(a[0] == b[0]);
                }
            }
        }
    }
}

/// A string of the table runs from its start up to the next zero byte, or to the end
/// of the table where there is none.
pub proof fn a_string_runs_to_the_next_zero(table: Seq<u8>, start: int)
    requires
        0 <= start <= table.len(),
    ensures
        ({
            let s = string_at(table, start);
            &&& start + s.len() <= table.len()
            &&& forall|i: int|
                0 <= i < s.len() ==> (#[trigger] s[i]) != 0 && s[i] == table[start + i]
            &&& start + s.len() < table.len() ==> table[start + s.len()] == 0
        }),
{
    lemma_end(table, start);
}

proof fn lemma_end(table: Seq<u8>, start: int)
    requires
        0 <= start <= table.len(),
    ensures
        ({
            let end = string_end(table, start);
            &&& start <= end <= table.len()
            &&& forall|i: int| start <= i < end ==> (#[trigger] table[i]) != 0
            &&& end < table.len() ==> table[end] == 0
        }),
    decreases table.len() - start,
{
    if start < table.len() && table[start] != 0 {
        lemma_end(table, start + 1);
    }
}

/// Slot `i` is the first of the list with the key.
pub open spec fn is_first_with_key(parent: &Osm, slots: Seq<u64>, key: Seq<u8>, i: int) -> bool {
    &&& 0 <= i < slots.len()
    &&& parent.key_string(slots[i] as int) == key
    &&& forall|j: int| 0 <= j < i ==> parent.key_string(#[trigger] slots[j] as int) != key
}

/// A key's value among the tags of an entity is that of the first tag with the key;
/// there is none where no tag has the key.
pub proof fn a_value_is_that_of_the_first_tag_with_the_key(
    parent: &Osm,
    slots: Seq<u64>,
    key: Seq<u8>,
)
    ensures
        match parent.value_for(slots, key) {
            Some(value) => exists|i: int| #[trigger]
                is_first_with_key(parent, slots, key, i) && parent.value_string(slots[i] as int)
                    == value,
            None => forall|i: int|
                0 <= i < slots.len() ==> parent.key_string(#[trigger] slots[i] as int) != key,
        },
    decreases slots.len(),
{
    if slots.len() > 0 {
        if parent.key_string(slots[0] as int) == key {
            assert(is_first_with_key(parent, slots, key, 0));
        } else {
            let rest = slots.skip(1);
            a_value_is_that_of_the_first_tag_with_the_key(parent, rest, key);
            assert(parent.value_for(slots, key) == parent.value_for(rest, key));
            match parent.value_for(slots, key) {
                Some(value) => {
                    let i = choose|i: int| #[trigger]
                        is_first_with_key(parent, rest, key, i) && parent.value_string(
                            rest[i] as int,
                        ) == value;
                    assert forall|j: int| 0 <= j < i + 1 implies parent.key_string(
                        #[trigger] slots[j] as int,
                    ) != key by {
                        if j > 0 {
                            assert(rest[j - 1] == slots[j]);
                        }
                    }
                    assert(is_first_with_key(parent, slots, key, i + 1));
                },
                None => {
                    assert forall|i: int| 0 <= i < slots.len() implies parent.key_string(
                        #[trigger] slots[i] as int,
                    ) != key by {
                        if i > 0 {
                            assert(rest[i - 1] == slots[i]);
                        }
                    }
                },
            }
        }
    }
}

/// The entities of one kind of which `p` holds.
pub open spec fn entities_with(
    p: spec_fn(EntityType, int) -> bool,
    entity: EntityType,
    n: nat,
) -> Set<int> {
    Set::new(|i: int| 0 <= i < n && p(entity, i))
}

/// A tally is the number of entities that it holds of.
pub proof fn a_tally_is_a_number_of_entities(
    p: spec_fn(EntityType, int) -> bool,
    entity: EntityType,
    n: nat,
)
    ensures
        entities_with(p, entity, n).finite(),
        tally_in(p, entity, n) == entities_with(p, entity, n).len(),
    decreases n,
{
    if n == 0 {
        assert(entities_with(p, entity, 0) =~= Set::empty());
    } else {
        let m = (n - 1) as nat;
        a_tally_is_a_number_of_entities(p, entity, m);
        let before = entities_with(p, entity, m);
        if p(entity, n - 1) {
            assert(entities_with(p, entity, n) =~= before.insert(n - 1));
        } else {
            assert(entities_with(p, entity, n) =~= before);
        }
    }
}

/// The entities that carry both tags, of one kind.
pub open spec fn with_both_tags(parent: &Osm, entity: EntityType, a: u64, b: u64) -> Set<int> {
    Set::new(
        |i: int|
            0 <= i < parent.len_of(entity) && parent.slots_of(entity, i).contains(a)
                && parent.slots_of(entity, i).contains(b),
    )
}

/// Two tags occur together in the nodes, ways and relations that carry both.
pub proof fn tags_are_together_where_both_are_carried(parent: &Osm, a: u64, b: u64)
    ensures
        tags_together(parent, a, b) == with_both_tags(parent, EntityType::Node, a, b).len()
            + with_both_tags(parent, EntityType::Way, a, b).len() + with_both_tags(
            parent,
            EntityType::Relation,
            a,
            b,
        ).len(),
{
    lemma_tag_kind(parent, a, b, EntityType::Node);
    lemma_tag_kind(parent, a, b, EntityType::Way);
    lemma_tag_kind(parent, a, b, EntityType::Relation);
}

proof fn lemma_tag_kind(parent: &Osm, a: u64, b: u64, entity: EntityType)
    ensures
        tally_in(carries_both(parent, a, b), entity, parent.len_of(entity))
            == with_both_tags(parent, entity, a, b).len(),
{
    let q = carries_both(parent, a, b);
    let n = parent.len_of(entity);
    a_tally_is_a_number_of_entities(q, entity, n);
    assert(entities_with(q, entity, n) =~= with_both_tags(parent, entity, a, b));
}

/// One of the tags has the key.
pub open spec fn any_has_key(parent: &Osm, slots: Seq<u64>, key_idx: u64) -> bool {
    exists|k: int|
        0 <= k < slots.len() && parent.tags@[#[trigger] slots[k] as int].key_idx == key_idx
}

/// The entities with tags of both keys, of one kind.
pub open spec fn with_both_keys(parent: &Osm, entity: EntityType, a: u64, b: u64) -> Set<int> {
    Set::new(
        |i: int|
            0 <= i < parent.len_of(entity) && any_has_key(parent, parent.slots_of(entity, i), a)
                && any_has_key(parent, parent.slots_of(entity, i), b),
    )
}

proof fn lemma_has_key(parent: &Osm, entity: EntityType, i: int, key_idx: u64)
    ensures
        carries_key(parent, entity, i, key_idx) == any_has_key(
            parent,
            parent.slots_of(entity, i),
            key_idx,
        ),
{
    let slots = parent.slots_of(entity, i);
    if carries_key(parent, entity, i, key_idx) {
        let slot = choose|slot: u64| #[trigger]
            slots.contains(slot) && parent.tags@[slot as int].key_idx == key_idx;
        let k = choose|k: int| 0 <= k < slots.len() && slots[k] == slot;
        assert(slots[k] == slot);
    }
    if any_has_key(parent, slots, key_idx) {
        let k = choose|k: int|
            0 <= k < slots.len() && parent.tags@[#[trigger] slots[k] as int].key_idx == key_idx;
        assert(slots.contains(slots[k]));
    }
}

proof fn lemma_key_kind(parent: &Osm, a: u64, b: u64, entity: EntityType)
    ensures
        tally_in(carries_both_keys(parent, a, b), entity, parent.len_of(entity))
            == with_both_keys(parent, entity, a, b).len(),
{
    let q = carries_both_keys(parent, a, b);
    let n = parent.len_of(entity);
    a_tally_is_a_number_of_entities(q, entity, n);
    assert forall|i: int| #[trigger]
        entities_with(q, entity, n).contains(i) == with_both_keys(parent, entity, a, b).contains(
        i,
    ) by {
        lemma_has_key(parent, entity, i, a);
        lemma_has_key(parent, entity, i, b);
    }
    assert(entities_with(q, entity, n) =~= with_both_keys(parent, entity, a, b));
}

/// Two keys occur together in the nodes, ways and relations with tags of both.
pub proof fn keys_are_together_where_both_are_carried(parent: &Osm, a: u64, b: u64)
    ensures
        keys_together(parent, a, b) == with_both_keys(parent, EntityType::Node, a, b).len()
            + with_both_keys(parent, EntityType::Way, a, b).len() + with_both_keys(
            parent,
            EntityType::Relation,
            a,
            b,
        ).len(),
{
    lemma_key_kind(parent, a, b, EntityType::Node);
    lemma_key_kind(parent, a, b, EntityType::Way);
    lemma_key_kind(parent, a, b, EntityType::Relation);
}

/// A range holds its start and not its end: ranges that touch hold what the range
/// from the first start to the last end holds, and a range of one holds that one.
pub proof fn ranges_hold_their_start_and_not_their_end(a: u64, b: u64, c: u64, v: u64)
    requires
        a <= b <= c,
    ensures
        in_ranges(seq![a..b, b..c], v) == in_ranges(seq![a..c], v),
        b < u64::MAX ==> (in_ranges(seq![b..(b + 1) as u64], v) <==> v == b),
        !in_ranges(seq![b..b], v),
{
    let (two, one) = (seq![a..b, b..c], seq![a..c]);
    if a <= v < c {
        assert(one[0].start <= v < one[0].end);
        if v < b {
            assert(two[0].start <= v < two[0].end);
        } else {
            assert(two[1].start <= v < two[1].end);
        }
    }
    if b < u64::MAX {
        let single = seq![b..(b + 1) as u64];
        if v == b {
            assert(single[0].start <= v < single[0].end);
        }
    }
}

/// No value is in both lists of ranges.
pub open spec fn apart(a: Seq<Range<u64>>, b: Seq<Range<u64>>) -> bool {
    forall|v: u64| !(#[trigger] in_ranges(a, v) && in_ranges(b, v))
}

proof fn lemma_in_either(a: Seq<Range<u64>>, b: Seq<Range<u64>>, v: u64)
    ensures
        in_ranges(a + b, v) <==> in_ranges(a, v) || in_ranges(b, v),
{
    let ab = a + b;
    if in_ranges(a, v) {
        let k = choose|k: int| 0 <= k < a.len() && (#[trigger] a[k]).start <= v < a[k].end;
        assert(ab[k] == a[k]);
    }
    if in_ranges(b, v) {
        let k = choose|k: int| 0 <= k < b.len() && (#[trigger] b[k]).start <= v < b[k].end;
        assert(ab[a.len() + k] == b[k]);
    }
    if in_ranges(ab, v) {
        let k = choose|k: int| 0 <= k < ab.len() && (#[trigger] ab[k]).start <= v < ab[k].end;
        if k < a.len() {
            assert(a[k] == ab[k]);
        } else {
            assert(b[k - a.len()] == ab[k]);
        }
    }
}

/// What is within either of two lists of ranges that are apart is counted once for
/// each.
pub proof fn clipping_adds_up(list: Seq<u64>, a: Seq<Range<u64>>, b: Seq<Range<u64>>)
    requires
        apart(a, b),
    ensures
        clipped(list, a + b).len() == clipped(list, a).len() + clipped(list, b).len(),
    decreases list.len(),
{
    reveal(Seq::filter);
    if list.len() > 0 {
        clipping_adds_up(list.drop_last(), a, b);
        lemma_in_either(a, b, list.last());
        assert(!(in_ranges(a, list.last()) && in_ranges(b, list.last())));
    }
}

/// The count of a key's objects within ranges adds up over ranges that are apart.
pub proof fn counts_within_ranges_add_up(
    ti: &Taginfo,
    entity: EntityType,
    from: int,
    to: int,
    a: Seq<Range<u64>>,
    b: Seq<Range<u64>>,
)
    requires
        apart(a, b),
    ensures
        clipped_total(ti, entity, from, to, a + b) == clipped_total(ti, entity, from, to, a)
            + clipped_total(ti, entity, from, to, b),
    decreases to - from,
{
    if from < to {
        counts_within_ranges_add_up(ti, entity, from, to - 1, a, b);
        clipping_adds_up(ti.postings(entity, to - 1), a, b);
    }
}

/// Posting `i` of the value is within the ranges.
pub open spec fn posted_within(
    ti: &Taginfo,
    entity: EntityType,
    v: int,
    ranges: Seq<Range<u64>>,
    i: int,
) -> bool {
    0 <= i < ti.postings(entity, v).len() && in_ranges(ranges, ti.postings(entity, v)[i])
}

/// The value is carried by an object within the ranges of its kind.
pub open spec fn used_within(
    ti: &Taginfo,
    v: int,
    nodes: Seq<Range<u64>>,
    ways: Seq<Range<u64>>,
    relations: Seq<Range<u64>>,
) -> bool {
    ||| exists|i: int| #[trigger] posted_within(ti, EntityType::Node, v, nodes, i)
    ||| exists|i: int| #[trigger] posted_within(ti, EntityType::Way, v, ways, i)
    ||| exists|i: int| #[trigger] posted_within(ti, EntityType::Relation, v, relations, i)
}

proof fn lemma_clipped_some(list: Seq<u64>, ranges: Seq<Range<u64>>)
    ensures
        clipped(list, ranges).len() > 0 <==> exists|i: int|
            0 <= i < list.len() && in_ranges(ranges, #[trigger] list[i]),
    decreases list.len(),
{
    reveal(Seq::filter);
    if list.len() > 0 {
        let front = list.drop_last();
        lemma_clipped_some(front, ranges);
        if exists|i: int| 0 <= i < front.len() && in_ranges(ranges, #[trigger] front[i]) {
            let i = choose|i: int| 0 <= i < front.len() && in_ranges(ranges, #[trigger] front[i]);
            assert(list[i] == front[i]);
        }
        if exists|i: int| 0 <= i < list.len() && in_ranges(ranges, #[trigger] list[i]) {
            let i = choose|i: int| 0 <= i < list.len() && in_ranges(ranges, #[trigger] list[i]);
            if i < front.len() {
                assert(front[i] == list[i]);
            }
        }
        if in_ranges(ranges, list.last()) {
            assert(in_ranges(ranges, list[list.len() - 1]));
        }
    }
}

proof fn lemma_posted(ti: &Taginfo, entity: EntityType, v: int, ranges: Seq<Range<u64>>)
    ensures
        clipped(ti.postings(entity, v), ranges).len() > 0 <==> exists|i: int| #[trigger]
            posted_within(ti, entity, v, ranges, i),
{
    let list = ti.postings(entity, v);
    lemma_clipped_some(list, ranges);
    if exists|i: int| 0 <= i < list.len() && in_ranges(ranges, #[trigger] list[i]) {
        let i = choose|i: int| 0 <= i < list.len() && in_ranges(ranges, #[trigger] list[i]);
        assert(posted_within(ti, entity, v, ranges, i));
    }
    if exists|i: int| #[trigger] posted_within(ti, entity, v, ranges, i) {
        let i = choose|i: int| #[trigger] posted_within(ti, entity, v, ranges, i);
        assert(in_ranges(ranges, list[i]));
    }
}

/// The number of values that occur within ranges is that of the values which some
/// node, way or relation within them carries.
pub proof fn values_within_ranges_are_those_used_there(
    ti: &Taginfo,
    from: int,
    to: int,
    nodes: Seq<Range<u64>>,
    ways: Seq<Range<u64>>,
    relations: Seq<Range<u64>>,
)
    ensures
        ({
            let used = Set::new(
                |v: int| from <= v < to && used_within(ti, v, nodes, ways, relations),
            );
            used.finite() && occurring_values(ti, from, to, nodes, ways, relations) == used.len()
        }),
    decreases to - from,
{
    let used = Set::new(|v: int| from <= v < to && used_within(ti, v, nodes, ways, relations));
    if to <= from {
        assert(used =~= Set::empty());
    } else {
        values_within_ranges_are_those_used_there(ti, from, to - 1, nodes, ways, relations);
        let before = Set::new(
            |v: int| from <= v < to - 1 && used_within(ti, v, nodes, ways, relations),
        );
        lemma_posted(ti, EntityType::Node, to - 1, nodes);
        lemma_posted(ti, EntityType::Way, to - 1, ways);
        lemma_posted(ti, EntityType::Relation, to - 1, relations);
        if occurs_within(ti, to - 1, nodes, ways, relations) {
            assert(used =~= before.insert(to - 1));
        } else {
            assert(used =~= before);
        }
    }
}

} // verus!
