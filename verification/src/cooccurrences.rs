//! Tag and key co-occurrence: how many entities carry two tags, or two keys,
//! together.
//!
//! Key pairs are counted per distinct key set: many entities share an exactly
//! identical key set even though their values differ, so each set is counted
//! once, scaled by its number of entities. Tag pairs have no such grouping; each
//! entity's pairs are appended to buckets by slot, and each bucket is sorted and
//! run-length encoded on its own.

use crate::fxmap::{
    by_set, fx_get, fx_insert, fx_new, fx_sets_get, fx_sets_insert, fx_sets_new,
};
use crate::taginfo_index::{key_le, value_le};
use crate::order::{
    count, lemma_count, lemma_same_items, merge_sort, same_items, sorted_indices,
    strictly_ascending,
};
use crate::osm::Osm;
use crate::query::EntityType;
use crate::scratch::{pair_le, pairs_sorted, PairBuckets};
use crate::strings::{compare, lemma_lex_chain, lemma_lex_total, lemma_tie_le, lex_lt, tie_leq, Compared};
use rustc_hash::FxHashMap;
use vstd::prelude::*;

verus! {

/// How many of the first `n` entities of a type satisfy `p`.
pub open spec fn tally_in(
    p: spec_fn(EntityType, int) -> bool,
    entity: EntityType,
    n: nat,
) -> nat
    decreases n,
{
    if n == 0 {
        0
    } else {
        tally_in(p, entity, (n - 1) as nat) + if p(entity, n - 1) {
            1nat
        } else {
            0
        }
    }
}

/// How many entities of the archive satisfy `p`.
pub open spec fn tally(parent: &Osm, p: spec_fn(EntityType, int) -> bool) -> nat {
    tally_in(p, EntityType::Node, parent.len_of(EntityType::Node)) + tally_in(
        p,
        EntityType::Way,
        parent.len_of(EntityType::Way),
    ) + tally_in(p, EntityType::Relation, parent.len_of(EntityType::Relation))
}

pub proof fn lemma_tally_bound(p: spec_fn(EntityType, int) -> bool, entity: EntityType, n: nat)
    ensures
        tally_in(p, entity, n) <= n,
    decreases n,
{
    if n > 0 {
        lemma_tally_bound(p, entity, (n - 1) as nat);
    }
}

/// The entity carries the tag slot.
pub open spec fn carries(parent: &Osm, entity: EntityType, i: int, slot: u64) -> bool {
    parent.slots_of(entity, i).contains(slot)
}

/// The entity carries a tag with the key.
pub open spec fn carries_key(parent: &Osm, entity: EntityType, i: int, key_idx: u64) -> bool {
    exists|slot: u64| #[trigger]
        parent.slots_of(entity, i).contains(slot) && parent.tags@[slot as int].key_idx == key_idx
}

/// The entity carries both tag slots.
pub open spec fn carries_both(parent: &Osm, a: u64, b: u64) -> spec_fn(EntityType, int) -> bool {
    |entity: EntityType, i: int| carries(parent, entity, i, a) && carries(parent, entity, i, b)
}

/// The entity carries both keys.
pub open spec fn carries_both_keys(parent: &Osm, a: u64, b: u64) -> spec_fn(
    EntityType,
    int,
) -> bool {
    |entity: EntityType, i: int|
        carries_key(parent, entity, i, a) && carries_key(parent, entity, i, b)
}

/// How many entities carry both tag slots.
pub open spec fn tags_together(parent: &Osm, a: u64, b: u64) -> nat {
    tally(parent, carries_both(parent, a, b))
}

/// How many entities carry both keys.
pub open spec fn keys_together(parent: &Osm, a: u64, b: u64) -> nat {
    tally(parent, carries_both_keys(parent, a, b))
}

/// The tag slots of an entity, sorted, each once.
pub(crate) fn slot_set(parent: &Osm, entity: EntityType, i: usize) -> (out: Vec<u64>)
    requires
        parent.wf(),
        i < parent.len_of(entity),
    ensures
        strictly_ascending(out@),
        forall|s: u64| #[trigger] out@.contains(s) <==> carries(parent, entity, i as int, s),
        forall|k: int| 0 <= k < out@.len() ==> (#[trigger] out@[k]) < parent.tags.len(),
{
    let span = parent.entity_tags(entity, i);
    let ghost slots = parent.slots_of(entity, i as int);
    let mut out: Vec<u64> = Vec::new();
    let mut ti: u64 = span.start;
    while ti < span.end
        invariant
            parent.wf(),
            span.within(parent.tags_index.len() as nat),
            slots == parent.tags_index@.subrange(span.start as int, span.end as int),
            span.start <= ti <= span.end,
            out@ == slots.take(ti - span.start),
        decreases span.end - ti,
    {
        out.push(parent.tags_index[ti as usize]);
        proof {
            assert(out@ =~= slots.take(ti + 1 - span.start));
        }
        ti = ti + 1;
    }
    proof {
        assert(out@ =~= slots);
    }
    let out = sorted_indices(out);
    proof {
        assert forall|k: int| 0 <= k < out@.len() implies (#[trigger] out@[k])
            < parent.tags.len() by {
            assert(out@.contains(out@[k]));
            assert(slots.contains(out@[k]));
            let m = choose|m: int| 0 <= m < slots.len() && slots[m] == out@[k];
            assert(parent.tags_index@[span.start + m] == out@[k]);
        }
    }
    out
}

/// The keys of an entity, sorted, each once.
fn key_set(parent: &Osm, entity: EntityType, i: usize) -> (out: Vec<u64>)
    requires
        parent.wf(),
        i < parent.len_of(entity),
    ensures
        strictly_ascending(out@),
        forall|k: u64| #[trigger] out@.contains(k) <==> carries_key(parent, entity, i as int, k),
{
    let slots = slot_set(parent, entity, i);
    let mut keys: Vec<u64> = Vec::new();
    let mut j: usize = 0;
    while j < slots.len()
        invariant
            j <= slots@.len(),
            forall|k: int| 0 <= k < slots@.len() ==> (#[trigger] slots@[k]) < parent.tags.len(),
            keys@.len() == j,
            forall|k: int|
                0 <= k < j ==> #[trigger] keys@[k] == parent.tags@[slots@[k] as int].key_idx,
        decreases slots@.len() - j,
    {
        keys.push(parent.tags[slots[j] as usize].key_idx);
        j = j + 1;
    }
    let ghost listed = keys@;
    let out = sorted_indices(keys);
    proof {
        assert forall|k: u64| #[trigger] out@.contains(k) <==> carries_key(
            parent,
            entity,
            i as int,
            k,
        ) by {
            if listed.contains(k) {
                let m = choose|m: int| 0 <= m < listed.len() && listed[m] == k;
                assert(slots@.contains(slots@[m]));
                assert(parent.slots_of(entity, i as int).contains(slots@[m]));
            }
            if carries_key(parent, entity, i as int, k) {
                let s = choose|s: u64| #[trigger]
                    parent.slots_of(entity, i as int).contains(s) && parent.tags@[s as int].key_idx
                        == k;
                assert(carries(parent, entity, i as int, s));
                assert(slots@.contains(s));
                let m = choose|m: int| 0 <= m < slots@.len() && slots@[m] == s;
                assert(listed[m] == k);
            }
        }
    }
    out
}

/// A key that occurs together with another one, and how often.
#[derive(Clone, Copy, Debug, PartialEq, Eq, Structural)]
pub struct Combo {
    pub other_key_idx: u64,
    pub together_count: u64,
}

/// The counts for the pairs of one key.
struct KeyRow {
    key_idx: u64,
    index: FxHashMap<u64, usize>,
    combos: Vec<Combo>,
}

impl KeyRow {
    spec fn wf(&self) -> bool {
        &&& forall|o: u64| #[trigger]
            self.index@.contains_key(o) ==> self.index@[o] < self.combos@.len()
                && self.combos@[self.index@[o] as int].other_key_idx == o
        &&& forall|c: int|
            0 <= c < self.combos@.len() ==> self.index@.contains_key(
                (#[trigger] self.combos@[c]).other_key_idx,
            ) && self.index@[self.combos@[c].other_key_idx] == c
    }

    spec fn at(&self, other: u64) -> nat {
        if self.index@.contains_key(other) {
            self.combos@[self.index@[other] as int].together_count as nat
        } else {
            0
        }
    }

    fn add_count(&mut self, other: u64, weight: u64)
        requires
            old(self).wf(),
            old(self).at(other) + weight <= u64::MAX,
        ensures
            final(self).wf(),
            final(self).key_idx == old(self).key_idx,
            forall|o: u64| #[trigger]
                final(self).at(o) == old(self).at(o) + if o == other {
                    weight as nat
                } else {
                    0
                },
            weight > 0 && old(self).positive() ==> final(self).positive(),
    {
        match fx_get(&self.index, other) {
            Some(c) => {
                let sum: u64 = self.combos[c].together_count + weight;
                self.combos.set(c, Combo { other_key_idx: other, together_count: sum });
            },
            None => {
                let c: usize = self.combos.len();
                fx_insert(&mut self.index, other, c);
                self.combos.push(Combo { other_key_idx: other, together_count: weight });
            },
        }
    }

    /// Nothing is listed that was not counted.
    spec fn positive(&self) -> bool {
        forall|c: int| 0 <= c < self.combos@.len() ==> (#[trigger] self.combos@[c]).together_count > 0
    }
}

/// How often pairs of keys occur together.
struct PairCounts {
    row_of: FxHashMap<u64, usize>,
    rows: Vec<KeyRow>,
}

impl PairCounts {
    spec fn wf(&self) -> bool {
        &&& forall|k: u64| #[trigger]
            self.row_of@.contains_key(k) ==> self.row_of@[k] < self.rows@.len()
                && self.rows@[self.row_of@[k] as int].key_idx == k
        &&& forall|r: int|
            0 <= r < self.rows@.len() ==> (#[trigger] self.rows@[r]).wf() && self.rows@[r].positive()
                && self.row_of@.contains_key(self.rows@[r].key_idx)
                && self.row_of@[self.rows@[r].key_idx] == r
    }

    spec fn at(&self, key: u64, other: u64) -> nat {
        if self.row_of@.contains_key(key) {
            self.rows@[self.row_of@[key] as int].at(other)
        } else {
            0
        }
    }

    fn new() -> (out: Self)
        ensures
            out.wf(),
            forall|k: u64, o: u64| #[trigger] out.at(k, o) == 0,
    {
        PairCounts { row_of: fx_new(), rows: Vec::new() }
    }

    /// Count the pair `weight` more times.
    fn add_count(&mut self, key: u64, other: u64, weight: u64)
        requires
            old(self).wf(),
            weight > 0,
            old(self).at(key, other) + weight <= u64::MAX,
        ensures
            final(self).wf(),
            forall|k: u64, o: u64| #[trigger]
                final(self).at(k, o) == old(self).at(k, o) + if k == key && o == other {
                    weight as nat
                } else {
                    0
                },
    {
        let ghost before = *self;
        let r: usize = match fx_get(&self.row_of, key) {
            Some(r) => r,
            None => {
                let r: usize = self.rows.len();
                fx_insert(&mut self.row_of, key, r);
                self.rows.push(KeyRow { key_idx: key, index: fx_new(), combos: Vec::new() });
                r
            },
        };
        let ghost mid = *self;
        proof {
            assert(forall|k: u64, o: u64| #[trigger] mid.at(k, o) == before.at(k, o));
            assert(mid.rows@[r as int].at(other) == mid.at(key, other));
        }
        self.rows[r].add_count(other, weight);
        proof {
            assert forall|k: u64, o: u64| #[trigger]
                self.at(k, o) == before.at(k, o) + if k == key && o == other {
                    weight as nat
                } else {
                    0
                } by {
                assert(mid.at(k, o) == before.at(k, o));
                if self.row_of@.contains_key(k) && self.row_of@[k] == r {
                    assert(self.rows@[r as int].at(o) == mid.rows@[r as int].at(o) + if o == other {
                        weight as nat
                    } else {
                        0
                    });
                }
            }
        }
    }
}

/// A key set, and how many entities have it.
struct KeySet {
    keys: Vec<u64>,
    count: u64,
}

/// How many entities have one of the `sets` and, with it, both keys.
spec fn weight(sets: Seq<KeySet>, a: u64, b: u64) -> nat
    decreases sets.len(),
{
    if sets.len() == 0 {
        0
    } else {
        weight(sets.drop_last(), a, b) + if sets.last().keys@.contains(a)
            && sets.last().keys@.contains(b) {
            sets.last().count as nat
        } else {
            0
        }
    }
}

/// How many entities have one of the `sets`.
spec fn population(sets: Seq<KeySet>) -> nat
    decreases sets.len(),
{
    if sets.len() == 0 {
        0
    } else {
        population(sets.drop_last()) + sets.last().count as nat
    }
}

proof fn lemma_weight_bound(sets: Seq<KeySet>, a: u64, b: u64)
    ensures
        weight(sets, a, b) <= population(sets),
    decreases sets.len(),
{
    if sets.len() > 0 {
        lemma_weight_bound(sets.drop_last(), a, b);
    }
}

/// One set has grown by one entity.
proof fn lemma_weight_grown(old_sets: Seq<KeySet>, new_sets: Seq<KeySet>, g: int, a: u64, b: u64)
    requires
        0 <= g < old_sets.len() == new_sets.len(),
        new_sets[g].keys@ == old_sets[g].keys@,
        new_sets[g].count == old_sets[g].count + 1,
        forall|h: int| 0 <= h < old_sets.len() && h != g ==> #[trigger] new_sets[h] == old_sets[h],
    ensures
        population(new_sets) == population(old_sets) + 1,
        weight(new_sets, a, b) == weight(old_sets, a, b) + if old_sets[g].keys@.contains(a)
            && old_sets[g].keys@.contains(b) {
            1nat
        } else {
            0
        },
    decreases old_sets.len(),
{
    let (x, y) = (old_sets.drop_last(), new_sets.drop_last());
    if g == old_sets.len() - 1 {
        assert(x =~= y);
    } else {
        assert(new_sets[old_sets.len() - 1] == old_sets[old_sets.len() - 1]);
        assert forall|h: int| 0 <= h < x.len() && h != g implies #[trigger] y[h] == x[h] by {
            assert(new_sets[h] == old_sets[h]);
        }
        lemma_weight_grown(x, y, g, a, b);
    }
}

/// The distinct key sets of an archive.
struct KeySets {
    index: FxHashMap<Vec<u64>, usize>,
    sets: Vec<KeySet>,
}

impl KeySets {
    spec fn wf(&self) -> bool {
        &&& forall|keys: Seq<u64>| #[trigger]
            by_set(self.index).contains_key(keys) ==> by_set(self.index)[keys] < self.sets@.len()
                && self.sets@[by_set(self.index)[keys] as int].keys@ == keys
        &&& forall|g: int|
            0 <= g < self.sets@.len() ==> strictly_ascending((#[trigger] self.sets@[g]).keys@)
                && self.sets@[g].count > 0
    }

    /// One more entity has the key set `keys`.
    fn add_set(&mut self, keys: Vec<u64>)
        requires
            old(self).wf(),
            strictly_ascending(keys@),
            population(old(self).sets@) < u64::MAX,
        ensures
            final(self).wf(),
            population(final(self).sets@) == population(old(self).sets@) + 1,
            forall|a: u64, b: u64| #[trigger]
                weight(final(self).sets@, a, b) == weight(old(self).sets@, a, b) + if keys@.contains(
                    a,
                ) && keys@.contains(b) {
                    1nat
                } else {
                    0
                },
    {
        let ghost before = self.sets@;
        match fx_sets_get(&self.index, keys.as_slice()) {
            Some(g) => {
                proof {
                    lemma_count_bound(before, g as int);
                }
                let n: u64 = self.sets[g].count + 1;
                self.sets[g].count = n;
                proof {
                    assert(before[g as int].keys@ == keys@);
                    assert forall|a: u64, b: u64| #[trigger]
                        weight(self.sets@, a, b) == weight(before, a, b) + if keys@.contains(a)
                            && keys@.contains(b) {
                            1nat
                        } else {
                            0
                        } by {
                        lemma_weight_grown(before, self.sets@, g as int, a, b);
                    }
                    lemma_weight_grown(before, self.sets@, g as int, 0, 0);
                }
            },
            None => {
                let n: usize = self.sets.len();
                let copy = keys.clone();
                assert(copy@ =~= keys@);
                fx_sets_insert(&mut self.index, copy, n);
                self.sets.push(KeySet { keys, count: 1 });
                proof {
                    assert(self.sets@.drop_last() =~= before);
                }
            },
        }
    }
}

proof fn lemma_count_bound(sets: Seq<KeySet>, g: int)
    requires
        0 <= g < sets.len(),
    ensures
        sets[g].count <= population(sets),
    decreases sets.len(),
{
    if g < sets.len() - 1 {
        lemma_count_bound(sets.drop_last(), g);
    }
}

/// Add the key sets of the entities of one type.
fn add_key_sets(parent: &Osm, entity: EntityType, sets: &mut KeySets)
    requires
        parent.wf(),
        old(sets).wf(),
        population(old(sets).sets@) + parent.len_of(entity) <= u64::MAX,
    ensures
        final(sets).wf(),
        population(final(sets).sets@) == population(old(sets).sets@) + parent.len_of(entity),
        forall|a: u64, b: u64| #[trigger]
            weight(final(sets).sets@, a, b) == weight(old(sets).sets@, a, b) + tally_in(
                carries_both_keys(parent, a, b),
                entity,
                parent.len_of(entity),
            ),
{
    let n: usize = parent.entity_count(entity);
    let ghost before = sets.sets@;
    let mut i: usize = 0;
    while i < n
        invariant
            parent.wf(),
            n == parent.len_of(entity),
            i <= n,
            sets.wf(),
            population(before) + n <= u64::MAX,
            population(sets.sets@) == population(before) + i,
            forall|a: u64, b: u64| #[trigger]
                weight(sets.sets@, a, b) == weight(before, a, b) + tally_in(
                    carries_both_keys(parent, a, b),
                    entity,
                    i as nat,
                ),
        decreases n - i,
    {
        let keys = key_set(parent, entity, i);
        let ghost so_far = sets.sets@;
        let ghost these = keys@;
        sets.add_set(keys);
        proof {
            assert forall|a: u64, b: u64| #[trigger]
                weight(sets.sets@, a, b) == weight(before, a, b) + tally_in(
                    carries_both_keys(parent, a, b),
                    entity,
                    (i + 1) as nat,
                ) by {
                assert(weight(so_far, a, b) == weight(before, a, b) + tally_in(
                    carries_both_keys(parent, a, b),
                    entity,
                    i as nat,
                ));
                assert(these.contains(a) <==> carries_key(parent, entity, i as int, a));
                assert(these.contains(b) <==> carries_key(parent, entity, i as int, b));
            }
        }
        i = i + 1;
    }
}

/// Group the entities by key set and count each pair of keys of each set.
fn count_key_pairs(parent: &Osm) -> (out: PairCounts)
    requires
        parent.wf(),
    ensures
        out.wf(),
        forall|a: u64, b: u64| #[trigger]
            out.at(a, b) == if a == b {
                0
            } else {
                keys_together(parent, a, b)
            },
{
    let mut grouped = KeySets { index: fx_sets_new(), sets: Vec::new() };
    add_key_sets(parent, EntityType::Node, &mut grouped);
    add_key_sets(parent, EntityType::Way, &mut grouped);
    add_key_sets(parent, EntityType::Relation, &mut grouped);
    let sets = grouped.sets;
    proof {
        assert forall|a: u64, b: u64| #[trigger]
            weight(sets@, a, b) == keys_together(parent, a, b) by {
        }
    }
    let mut out = PairCounts::new();
    let mut g: usize = 0;
    proof {
        assert(sets@.take(0) =~= Seq::<KeySet>::empty());
    }
    while g < sets.len()
        invariant
            g <= sets@.len(),
            out.wf(),
            population(sets@) <= u64::MAX,
            forall|h: int|
                0 <= h < sets@.len() ==> strictly_ascending((#[trigger] sets@[h]).keys@)
                    && sets@[h].count > 0,
            forall|a: u64, b: u64| #[trigger]
                out.at(a, b) == if a == b {
                    0
                } else {
                    weight(sets@.take(g as int), a, b)
                },
        decreases sets@.len() - g,
    {
        proof {
            lemma_population_prefix(sets@, g + 1);
            assert(sets@.take(g + 1).drop_last() =~= sets@.take(g as int));
            assert(sets@.take(g + 1).last() == sets@[g as int]);
        }
        count_set(&mut out, &sets[g], Ghost(sets@.take(g as int)));
        g = g + 1;
    }
    proof {
        assert(sets@.take(g as int) =~= sets@);
    }
    out
}

proof fn lemma_population_prefix(sets: Seq<KeySet>, n: int)
    requires
        0 <= n <= sets.len(),
    ensures
        population(sets.take(n)) <= population(sets),
    decreases sets.len(),
{
    if n < sets.len() {
        lemma_population_prefix(sets.drop_last(), n);
        assert(sets.drop_last().take(n) =~= sets.take(n));
    } else {
        assert(sets.take(n) =~= sets);
    }
}

/// Count every pair of the keys of `set`, scaled by its number of entities.
fn count_set(out: &mut PairCounts, set: &KeySet, Ghost(earlier): Ghost<Seq<KeySet>>)
    requires
        old(out).wf(),
        strictly_ascending(set.keys@),
        set.count > 0,
        population(earlier) + set.count <= u64::MAX,
        forall|a: u64, b: u64| #[trigger]
            old(out).at(a, b) == if a == b {
                0
            } else {
                weight(earlier, a, b)
            },
    ensures
        final(out).wf(),
        forall|a: u64, b: u64| #[trigger]
            final(out).at(a, b) == old(out).at(a, b) + if a != b && set.keys@.contains(a)
                && set.keys@.contains(b) {
                set.count as nat
            } else {
                0
            },
{
    let ghost start = *out;
    let ghost keys = set.keys@;
    let ghost w = set.count as nat;
    let n: usize = set.keys.len();
    let mut i: usize = 0;
    while i < n
        invariant
            i <= n,
            n == keys.len(),
            keys == set.keys@,
            w == set.count as nat,
            w > 0,
            strictly_ascending(keys),
            out.wf(),
            population(earlier) + set.count <= u64::MAX,
            forall|a: u64, b: u64| #[trigger]
                start.at(a, b) == if a == b {
                    0
                } else {
                    weight(earlier, a, b)
                },
            forall|a: u64, b: u64| #[trigger]
                out.at(a, b) == start.at(a, b) + if a != b && keys.take(i as int).contains(a)
                    && keys.contains(b) {
                    w
                } else {
                    0
                },
        decreases n - i,
    {
        let key: u64 = set.keys[i];
        let ghost row = *out;
        let mut j: usize = 0;
        proof {
            assert forall|b: u64| !#[trigger] keys.take(0).contains(b) by {
            }
            assert(!keys.take(i as int).contains(key)) by {
                if keys.take(i as int).contains(key) {
                    let m = choose|m: int|
                        0 <= m < keys.take(i as int).len() && keys.take(i as int)[m] == key;
                    assert(keys[m] == key);
                }
            }
        }
        while j < n
            invariant
                i < n,
                j <= n,
                n == keys.len(),
                keys == set.keys@,
                key == keys[i as int],
                w == set.count as nat,
                w > 0,
                strictly_ascending(keys),
                !keys.take(i as int).contains(key),
                out.wf(),
                population(earlier) + set.count <= u64::MAX,
                forall|a: u64, b: u64| #[trigger]
                    start.at(a, b) == if a == b {
                        0
                    } else {
                        weight(earlier, a, b)
                    },
                forall|a: u64, b: u64| #[trigger]
                    row.at(a, b) == start.at(a, b) + if a != b && keys.take(i as int).contains(a)
                        && keys.contains(b) {
                        w
                    } else {
                        0
                    },
                forall|a: u64, b: u64| #[trigger]
                    out.at(a, b) == row.at(a, b) + if a == key && a != b && keys.take(
                        j as int,
                    ).contains(b) {
                        w
                    } else {
                        0
                    },
            decreases n - j,
        {
            let other: u64 = set.keys[j];
            let ghost before = *out;
            proof {
                assert(keys.take(j + 1) =~= keys.take(j as int).push(other));
                assert forall|b: u64| #[trigger]
                    keys.take(j + 1).contains(b) <==> keys.take(j as int).contains(b) || b
                        == other by {
                    vstd::seq_lib::lemma_seq_contains_after_push(keys.take(j as int), other, b);
                    if b == other {
                        assert(keys.take(j + 1)[j as int] == other);
                    }
                }
                assert(!keys.take(j as int).contains(other)) by {
                    if keys.take(j as int).contains(other) {
                        let m = choose|m: int|
                            0 <= m < keys.take(j as int).len() && keys.take(j as int)[m] == other;
                        assert(keys[m] == other);
                    }
                }
            }
            if key != other {
                proof {
                    lemma_weight_bound(earlier, key, other);
                    assert(row.at(key, other) == start.at(key, other));
                    assert(before.at(key, other) == row.at(key, other));
                    assert(start.at(key, other) == weight(earlier, key, other));
                }
                out.add_count(key, other, set.count);
            }
            proof {
                assert forall|a: u64, b: u64| #[trigger]
                    out.at(a, b) == row.at(a, b) + if a == key && a != b && keys.take(
                        j + 1,
                    ).contains(b) {
                        w
                    } else {
                        0
                    } by {
                    assert(before.at(a, b) >= 0);
                }
            }
            j = j + 1;
        }
        proof {
            assert(keys.take(j as int) =~= keys);
            assert(keys.take(i + 1) =~= keys.take(i as int).push(key));
            assert forall|a: u64| #[trigger]
                keys.take(i + 1).contains(a) <==> keys.take(i as int).contains(a) || a == key by {
                vstd::seq_lib::lemma_seq_contains_after_push(keys.take(i as int), key, a);
                if a == key {
                    assert(keys.take(i + 1)[i as int] == key);
                }
            }
            assert forall|a: u64, b: u64| #[trigger]
                out.at(a, b) == start.at(a, b) + if a != b && keys.take(i + 1).contains(a)
                    && keys.contains(b) {
                    w
                } else {
                    0
                } by {
                assert(row.at(a, b) >= 0);
            }
        }
        i = i + 1;
    }
    proof {
        assert(keys.take(i as int) =~= keys);
    }
}

/// Most frequent first, then by key.
pub open spec fn combo_le(parent: &Osm, a: Combo, b: Combo) -> bool {
    a.together_count > b.together_count || (a.together_count == b.together_count && key_le(
        parent,
        a.other_key_idx,
        b.other_key_idx,
    ))
}

/// `row` lists the keys that occur together with `key_idx`, with how many
/// entities carry both: each of them once, most frequent first, then by key.
pub open spec fn is_key_combos(parent: &Osm, key_idx: u64, row: Seq<Combo>) -> bool {
    &&& forall|i: int, j: int|
        0 <= i <= j < row.len() ==> combo_le(parent, #[trigger] row[i], #[trigger] row[j])
    &&& forall|i: int, j: int|
        0 <= i < j < row.len() ==> (#[trigger] row[i]).other_key_idx != (
        #[trigger] row[j]).other_key_idx
    &&& forall|i: int|
        0 <= i < row.len() ==> (#[trigger] row[i]).other_key_idx != key_idx
            && row[i].together_count == keys_together(parent, key_idx, row[i].other_key_idx)
            && row[i].together_count > 0
    &&& forall|o: u64|
        o != key_idx && keys_together(parent, key_idx, o) > 0 ==> #[trigger] lists_key(row, o)
}

/// `row` has an entry for key `o`.
pub open spec fn lists_key(row: Seq<Combo>, o: u64) -> bool {
    exists|i: int| 0 <= i < row.len() && (#[trigger] row[i]).other_key_idx == o
}

proof fn lemma_tally_witness(p: spec_fn(EntityType, int) -> bool, entity: EntityType, n: nat) -> (i:
    int)
    requires
        tally_in(p, entity, n) > 0,
    ensures
        0 <= i < n,
        p(entity, i),
    decreases n,
{
    if p(entity, n - 1) {
        n - 1
    } else {
        lemma_tally_witness(p, entity, (n - 1) as nat)
    }
}

/// A key that some entity carries is a string of the table.
pub(crate) proof fn lemma_carried_key(parent: &Osm, a: u64, b: u64)
    requires
        parent.wf(),
        keys_together(parent, a, b) > 0,
    ensures
        b <= parent.stringtable.len(),
{
    let p = carries_both_keys(parent, a, b);
    let entity = if tally_in(p, EntityType::Node, parent.len_of(EntityType::Node)) > 0 {
        EntityType::Node
    } else if tally_in(p, EntityType::Way, parent.len_of(EntityType::Way)) > 0 {
        EntityType::Way
    } else {
        EntityType::Relation
    };
    let i = lemma_tally_witness(p, entity, parent.len_of(entity));
    let s = choose|s: u64| #[trigger]
        parent.slots_of(entity, i).contains(s) && parent.tags@[s as int].key_idx == b;
    lemma_slot_in_range(parent, entity, i, s);
}

pub proof fn lemma_slot_in_range(parent: &Osm, entity: EntityType, i: int, s: u64)
    requires
        parent.wf(),
        0 <= i < parent.len_of(entity),
        carries(parent, entity, i, s),
    ensures
        s < parent.tags.len(),
{
    let slots = parent.slots_of(entity, i);
    let span = parent.tag_span(entity, i);
    assert(span.within(parent.tags_index.len() as nat));
    let m = choose|m: int| 0 <= m < slots.len() && slots[m] == s;
    assert(parent.tags_index@[span.start + m] == s);
}

/// The keys that occur together with `key_idx`.
fn key_combos(parent: &Osm, counts: &PairCounts, key_idx: u64) -> (out: Vec<Combo>)
    requires
        parent.wf(),
        counts.wf(),
        forall|a: u64, b: u64| #[trigger]
            counts.at(a, b) == if a == b {
                0
            } else {
                keys_together(parent, a, b)
            },
    ensures
        is_key_combos(parent, key_idx, out@),
{
    match fx_get(&counts.row_of, key_idx) {
        None => {
            let out: Vec<Combo> = Vec::new();
            proof {
                assert forall|o: u64|
                    o != key_idx && keys_together(parent, key_idx, o) > 0 implies #[trigger] lists_key(
                    out@,
                    o,
                ) by {
                    assert(counts.at(key_idx, o) == 0);
                }
            }
            out
        },
        Some(r) => {
            let row = &counts.rows[r];
            let mut list: Vec<Combo> = Vec::new();
            let mut i: usize = 0;
            while i < row.combos.len()
                invariant
                    i <= row.combos@.len(),
                    list@ == row.combos@.take(i as int),
                decreases row.combos@.len() - i,
            {
                list.push(row.combos[i]);
                proof {
                    assert(list@ =~= row.combos@.take(i + 1));
                }
                i = i + 1;
            }
            let ghost listed = list@;
            proof {
                assert(listed =~= row.combos@);
                assert forall|c: int| 0 <= c < listed.len() implies (
                #[trigger] listed[c]).other_key_idx != key_idx && listed[c].together_count
                    == keys_together(parent, key_idx, listed[c].other_key_idx)
                    && listed[c].together_count > 0 && listed[c].other_key_idx
                    <= parent.stringtable.len() by {
                    let o = row.combos@[c].other_key_idx;
                    assert(counts.at(key_idx, o) == row.at(o));
                    assert(row.combos@[c].together_count > 0);
                    lemma_carried_key(parent, key_idx, o);
                }
            }
            let out = sort_combos(parent, list);
            proof {
                lemma_same_items(listed, out@);
                assert forall|i: int| 0 <= i < out@.len() implies (
                #[trigger] out@[i]).other_key_idx != key_idx && out@[i].together_count
                    == keys_together(parent, key_idx, out@[i].other_key_idx)
                    && out@[i].together_count > 0 by {
                    assert(out@.contains(out@[i]));
                    let c = choose|c: int| 0 <= c < listed.len() && listed[c] == out@[i];
                    assert(listed[c] == out@[i]);
                }
                assert forall|i: int, j: int| 0 <= i < j < out@.len() implies (
                #[trigger] out@[i]).other_key_idx != (#[trigger] out@[j]).other_key_idx by {
                    assert(listed.no_duplicates()) by {
                        assert forall|a: int, b: int|
                            0 <= a < listed.len() && 0 <= b < listed.len() && a != b implies listed[a]
                            != listed[b] by {
                            assert(row.index@[row.combos@[a].other_key_idx] == a);
                            assert(row.index@[row.combos@[b].other_key_idx] == b);
                        }
                    }
                    assert(out@.contains(out@[i]));
                    assert(out@.contains(out@[j]));
                    let a = choose|a: int| 0 <= a < listed.len() && listed[a] == out@[i];
                    let b = choose|b: int| 0 <= b < listed.len() && listed[b] == out@[j];
                    assert(out@[i] != out@[j]);
                    assert(row.index@[row.combos@[a].other_key_idx] == a);
                    assert(row.index@[row.combos@[b].other_key_idx] == b);
                }
                assert forall|o: u64|
                    o != key_idx && keys_together(parent, key_idx, o) > 0 implies #[trigger] lists_key(
                    out@,
                    o,
                ) by {
                    assert(counts.at(key_idx, o) == row.at(o));
                    let c = row.index@[o] as int;
                    assert(listed[c].other_key_idx == o);
                    assert(listed.contains(listed[c]));
                    let i = choose|i: int| 0 <= i < out@.len() && out@[i] == listed[c];
                    assert(out@[i].other_key_idx == o);
                }
            }
            out
        },
    }
}

/// Sort co-occurring keys, most frequent first, then by key.
fn sort_combos(parent: &Osm, list: Vec<Combo>) -> (out: Vec<Combo>)
    requires
        parent.wf(),
        forall|i: int|
            0 <= i < list@.len() ==> (#[trigger] list@[i]).other_key_idx <= parent.stringtable.len(),
    ensures
        same_items(out@, list@),
        forall|i: int, j: int|
            0 <= i <= j < out@.len() ==> combo_le(parent, #[trigger] out@[i], #[trigger] out@[j]),
{
    let leq = |a: Combo, b: Combo| -> (r: bool)
        requires
            parent.wf(),
            a.other_key_idx <= parent.stringtable.len(),
            b.other_key_idx <= parent.stringtable.len(),
        ensures
            r == combo_le(parent, a, b),
        {
            a.together_count > b.together_count || (a.together_count == b.together_count
                && tie_leq(
                parent.string(a.other_key_idx),
                a.other_key_idx,
                parent.string(b.other_key_idx),
                b.other_key_idx,
            ))
        };
    let ghost model = |a: Combo, b: Combo| combo_le(parent, a, b);
    proof {
        lemma_tie_le();
        assert forall|a: Combo, b: Combo| #[trigger] model(a, b) || model(b, a) by {
        }
        assert forall|a: Combo, b: Combo, c: Combo| #[trigger]
            model(a, b) && #[trigger] model(b, c) implies model(a, c) by {
        }
    }
    let out = merge_sort(list, &leq, Ghost(model));
    proof {
        assert forall|i: int, j: int| 0 <= i <= j < out@.len() implies combo_le(
            parent,
            #[trigger] out@[i],
            #[trigger] out@[j],
        ) by {
            assert(model(out@[i], out@[j]));
        }
    }
    out
}

/// A tag that occurs together with another one, and how often.
#[derive(Clone, Copy, Debug, PartialEq, Eq, Structural)]
pub struct TagCombo {
    pub other_slot: u64,
    pub together_count: u64,
}

/// Slot `a` comes no later than slot `b`: by key string, then by value string,
/// then by slot.
pub open spec fn tag_le(parent: &Osm, a: u64, b: u64) -> bool {
    lex_lt(parent.key_string(a as int), parent.key_string(b as int)) || (parent.key_string(a as int)
        == parent.key_string(b as int) && value_le(parent, a, b))
}

/// Most frequent first, then by key and value.
pub open spec fn tag_combo_le(parent: &Osm, a: TagCombo, b: TagCombo) -> bool {
    a.together_count > b.together_count || (a.together_count == b.together_count && tag_le(
        parent,
        a.other_slot,
        b.other_slot,
    ))
}

/// `row` lists the tags that occur together with `slot`, with how many entities
/// carry both: each of them once, most frequent first, then by key and value.
pub open spec fn is_tag_combos(parent: &Osm, slot: u64, row: Seq<TagCombo>) -> bool {
    &&& forall|i: int, j: int|
        0 <= i <= j < row.len() ==> tag_combo_le(parent, #[trigger] row[i], #[trigger] row[j])
    &&& forall|i: int, j: int|
        0 <= i < j < row.len() ==> (#[trigger] row[i]).other_slot != (#[trigger] row[j]).other_slot
    &&& forall|i: int|
        0 <= i < row.len() ==> (#[trigger] row[i]).other_slot != slot && row[i].other_slot
            < parent.tags.len() && row[i].together_count == tags_together(
            parent,
            slot,
            row[i].other_slot,
        ) && row[i].together_count > 0
    &&& forall|o: u64|
        o != slot && tags_together(parent, slot, o) > 0 ==> #[trigger] lists_tag(row, o)
}

/// `row` has an entry for slot `o`.
pub open spec fn lists_tag(row: Seq<TagCombo>, o: u64) -> bool {
    exists|i: int| 0 <= i < row.len() && (#[trigger] row[i]).other_slot == o
}

/// Append every pair of two distinct `slots`.
fn push_pairs(buckets: &mut PairBuckets, slots: &Vec<u64>)
    requires
        old(buckets).wf(),
        strictly_ascending(slots@),
        forall|k: int| 0 <= k < slots@.len() ==> (#[trigger] slots@[k]) < old(buckets).children(),
    ensures
        final(buckets).wf(),
        final(buckets).children() == old(buckets).children(),
        forall|a: u64, b: u64| #[trigger]
            count(final(buckets).pairs(), (a, b)) == count(old(buckets).pairs(), (a, b)) + if a != b
                && slots@.contains(a) && slots@.contains(b) {
                1nat
            } else {
                0
            },
{
    let ghost start = *buckets;
    let ghost all = slots@;
    let n: usize = slots.len();
    let mut i: usize = 0;
    while i < n
        invariant
            i <= n,
            n == all.len(),
            all == slots@,
            strictly_ascending(all),
            buckets.wf(),
            buckets.children() == start.children(),
            forall|k: int| 0 <= k < all.len() ==> (#[trigger] all[k]) < start.children(),
            forall|a: u64, b: u64| #[trigger]
                count(buckets.pairs(), (a, b)) == count(start.pairs(), (a, b)) + if a != b
                    && all.take(i as int).contains(a) && all.contains(b) {
                    1nat
                } else {
                    0
                },
        decreases n - i,
    {
        let slot: u64 = slots[i];
        let ghost row = buckets.pairs();
        let mut j: usize = 0;
        proof {
            assert(!all.take(i as int).contains(slot)) by {
                if all.take(i as int).contains(slot) {
                    let m = choose|m: int|
                        0 <= m < all.take(i as int).len() && all.take(i as int)[m] == slot;
                    assert(all[m] == slot);
                }
            }
        }
        while j < n
            invariant
                i < n,
                j <= n,
                n == all.len(),
                all == slots@,
                slot == all[i as int],
                strictly_ascending(all),
                buckets.wf(),
                buckets.children() == start.children(),
                forall|k: int| 0 <= k < all.len() ==> (#[trigger] all[k]) < start.children(),
                forall|a: u64, b: u64| #[trigger]
                    count(buckets.pairs(), (a, b)) == count(row, (a, b)) + if a == slot && a != b
                        && all.take(j as int).contains(b) {
                        1nat
                    } else {
                        0
                    },
            decreases n - j,
        {
            let other: u64 = slots[j];
            let ghost before = buckets.pairs();
            proof {
                assert(all.take(j + 1) =~= all.take(j as int).push(other));
                assert forall|b: u64| #[trigger]
                    all.take(j + 1).contains(b) <==> all.take(j as int).contains(b) || b
                        == other by {
                    vstd::seq_lib::lemma_seq_contains_after_push(all.take(j as int), other, b);
                    if b == other {
                        assert(all.take(j + 1)[j as int] == other);
                    }
                }
                assert(!all.take(j as int).contains(other)) by {
                    if all.take(j as int).contains(other) {
                        let m = choose|m: int|
                            0 <= m < all.take(j as int).len() && all.take(j as int)[m] == other;
                        assert(all[m] == other);
                    }
                }
            }
            if slot != other {
                buckets.push(slot, other);
            }
            proof {
                assert forall|a: u64, b: u64| #[trigger]
                    count(buckets.pairs(), (a, b)) == count(row, (a, b)) + if a == slot && a != b
                        && all.take(j + 1).contains(b) {
                        1nat
                    } else {
                        0
                    } by {
                    lemma_count(before, (a, b));
                    assert(count(before, (a, b)) >= 0);
                }
            }
            j = j + 1;
        }
        proof {
            assert(all.take(j as int) =~= all);
            assert(all.take(i + 1) =~= all.take(i as int).push(slot));
            assert forall|a: u64| #[trigger]
                all.take(i + 1).contains(a) <==> all.take(i as int).contains(a) || a == slot by {
                vstd::seq_lib::lemma_seq_contains_after_push(all.take(i as int), slot, a);
                if a == slot {
                    assert(all.take(i + 1)[i as int] == slot);
                }
            }
            assert forall|a: u64, b: u64| #[trigger]
                count(buckets.pairs(), (a, b)) == count(start.pairs(), (a, b)) + if a != b
                    && all.take(i + 1).contains(a) && all.contains(b) {
                    1nat
                } else {
                    0
                } by {
                assert(count(row, (a, b)) >= 0);
            }
        }
        i = i + 1;
    }
    proof {
        assert(all.take(i as int) =~= all);
    }
}

/// Append the tag pairs of the entities of one type.
fn push_tag_pairs(parent: &Osm, entity: EntityType, buckets: &mut PairBuckets)
    requires
        parent.wf(),
        old(buckets).wf(),
        old(buckets).children() == parent.tags.len(),
    ensures
        final(buckets).wf(),
        final(buckets).children() == parent.tags.len(),
        forall|a: u64, b: u64| #[trigger]
            count(final(buckets).pairs(), (a, b)) == count(old(buckets).pairs(), (a, b)) + if a
                != b {
                tally_in(carries_both(parent, a, b), entity, parent.len_of(entity))
            } else {
                0
            },
{
    let n: usize = parent.entity_count(entity);
    let ghost before = buckets.pairs();
    let mut i: usize = 0;
    while i < n
        invariant
            parent.wf(),
            n == parent.len_of(entity),
            i <= n,
            buckets.wf(),
            buckets.children() == parent.tags.len(),
            forall|a: u64, b: u64| #[trigger]
                count(buckets.pairs(), (a, b)) == count(before, (a, b)) + if a != b {
                    tally_in(carries_both(parent, a, b), entity, i as nat)
                } else {
                    0
                },
        decreases n - i,
    {
        let slots = slot_set(parent, entity, i);
        let ghost so_far = buckets.pairs();
        push_pairs(buckets, &slots);
        proof {
            assert forall|a: u64, b: u64| #[trigger]
                count(buckets.pairs(), (a, b)) == count(before, (a, b)) + if a != b {
                    tally_in(carries_both(parent, a, b), entity, (i + 1) as nat)
                } else {
                    0
                } by {
                assert(count(so_far, (a, b)) >= 0);
                assert(slots@.contains(a) <==> carries(parent, entity, i as int, a));
                assert(slots@.contains(b) <==> carries(parent, entity, i as int, b));
            }
        }
        i = i + 1;
    }
}

/// `row` lists, in ascending order, what occurs with `slot` in `records` and how
/// often.
spec fn is_run_lengths(row: Seq<TagCombo>, records: Seq<(u64, u64)>, slot: u64) -> bool {
    &&& forall|i: int, j: int|
        0 <= i < j < row.len() ==> (#[trigger] row[i]).other_slot < (#[trigger] row[j]).other_slot
    &&& forall|i: int|
        0 <= i < row.len() ==> (#[trigger] row[i]).together_count == count(
            records,
            (slot, row[i].other_slot),
        ) && row[i].together_count > 0
    &&& forall|o: u64| #[trigger] count(records, (slot, o)) > 0 ==> lists_tag(row, o)
}

/// Run-length encode sorted records into one row per slot.
fn run_lengths(records: &Vec<(u64, u64)>, n_slots: usize) -> (rows: Vec<Vec<TagCombo>>)
    requires
        pairs_sorted(records@),
        forall|i: int| 0 <= i < records@.len() ==> (#[trigger] records@[i]).0 < n_slots,
    ensures
        rows@.len() == n_slots,
        forall|s: int|
            0 <= s < n_slots ==> is_run_lengths((#[trigger] rows@[s])@, records@, s as u64),
{
    let mut rows: Vec<Vec<TagCombo>> = Vec::new();
    let mut r: usize = 0;
    while r < n_slots
        invariant
            r <= n_slots,
            rows@.len() == r,
            forall|s: int| 0 <= s < r ==> (#[trigger] rows@[s])@.len() == 0,
        decreases n_slots - r,
    {
        rows.push(Vec::new());
        r = r + 1;
    }
    let ghost all = records@;
    proof {
        assert forall|s: int| 0 <= s < n_slots implies is_run_lengths(
            (#[trigger] rows@[s])@,
            all.take(0),
            s as u64,
        ) by {
            assert forall|o: u64| #[trigger]
                count(all.take(0), (s as u64, o)) > 0 implies lists_tag(rows@[s]@, o) by {
                lemma_count(all.take(0), (s as u64, o));
            }
        }
    }
    let mut k: usize = 0;
    while k < records.len()
        invariant
            k <= all.len(),
            all == records@,
            pairs_sorted(all),
            forall|i: int| 0 <= i < all.len() ==> (#[trigger] all[i]).0 < n_slots,
            rows@.len() == n_slots,
            0 < k < all.len() ==> all[k - 1] != all[k as int],
            forall|s: int|
                0 <= s < n_slots ==> is_run_lengths(
                    (#[trigger] rows@[s])@,
                    all.take(k as int),
                    s as u64,
                ),
        decreases all.len() - k,
    {
        let (slot, other_slot): (u64, u64) = records[k];
        let ghost x = all[k as int];
        let mut m: usize = k + 1;
        proof {
            assert(all.take(k + 1) =~= all.take(k as int).push(x));
            assert forall|y: (u64, u64)| #[trigger]
                count(all.take(k + 1), y) == count(all.take(k as int), y) + if y == x {
                    1nat
                } else {
                    0
                } by {
                lemma_count(all.take(k as int), y);
            }
        }
        while m < records.len() && records[m].0 == slot && records[m].1 == other_slot
            invariant
                k < m <= all.len(),
                all == records@,
                x == all[k as int],
                x == (slot, other_slot),
                forall|y: (u64, u64)| #[trigger]
                    count(all.take(m as int), y) == count(all.take(k as int), y) + if y == x {
                        (m - k) as nat
                    } else {
                        0
                    },
                all[m - 1] == x,
            decreases all.len() - m,
        {
            proof {
                assert(all.take(m + 1) =~= all.take(m as int).push(x));
                assert forall|y: (u64, u64)| #[trigger]
                    count(all.take(m + 1), y) == count(all.take(k as int), y) + if y == x {
                        (m + 1 - k) as nat
                    } else {
                        0
                    } by {
                    lemma_count(all.take(m as int), y);
                    assert(count(all.take(m as int), y) >= 0);
                }
            }
            m = m + 1;
        }
        proof {
            assert(!all.take(k as int).contains(x)) by {
                if all.take(k as int).contains(x) {
                    let i = choose|i: int|
                        0 <= i < all.take(k as int).len() && all.take(k as int)[i] == x;
                    assert(pair_le(all[i], all[k - 1]));
                    assert(pair_le(all[k - 1], all[k as int]));
                }
            }
            lemma_count(all.take(k as int), x);
        }
        let ghost before = rows@;
        rows[slot as usize].push(
            TagCombo { other_slot, together_count: (m - k) as u64 },
        );
        proof {
            let (now, next) = (all.take(k as int), all.take(m as int));
            assert forall|s: int| 0 <= s < n_slots implies is_run_lengths(
                (#[trigger] rows@[s])@,
                next,
                s as u64,
            ) by {
                assert(is_run_lengths(before[s]@, now, s as u64));
                let (old_row, row) = (before[s]@, rows@[s]@);
                if s == slot {
                    assert(row == old_row.push(
                        TagCombo { other_slot, together_count: (m - k) as u64 },
                    ));
                    assert forall|i: int| 0 <= i < old_row.len() implies (
                    #[trigger] old_row[i]).other_slot < other_slot by {
                        let y = (slot, old_row[i].other_slot);
                        lemma_count(now, y);
                        let c = choose|c: int| 0 <= c < now.len() && now[c] == y;
                        assert(pair_le(all[c], all[k as int]));
                    }
                } else {
                    assert(row == old_row);
                }
                assert forall|i: int| 0 <= i < row.len() implies (
                #[trigger] row[i]).together_count == count(next, (s as u64, row[i].other_slot))
                    && row[i].together_count > 0 by {
                    if i < old_row.len() {
                        assert(row[i] == old_row[i]);
                        let y = (s as u64, row[i].other_slot);
                        assert(count(next, y) >= 0);
                        assert(y != x);
                    } else {
                        assert(count(next, x) == count(now, x) + (m - k) as nat);
                    }
                }
                assert forall|o: u64| #[trigger] count(next, (s as u64, o)) > 0 implies lists_tag(
                    row,
                    o,
                ) by {
                    let y = (s as u64, o);
                    if y == x {
                        assert(row[old_row.len() as int].other_slot == o);
                    } else {
                        assert(count(now, y) > 0);
                        let i = choose|i: int|
                            0 <= i < old_row.len() && (#[trigger] old_row[i]).other_slot == o;
                        assert(row[i] == old_row[i]);
                        assert(row[i].other_slot == o);
                    }
                }
            }
        }
        k = m;
    }
    proof {
        assert(all.take(k as int) =~= all);
    }
    rows
}

/// Sort co-occurring tags, most frequent first, then by key and value.
fn sort_tag_combos(parent: &Osm, list: Vec<TagCombo>) -> (out: Vec<TagCombo>)
    requires
        parent.wf(),
        forall|i: int|
            0 <= i < list@.len() ==> (#[trigger] list@[i]).other_slot < parent.tags.len(),
    ensures
        same_items(out@, list@),
        forall|i: int, j: int|
            0 <= i <= j < out@.len() ==> tag_combo_le(parent, #[trigger] out@[i], #[trigger] out@[j]),
{
    let leq = |a: TagCombo, b: TagCombo| -> (r: bool)
        requires
            parent.wf(),
            a.other_slot < parent.tags.len(),
            b.other_slot < parent.tags.len(),
        ensures
            r == tag_combo_le(parent, a, b),
        {
            a.together_count > b.together_count || (a.together_count == b.together_count
                && tag_leq(parent, a.other_slot, b.other_slot))
        };
    let ghost model = |a: TagCombo, b: TagCombo| tag_combo_le(parent, a, b);
    proof {
        assert forall|a: TagCombo, b: TagCombo| #[trigger] model(a, b) || model(b, a) by {
            lemma_tag_le(parent, a.other_slot, b.other_slot, b.other_slot);
        }
        assert forall|a: TagCombo, b: TagCombo, c: TagCombo| #[trigger]
            model(a, b) && #[trigger] model(b, c) implies model(a, c) by {
            lemma_tag_le(parent, a.other_slot, b.other_slot, c.other_slot);
        }
    }
    let out = merge_sort(list, &leq, Ghost(model));
    proof {
        assert forall|i: int, j: int| 0 <= i <= j < out@.len() implies tag_combo_le(
            parent,
            #[trigger] out@[i],
            #[trigger] out@[j],
        ) by {
            assert(model(out@[i], out@[j]));
        }
    }
    out
}

pub proof fn lemma_tag_le(parent: &Osm, a: u64, b: u64, c: u64)
    ensures
        tag_le(parent, a, b) || tag_le(parent, b, a),
        tag_le(parent, a, b) && tag_le(parent, b, c) ==> tag_le(parent, a, c),
{
    lemma_tie_le();
    let (x, y, z) = (
        parent.key_string(a as int),
        parent.key_string(b as int),
        parent.key_string(c as int),
    );
    lemma_lex_total(x, y);
    lemma_lex_total(y, z);
    lemma_lex_total(x, z);
    if lex_lt(x, y) && lex_lt(y, z) {
        lemma_lex_chain(x, y, z);
    }
}

/// Compare two slots by key string, then by value string, then by slot.
fn tag_leq(parent: &Osm, a: u64, b: u64) -> (out: bool)
    requires
        parent.wf(),
        a < parent.tags.len(),
        b < parent.tags.len(),
    ensures
        out == tag_le(parent, a, b),
{
    let (x, y) = (parent.tags[a as usize], parent.tags[b as usize]);
    proof {
        lemma_lex_total(parent.key_string(a as int), parent.key_string(b as int));
    }
    match compare(parent.string(x.key_idx), parent.string(y.key_idx)) {
        Compared::Less => true,
        Compared::Same => tie_leq(parent.string(x.value_idx), a, parent.string(y.value_idx), b),
        Compared::Greater => false,
    }
}

/// Number of buckets that tag pairs are partitioned into before sorting.
pub const N_TAG_BUCKETS: usize = 256;

/// The tags that occur together with each slot.
fn tag_combos(parent: &Osm) -> (out: Vec<Vec<TagCombo>>)
    requires
        parent.wf(),
    ensures
        out@.len() == parent.tags.len(),
        forall|s: int|
            0 <= s < parent.tags.len() ==> is_tag_combos(parent, s as u64, (#[trigger] out@[s])@),
{
    let n_slots: usize = parent.tags.len();
    let mut buckets = PairBuckets::with_buckets(n_slots, N_TAG_BUCKETS);
    proof {
        assert forall|a: u64, b: u64| #[trigger] count(buckets.pairs(), (a, b)) == 0 by {
            lemma_count(buckets.pairs(), (a, b));
        }
    }
    push_tag_pairs(parent, EntityType::Node, &mut buckets);
    push_tag_pairs(parent, EntityType::Way, &mut buckets);
    push_tag_pairs(parent, EntityType::Relation, &mut buckets);
    let ghost pushed = buckets.pairs();
    proof {
        assert forall|a: u64, b: u64| #[trigger]
            count(pushed, (a, b)) == if a != b {
                tags_together(parent, a, b)
            } else {
                0
            } by {
        }
    }
    let records = buckets.into_sorted();
    proof {
        lemma_same_items(records@, pushed);
        assert forall|a: u64, b: u64| #[trigger]
            count(records@, (a, b)) == if a != b {
                tags_together(parent, a, b)
            } else {
                0
            } by {
            assert(count(records@, (a, b)) == count(pushed, (a, b)));
        }
        assert forall|i: int| 0 <= i < records@.len() implies (#[trigger] records@[i]).0 < n_slots
            && records@[i].1 < n_slots by {
            let x = records@[i];
            lemma_count(records@, x);
            assert(records@.contains(x));
            assert(count(records@, x) == count(pushed, (x.0, x.1)));
            lemma_together_in_range(parent, x.0, x.1);
        }
    }
    let rows = run_lengths(&records, n_slots);
    let mut out: Vec<Vec<TagCombo>> = Vec::new();
    let mut s: usize = 0;
    while s < n_slots
        invariant
            parent.wf(),
            n_slots == parent.tags.len(),
            s <= n_slots,
            rows@.len() == n_slots,
            out@.len() == s,
            forall|a: u64, b: u64| #[trigger]
                count(records@, (a, b)) == if a != b {
                    tags_together(parent, a, b)
                } else {
                    0
                },
            forall|i: int|
                0 <= i < records@.len() ==> (#[trigger] records@[i]).0 < n_slots && records@[i].1
                    < n_slots,
            forall|k: int|
                0 <= k < n_slots ==> is_run_lengths((#[trigger] rows@[k])@, records@, k as u64),
            forall|k: int| 0 <= k < s ==> is_tag_combos(parent, k as u64, (#[trigger] out@[k])@),
        decreases n_slots - s,
    {
        let row = &rows[s];
        let mut list: Vec<TagCombo> = Vec::new();
        let mut i: usize = 0;
        while i < row.len()
            invariant
                i <= row@.len(),
                list@ == row@.take(i as int),
            decreases row@.len() - i,
        {
            list.push(row[i]);
            proof {
                assert(list@ =~= row@.take(i + 1));
            }
            i = i + 1;
        }
        proof {
            assert(list@ =~= row@);
            assert(is_run_lengths(row@, records@, s as u64));
            assert forall|i: int| 0 <= i < row@.len() implies (#[trigger] row@[i]).other_slot
                < parent.tags.len() by {
                let y = (s as u64, row@[i].other_slot);
                lemma_count(records@, y);
                let c = choose|c: int| 0 <= c < records@.len() && records@[c] == y;
                assert(records@[c].1 < n_slots);
            }
        }
        let sorted = sort_tag_combos(parent, list);
        proof {
            lemma_tag_row(parent, s as u64, records@, row@, sorted@);
        }
        out.push(sorted);
        s = s + 1;
    }
    out
}

proof fn lemma_together_in_range(parent: &Osm, a: u64, b: u64)
    requires
        parent.wf(),
        tags_together(parent, a, b) > 0,
    ensures
        a < parent.tags.len(),
        b < parent.tags.len(),
{
    let p = carries_both(parent, a, b);
    let entity = if tally_in(p, EntityType::Node, parent.len_of(EntityType::Node)) > 0 {
        EntityType::Node
    } else if tally_in(p, EntityType::Way, parent.len_of(EntityType::Way)) > 0 {
        EntityType::Way
    } else {
        EntityType::Relation
    };
    let i = lemma_tally_witness(p, entity, parent.len_of(entity));
    lemma_slot_in_range(parent, entity, i, a);
    lemma_slot_in_range(parent, entity, i, b);
}

proof fn lemma_tag_row(
    parent: &Osm,
    slot: u64,
    records: Seq<(u64, u64)>,
    row: Seq<TagCombo>,
    sorted: Seq<TagCombo>,
)
    requires
        is_run_lengths(row, records, slot),
        same_items(sorted, row),
        forall|i: int| 0 <= i < row.len() ==> (#[trigger] row[i]).other_slot < parent.tags.len(),
        forall|a: u64, b: u64| #[trigger]
            count(records, (a, b)) == if a != b {
                tags_together(parent, a, b)
            } else {
                0
            },
        forall|i: int, j: int|
            0 <= i <= j < sorted.len() ==> tag_combo_le(
                parent,
                #[trigger] sorted[i],
                #[trigger] sorted[j],
            ),
    ensures
        is_tag_combos(parent, slot, sorted),
{
    lemma_same_items(row, sorted);
    assert forall|i: int| 0 <= i < sorted.len() implies (#[trigger] sorted[i]).other_slot != slot
        && sorted[i].other_slot < parent.tags.len() && sorted[i].together_count == tags_together(
        parent,
        slot,
        sorted[i].other_slot,
    ) && sorted[i].together_count > 0 by {
        assert(sorted.contains(sorted[i]));
        assert(row.contains(sorted[i]));
        let c = choose|c: int| 0 <= c < row.len() && row[c] == sorted[i];
        assert(row[c].together_count == count(records, (slot, row[c].other_slot)));
    }
    assert(row.no_duplicates());
    assert forall|i: int, j: int| 0 <= i < j < sorted.len() implies (
    #[trigger] sorted[i]).other_slot != (#[trigger] sorted[j]).other_slot by {
        assert(sorted.contains(sorted[i]) && sorted.contains(sorted[j]));
        assert(row.contains(sorted[i]) && row.contains(sorted[j]));
        let a = choose|a: int| 0 <= a < row.len() && row[a] == sorted[i];
        let b = choose|b: int| 0 <= b < row.len() && row[b] == sorted[j];
        assert(sorted[i] != sorted[j]);
        assert(a != b);
        if a < b {
            assert(row[a].other_slot < row[b].other_slot);
        } else {
            assert(row[b].other_slot < row[a].other_slot);
        }
    }
    assert forall|o: u64| o != slot && tags_together(parent, slot, o) > 0 implies #[trigger] lists_tag(
        sorted,
        o,
    ) by {
        assert(count(records, (slot, o)) > 0);
        let c = choose|c: int| 0 <= c < row.len() && (#[trigger] row[c]).other_slot == o;
        assert(row.contains(row[c]));
        let i = choose|i: int| 0 <= i < sorted.len() && sorted[i] == row[c];
        assert(sorted[i].other_slot == o);
    }
}

/// The co-occurrence lists of an archive.
pub struct Cooccurrences {
    /// What occurs with each key of a list of keys.
    pub by_key: Vec<Vec<Combo>>,
    /// What occurs with each tag slot.
    pub by_tag: Vec<Vec<TagCombo>>,
}

impl Cooccurrences {
    /// These are the lists of `parent`, for the given keys.
    pub open spec fn describes(&self, parent: &Osm, keys: Seq<u64>) -> bool {
        &&& self.by_key.len() == keys.len()
        &&& forall|g: int|
            0 <= g < keys.len() ==> is_key_combos(parent, keys[g], (#[trigger] self.by_key@[g])@)
        &&& self.by_tag.len() == parent.tags.len()
        &&& forall|s: int|
            0 <= s < parent.tags.len() ==> is_tag_combos(
                parent,
                s as u64,
                (#[trigger] self.by_tag@[s])@,
            )
    }

    /// Count what occurs together in `parent`.
    pub fn build(parent: &Osm, keys: &Vec<u64>) -> (out: Self)
        requires
            parent.wf(),
        ensures
            out.describes(parent, keys@),
    {
        let counts = count_key_pairs(parent);
        let mut by_key: Vec<Vec<Combo>> = Vec::new();
        let mut g: usize = 0;
        while g < keys.len()
            invariant
                parent.wf(),
                counts.wf(),
                forall|a: u64, b: u64| #[trigger]
                    counts.at(a, b) == if a == b {
                        0
                    } else {
                        keys_together(parent, a, b)
                    },
                g <= keys@.len(),
                by_key@.len() == g,
                forall|k: int|
                    0 <= k < g ==> is_key_combos(parent, keys@[k], (#[trigger] by_key@[k])@),
            decreases keys@.len() - g,
        {
            by_key.push(key_combos(parent, &counts, keys[g]));
            g = g + 1;
        }
        let by_tag = tag_combos(parent);
        Cooccurrences { by_key, by_tag }
    }
}

} // verus!
