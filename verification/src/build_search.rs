//! Build the derived parts of the `Taginfo` index: values by count, stored
//! `key=*` postings and the trigram index over value strings.

use crate::ext::{
    gram_first, post_first, run, value_first, KeyPostings, Runs, Taginfo, TrigramEntry, ValueSearch,
};
use crate::order::{
    ascending, count, cuts, lemma_count, lemma_same_items, merge_sort,
    strictly_ascending,
};
use crate::osm::Osm;
use crate::query::{in_some, union, EntityType};
use crate::scratch::{pair_le, pairs_sorted, PairBuckets};
use crate::taginfo::{has_gram, value_trigrams};
use crate::Ref;
use vstd::prelude::*;

verus! {

/// How many objects carry value `v`.
pub open spec fn object_count(ti: &Taginfo, v: int) -> nat {
    ti.postings(EntityType::Node, v).len() + ti.postings(EntityType::Way, v).len() + ti.postings(
        EntityType::Relation,
        v,
    ).len()
}

/// Value `a` comes no later than value `b`: more objects first, then by value.
pub open spec fn by_count_le(ti: &Taginfo, a: u64, b: u64) -> bool {
    object_count(ti, a as int) > object_count(ti, b as int) || (object_count(ti, a as int)
        == object_count(ti, b as int) && a <= b)
}

impl Taginfo {
    /// The groups and runs of the index fit together.
    pub open spec fn shaped(&self) -> bool {
        &&& self.keys.len() >= 1
        &&& self.values.len() >= 1
        &&& cuts(value_first(self.keys@), self.n_keys(), self.n_values())
        &&& forall|entity: EntityType|
            cuts(
                #[trigger] post_first(self.values@, entity),
                self.n_values(),
                self.posts(entity).len() as int,
            )
    }

    /// `values_by_count` holds the values of each key, most common first.
    pub open spec fn ranks_values(&self) -> bool {
        &&& self.values_by_count.len() == self.n_values()
        &&& forall|k: int|
            0 <= k < self.n_keys() ==> ranked(
                self,
                k,
                #[trigger] run(self.values_by_count@, value_first(self.keys@), k),
            )
    }
}

/// `list` holds the values of key `k`, each once, most common first.
pub open spec fn ranked(ti: &Taginfo, k: int, list: Seq<u64>) -> bool {
    &&& list.no_duplicates()
    &&& forall|v: u64| #[trigger] list.contains(v) <==> ti.under(k, v as int)
    &&& forall|i: int, j: int|
        0 <= i <= j < list.len() ==> by_count_le(ti, #[trigger] list[i], #[trigger] list[j])
}

/// How many objects carry value `v`.
fn count_objects(ti: &Taginfo, v: usize) -> (out: u128)
    requires
        ti.shaped(),
        v < ti.n_values(),
    ensures
        out == object_count(ti, v as int),
{
    let (a, b) = (&ti.values[v], &ti.values[v + 1]);
    proof {
        let (n, w, r) = (
            post_first(ti.values@, EntityType::Node),
            post_first(ti.values@, EntityType::Way),
            post_first(ti.values@, EntityType::Relation),
        );
        assert(n[v as int] <= n[v + 1] && n[v + 1] <= n[ti.n_values()]);
        assert(w[v as int] <= w[v + 1] && w[v + 1] <= w[ti.n_values()]);
        assert(r[v as int] <= r[v + 1] && r[v + 1] <= r[ti.n_values()]);
    }
    (b.node_first_idx - a.node_first_idx) as u128 + (b.way_first_idx - a.way_first_idx) as u128 + (
    b.rel_first_idx - a.rel_first_idx) as u128
}

/// The values of key `k`, most common first.
fn rank_values(ti: &Taginfo, k: usize) -> (out: Vec<u64>)
    requires
        ti.shaped(),
        k < ti.n_keys(),
    ensures
        ranked(ti, k as int, out@),
        out@.len() == ti.keys@[k + 1].value_first_idx - ti.keys@[k as int].value_first_idx,
{
    let (lo, hi): (u64, u64) = (ti.keys[k].value_first_idx, ti.keys[k + 1].value_first_idx);
    proof {
        let first = value_first(ti.keys@);
        assert(first[k as int] <= first[k + 1] && first[k + 1] <= first[ti.n_keys()]);
    }
    let mut list: Vec<u64> = Vec::new();
    let mut v: u64 = lo;
    while v < hi
        invariant
            lo <= v <= hi,
            list@.len() == v - lo,
            forall|i: int| 0 <= i < list@.len() ==> list@[i] == lo + i,
        decreases hi - v,
    {
        list.push(v);
        v = v + 1;
    }
    let leq = |a: u64, b: u64| -> (r: bool)
        requires
            ti.shaped(),
            a < ti.n_values(),
            b < ti.n_values(),
        ensures
            r == by_count_le(ti, a, b),
        {
            let (x, y): (u128, u128) = (
                count_objects(ti, a as usize),
                count_objects(ti, b as usize),
            );
            x > y || (x == y && a <= b)
        };
    let ghost model = |a: u64, b: u64| by_count_le(ti, a, b);
    let ghost listed = list@;
    let out = merge_sort(list, &leq, Ghost(model));
    proof {
        lemma_same_items(listed, out@);
        assert forall|v: u64| #[trigger] out@.contains(v) <==> ti.under(k as int, v as int) by {
            if ti.under(k as int, v as int) {
                assert(listed[v - lo] == v);
                assert(listed.contains(v));
            }
            assert(out@.contains(v) <==> listed.contains(v));
        }
        assert forall|i: int, j: int| 0 <= i <= j < out@.len() implies by_count_le(
            ti,
            #[trigger] out@[i],
            #[trigger] out@[j],
        ) by {
            assert(model(out@[i], out@[j]));
        }
    }
    out
}

/// The values of every key, most common first.
pub fn build_values_by_count(ti: &Taginfo) -> (out: Vec<Ref>)
    requires
        ti.shaped(),
    ensures
        out.len() == ti.n_values(),
        forall|k: int|
            0 <= k < ti.n_keys() ==> ranked(ti, k, #[trigger] run(out@, value_first(ti.keys@), k)),
{
    let n: usize = ti.keys.len() - 1;
    let mut runs = Runs::new();
    let ghost first = value_first(ti.keys@);
    let mut k: usize = 0;
    while k < n
        invariant
            ti.shaped(),
            n == ti.n_keys(),
            k <= n,
            first == value_first(ti.keys@),
            runs.wf(k as int),
            forall|g: int| 0 <= g <= k ==> #[trigger] runs.first@[g] == first[g],
            forall|g: int|
                0 <= g < k ==> ranked(ti, g, #[trigger] run(runs.items@, runs.first@, g)),
        decreases n - k,
    {
        let list = rank_values(ti, k);
        let ghost before = runs;
        runs.push_run(&list, Ghost(k as int));
        proof {
            assert forall|g: int| 0 <= g <= k + 1 implies #[trigger] runs.first@[g] == first[g] by {
                if g <= k {
                    assert(before.first@[g] == first[g]);
                } else {
                    assert(runs.first@[k + 1] == runs.items.len());
                    assert(before.first@[k as int] == before.items.len());
                }
            }
            assert forall|g: int| 0 <= g < k + 1 implies ranked(
                ti,
                g,
                #[trigger] run(runs.items@, runs.first@, g),
            ) by {
                if g < k {
                    assert(run(runs.items@, runs.first@, g) == run(before.items@, before.first@, g));
                }
            }
        }
        k = k + 1;
    }
    proof {
        assert(runs.first@ =~= first);
    }
    runs.items
}

/// Entity `e` carries a value of key `k`.
pub open spec fn carries_under(ti: &Taginfo, entity: EntityType, k: int, e: u64) -> bool {
    exists|v: int| ti.under(k, v) && #[trigger] ti.postings(entity, v).contains(e)
}

/// `list` is `key=*` for key `k`: the entities that carry one of its values,
/// ascending, each once.
pub open spec fn is_key_union(ti: &Taginfo, entity: EntityType, k: int, list: Seq<u64>) -> bool {
    &&& strictly_ascending(list)
    &&& forall|e: u64| #[trigger] list.contains(e) <==> carries_under(ti, entity, k, e)
}

impl KeyPostings {
    /// Where each key's postings start.
    pub open spec fn range_of(&self, entity: EntityType) -> Seq<u64> {
        match entity {
            EntityType::Node => self.node_range@,
            EntityType::Way => self.way_range@,
            EntityType::Relation => self.relation_range@,
        }
    }

    /// The postings of all keys.
    pub open spec fn posts_of(&self, entity: EntityType) -> Seq<u64> {
        match entity {
            EntityType::Node => self.nodes@,
            EntityType::Way => self.ways@,
            EntityType::Relation => self.relations@,
        }
    }

    /// These are the `key=*` postings of `ti`.
    pub open spec fn stores(&self, ti: &Taginfo) -> bool {
        &&& forall|entity: EntityType|
            cuts(
                #[trigger] self.range_of(entity),
                ti.n_keys(),
                self.posts_of(entity).len() as int,
            )
        &&& forall|entity: EntityType, k: int|
            0 <= k < ti.n_keys() ==> is_key_union(
                ti,
                entity,
                k,
                #[trigger] run(self.posts_of(entity), self.range_of(entity), k),
            )
    }
}

/// The postings of value `v`.
pub(crate) fn postings_slice(ti: &Taginfo, entity: EntityType, v: usize) -> (out: &[Ref])
    requires
        ti.shaped(),
        v < ti.n_values(),
    ensures
        out@ == ti.postings(entity, v as int),
{
    let (a, b) = (&ti.values[v], &ti.values[v + 1]);
    proof {
        let first = post_first(ti.values@, entity);
        assert(first[v as int] <= first[v + 1] && first[v + 1] <= first[ti.n_values()]);
        assert(ti.posts(entity).len() <= usize::MAX) by {
            assert(ti.node_post.len() == ti.node_post@.len());
            assert(ti.way_post.len() == ti.way_post@.len());
            assert(ti.rel_post.len() == ti.rel_post@.len());
        }
    }
    match entity {
        EntityType::Node => vstd::slice::slice_subrange(
            ti.node_post.as_slice(),
            a.node_first_idx as usize,
            b.node_first_idx as usize,
        ),
        EntityType::Way => vstd::slice::slice_subrange(
            ti.way_post.as_slice(),
            a.way_first_idx as usize,
            b.way_first_idx as usize,
        ),
        EntityType::Relation => vstd::slice::slice_subrange(
            ti.rel_post.as_slice(),
            a.rel_first_idx as usize,
            b.rel_first_idx as usize,
        ),
    }
}

/// The postings of every value are ascending.
pub open spec fn postings_ascend(ti: &Taginfo) -> bool {
    forall|entity: EntityType, v: int|
        0 <= v < ti.n_values() ==> ascending(#[trigger] ti.postings(entity, v))
}

/// One postings slice per value of key `k`.
pub(crate) fn postings_slices(ti: &Taginfo, entity: EntityType, k: usize) -> (out: Vec<&[Ref]>)
    requires
        ti.shaped(),
        k < ti.n_keys(),
    ensures
        out@.len() == ti.keys@[k + 1].value_first_idx - ti.keys@[k as int].value_first_idx,
        forall|i: int|
            0 <= i < out@.len() ==> (#[trigger] out@[i])@ == ti.postings(
                entity,
                ti.keys@[k as int].value_first_idx + i,
            ),
        ti.keys@[k as int].value_first_idx <= ti.keys@[k + 1].value_first_idx <= ti.n_values(),
{
    let (lo, hi): (u64, u64) = (ti.keys[k].value_first_idx, ti.keys[k + 1].value_first_idx);
    proof {
        let first = value_first(ti.keys@);
        assert(first[k as int] <= first[k + 1] && first[k + 1] <= first[ti.n_keys()]);
    }
    let mut out: Vec<&[Ref]> = Vec::new();
    let mut v: u64 = lo;
    while v < hi
        invariant
            ti.shaped(),
            lo <= v <= hi <= ti.n_values(),
            out@.len() == v - lo,
            forall|i: int|
                0 <= i < out@.len() ==> (#[trigger] out@[i])@ == ti.postings(entity, lo + i),
        decreases hi - v,
    {
        out.push(postings_slice(ti, entity, v as usize));
        v = v + 1;
    }
    out
}

/// `key=*` for key `k`, merged from its values' postings.
pub(crate) fn merge_key(ti: &Taginfo, entity: EntityType, k: usize) -> (out: Vec<Ref>)
    requires
        ti.shaped(),
        postings_ascend(ti),
        k < ti.n_keys(),
    ensures
        is_key_union(ti, entity, k as int, out@),
{
    let lists = postings_slices(ti, entity, k);
    let ghost lo = ti.keys@[k as int].value_first_idx as int;
    let out = union(lists.as_slice());
    proof {
        assert forall|e: u64| #[trigger] out@.contains(e) <==> carries_under(
            ti,
            entity,
            k as int,
            e,
        ) by {
            if in_some(lists@, e) {
                let i = choose|i: int| 0 <= i < lists@.len() && (#[trigger] lists@[i])@.contains(e);
                assert(ti.under(k as int, lo + i));
                assert(ti.postings(entity, lo + i).contains(e));
            }
            if carries_under(ti, entity, k as int, e) {
                let v = choose|v: int|
                    ti.under(k as int, v) && #[trigger] ti.postings(entity, v).contains(e);
                assert(lists@[v - lo]@.contains(e));
            }
            assert(out@.contains(e) <==> in_some(lists@, e));
        }
    }
    out
}

/// The `key=*` postings of every key, for one entity type.
fn key_runs(ti: &Taginfo, entity: EntityType) -> (runs: Runs)
    requires
        ti.shaped(),
        postings_ascend(ti),
    ensures
        runs.wf(ti.n_keys()),
        forall|k: int|
            0 <= k < ti.n_keys() ==> is_key_union(
                ti,
                entity,
                k,
                #[trigger] run(runs.items@, runs.first@, k),
            ),
{
    let n: usize = ti.keys.len() - 1;
    let mut runs = Runs::new();
    let mut k: usize = 0;
    while k < n
        invariant
            ti.shaped(),
            postings_ascend(ti),
            n == ti.n_keys(),
            k <= n,
            runs.wf(k as int),
            forall|g: int|
                0 <= g < k ==> is_key_union(
                    ti,
                    entity,
                    g,
                    #[trigger] run(runs.items@, runs.first@, g),
                ),
        decreases n - k,
    {
        let list = merge_key(ti, entity, k);
        let ghost before = runs;
        runs.push_run(&list, Ghost(k as int));
        proof {
            assert forall|g: int| 0 <= g < k + 1 implies is_key_union(
                ti,
                entity,
                g,
                #[trigger] run(runs.items@, runs.first@, g),
            ) by {
                if g < k {
                    assert(run(runs.items@, runs.first@, g) == run(before.items@, before.first@, g));
                }
            }
        }
        k = k + 1;
    }
    runs
}

/// Store the `key=*` postings of every key.
pub fn build_key_postings(ti: &Taginfo) -> (out: KeyPostings)
    requires
        ti.shaped(),
        postings_ascend(ti),
    ensures
        out.stores(ti),
{
    let nodes = key_runs(ti, EntityType::Node);
    let ways = key_runs(ti, EntityType::Way);
    let relations = key_runs(ti, EntityType::Relation);
    let out = KeyPostings {
        node_range: nodes.first,
        nodes: nodes.items,
        way_range: ways.first,
        ways: ways.items,
        relation_range: relations.first,
        relations: relations.items,
    };
    proof {
        assert forall|entity: EntityType, k: int| 0 <= k < ti.n_keys() implies is_key_union(
            ti,
            entity,
            k,
            #[trigger] run(out.posts_of(entity), out.range_of(entity), k),
        ) by {
            match entity {
                EntityType::Node => {
                    assert(is_key_union(ti, entity, k, run(nodes.items@, nodes.first@, k)));
                },
                EntityType::Way => {
                    assert(is_key_union(ti, entity, k, run(ways.items@, ways.first@, k)));
                },
                EntityType::Relation => {
                    assert(is_key_union(ti, entity, k, run(relations.items@, relations.first@, k)));
                },
            }
        }
        assert forall|entity: EntityType| cuts(
            #[trigger] out.range_of(entity),
            ti.n_keys(),
            out.posts_of(entity).len() as int,
        ) by {
            match entity {
                EntityType::Node => {},
                EntityType::Way => {},
                EntityType::Relation => {},
            }
        }
    }
    out
}

/// Every string that the index names is in the table of `parent`.
pub open spec fn strings_in_range(ti: &Taginfo, parent: &Osm) -> bool {
    &&& forall|k: int|
        0 <= k < ti.n_keys() ==> (#[trigger] ti.keys@[k]).key_idx <= parent.stringtable.len()
    &&& forall|v: int|
        0 <= v < ti.n_values() ==> (#[trigger] ti.values@[v]).value_idx <= parent.stringtable.len()
    &&& forall|c: int|
        0 <= c < ti.combos.len() ==> (#[trigger] ti.combos@[c]).other_key_idx
            <= parent.stringtable.len()
    &&& forall|c: int|
        0 <= c < ti.tag_combos.len() ==> (#[trigger] ti.tag_combos@[c]).other_key_idx
            <= parent.stringtable.len() && ti.tag_combos@[c].other_value_idx
            <= parent.stringtable.len()
}

/// Value `v` has the trigram `gram`.
pub open spec fn value_has_gram(ti: &Taginfo, parent: &Osm, v: int, gram: int) -> bool {
    0 <= v < ti.n_values() && has_gram(ti.value_string(parent, v), gram)
}

impl ValueSearch {
    /// The number of trigrams.
    pub open spec fn n_grams(&self) -> int {
        self.trigrams.len() - 1
    }

    /// The values with trigram `g`.
    pub open spec fn values_of(&self, g: int) -> Seq<u64> {
        run(self.values@, gram_first(self.trigrams@), g)
    }

    /// `gram` is one of the indexed trigrams.
    pub open spec fn has_entry(&self, gram: int) -> bool {
        exists|g: int| 0 <= g < self.n_grams() && (#[trigger] self.trigrams@[g]).gram == gram
    }

    /// This is the trigram index over the values of `ti`.
    pub open spec fn searches(&self, ti: &Taginfo, parent: &Osm) -> bool {
        &&& self.trigrams.len() >= 1
        &&& cuts(gram_first(self.trigrams@), self.n_grams(), self.values.len() as int)
        &&& forall|g: int, h: int|
            0 <= g < h < self.n_grams() ==> (#[trigger] self.trigrams@[g]).gram < (
            #[trigger] self.trigrams@[h]).gram
        &&& forall|g: int|
            0 <= g < self.n_grams() ==> strictly_ascending(#[trigger] self.values_of(g)) && forall|
                v: u64,
            | #[trigger]
                self.values_of(g).contains(v) <==> value_has_gram(
                    ti,
                    parent,
                    v as int,
                    self.trigrams@[g].gram as int,
                )
        &&& forall|v: int, gram: int| #[trigger]
            value_has_gram(ti, parent, v, gram) ==> self.has_entry(gram)
    }
}

/// Every `(trigram, value)` pair of the index, sorted.
fn gram_pairs(ti: &Taginfo, parent: &Osm) -> (out: Vec<(u64, u64)>)
    requires
        ti.shaped(),
        strings_in_range(ti, parent),
    ensures
        pairs_sorted(out@),
        forall|g: u64, v: u64| #[trigger]
            count(out@, (g, v)) == if g < 16777216 && value_has_gram(
                ti,
                parent,
                v as int,
                g as int,
            ) {
                1nat
            } else {
                0
            },
{
    let n: usize = ti.values.len() - 1;
    let mut buckets = PairBuckets::new(16777216, n);
    let mut grams: Vec<u32> = Vec::new();
    let mut v: usize = 0;
    proof {
        assert forall|g: u64, w: u64| #[trigger] count(buckets.pairs(), (g, w)) == 0 by {
            lemma_count(buckets.pairs(), (g, w));
        }
    }
    while v < n
        invariant
            ti.shaped(),
            strings_in_range(ti, parent),
            n == ti.n_values(),
            v <= n,
            buckets.wf(),
            buckets.children() == 16777216,
            forall|g: u64, w: u64| #[trigger]
                count(buckets.pairs(), (g, w)) == if w < v && g < 16777216 && value_has_gram(
                    ti,
                    parent,
                    w as int,
                    g as int,
                ) {
                    1nat
                } else {
                    0
                },
        decreases n - v,
    {
        let text = parent.string(ti.values[v].value_idx);
        value_trigrams(text, &mut grams);
        let ghost before = buckets.pairs();
        let mut i: usize = 0;
        while i < grams.len()
            invariant
                v < n,
                i <= grams@.len(),
                buckets.wf(),
                buckets.children() == 16777216,
                forall|a: int, b: int| 0 <= a < b < grams@.len() ==> grams@[a] < grams@[b],
                forall|g: u32| #[trigger] grams@.contains(g) <==> has_gram(text@, g as int),
                forall|g: u64, w: u64| #[trigger]
                    count(buckets.pairs(), (g, w)) == count(before, (g, w)) + if w == v && g
                        <= u32::MAX && grams@.take(i as int).contains(g as u32) {
                        1nat
                    } else {
                        0
                    },
            decreases grams@.len() - i,
        {
            let gram: u32 = grams[i];
            proof {
                assert(grams@.contains(gram));
                lemma_gram_range(text@, gram as int);
                assert(grams@.take(i + 1) =~= grams@.take(i as int).push(gram));
                assert(!grams@.take(i as int).contains(gram)) by {
                    if grams@.take(i as int).contains(gram) {
                        let m = choose|m: int|
                            0 <= m < grams@.take(i as int).len() && grams@.take(i as int)[m]
                                == gram;
                        assert(grams@[m] == gram);
                    }
                }
            }
            let ghost so_far = buckets.pairs();
            buckets.push(gram as u64, v as u64);
            proof {
                assert forall|g: u64, w: u64| #[trigger]
                    count(buckets.pairs(), (g, w)) == count(before, (g, w)) + if w == v && g
                        <= u32::MAX && grams@.take(i + 1).contains(g as u32) {
                        1nat
                    } else {
                        0
                    } by {
                    lemma_count(so_far, (g, w));
                    assert(count(so_far, (g, w)) >= 0);
                    vstd::seq_lib::lemma_seq_contains_after_push(
                        grams@.take(i as int),
                        gram,
                        g as u32,
                    );
                    assert(grams@.take(i + 1)[i as int] == gram);
                }
            }
            i = i + 1;
        }
        proof {
            assert(grams@.take(i as int) =~= grams@);
            assert forall|g: u64, w: u64| #[trigger]
                count(buckets.pairs(), (g, w)) == if w < v + 1 && g < 16777216 && value_has_gram(
                    ti,
                    parent,
                    w as int,
                    g as int,
                ) {
                    1nat
                } else {
                    0
                } by {
                assert(count(before, (g, w)) >= 0);
                if w == v && g <= u32::MAX {
                    assert(grams@.contains(g as u32) <==> has_gram(text@, g as int));
                    if has_gram(text@, g as int) {
                        lemma_gram_range(text@, g as int);
                    }
                }
            }
        }
        v = v + 1;
    }
    let ghost pushed = buckets.pairs();
    let out = buckets.into_sorted();
    proof {
        assert forall|g: u64, v: u64| #[trigger]
            count(out@, (g, v)) == if g < 16777216 && value_has_gram(
                ti,
                parent,
                v as int,
                g as int,
            ) {
                1nat
            } else {
                0
            } by {
            assert(count(out@, (g, v)) == count(pushed, (g, v)));
        }
    }
    out
}

pub(crate) proof fn lemma_gram_range(s: Seq<u8>, gram: int)
    requires
        has_gram(s, gram),
    ensures
        0 <= gram < 16777216,
{
    let i = choose|i: int|
        0 <= i && i + 3 <= s.len() && #[trigger] crate::taginfo::gram_at(s, i) == gram;
    assert(crate::taginfo::gram_at(s, i) == gram);
}

/// Build the trigram index over the value strings.
pub fn build_value_search(ti: &Taginfo, parent: &Osm) -> (out: ValueSearch)
    requires
        ti.shaped(),
        strings_in_range(ti, parent),
    ensures
        out.searches(ti, parent),
{
    let records = gram_pairs(ti, parent);
    let ghost all = records@;
    let mut trigrams: Vec<TrigramEntry> = Vec::new();
    let mut runs = Runs::new();
    let mut k: usize = 0;
    while k < records.len()
        invariant
            all == records@,
            pairs_sorted(all),
            forall|g: u64, v: u64| #[trigger]
                count(all, (g, v)) == if g < 16777216 && value_has_gram(
                    ti,
                    parent,
                    v as int,
                    g as int,
                ) {
                    1nat
                } else {
                    0
                },
            k <= all.len(),
            0 < k < all.len() ==> all[k - 1].0 < all[k as int].0,
            runs.wf(trigrams.len() as int),
            forall|g: int|
                0 <= g < trigrams.len() ==> (#[trigger] trigrams@[g]).value_first_idx
                    == runs.first@[g],
            forall|g: int, h: int|
                0 <= g < h < trigrams.len() ==> (#[trigger] trigrams@[g]).gram < (
                #[trigger] trigrams@[h]).gram,
            forall|g: int|
                0 <= g < trigrams.len() && k < all.len() ==> (#[trigger] trigrams@[g]).gram
                    < all[k as int].0,
            forall|g: int|
                0 <= g < trigrams.len() ==> gram_run(
                    ti,
                    parent,
                    (#[trigger] trigrams@[g]).gram,
                    run(runs.items@, runs.first@, g),
                ),
            forall|i: int| 0 <= i < k ==> gram_listed(trigrams@, (#[trigger] all[i]).0),
        decreases all.len() - k,
    {
        let gram: u64 = records[k].0;
        let mut list: Vec<u64> = Vec::new();
        let mut m: usize = k;
        while m < records.len() && records[m].0 == gram
            invariant
                all == records@,
                k <= m <= all.len(),
                k < all.len(),
                gram == all[k as int].0,
                list@.len() == m - k,
                forall|i: int| 0 <= i < m - k ==> #[trigger] list@[i] == all[k + i].1,
                forall|i: int| k <= i < m ==> (#[trigger] all[i]).0 == gram,
            decreases all.len() - m,
        {
            list.push(records[m].1);
            m = m + 1;
        }
        proof {
            lemma_gram_run(ti, parent, all, k as int, m as int, gram, list@);
            lemma_count(all, all[k as int]);
            assert(all.contains(all[k as int]));
            assert(count(all, (all[k as int].0, all[k as int].1)) > 0);
        }
        let ghost before = runs;
        let ghost grams0 = trigrams@;
        let start: u64 = runs.items.len() as u64;
        trigrams.push(TrigramEntry { gram: gram as u32, value_first_idx: start });
        runs.push_run(&list, Ghost(grams0.len() as int));
        proof {
            assert forall|g: int| 0 <= g < trigrams.len() implies gram_run(
                ti,
                parent,
                (#[trigger] trigrams@[g]).gram,
                run(runs.items@, runs.first@, g),
            ) by {
                if g < grams0.len() {
                    assert(trigrams@[g] == grams0[g]);
                    assert(run(runs.items@, runs.first@, g) == run(before.items@, before.first@, g));
                }
            }
            assert forall|i: int| 0 <= i < m implies gram_listed(
                trigrams@,
                (#[trigger] all[i]).0,
            ) by {
                if i < k {
                    assert(gram_listed(grams0, all[i].0));
                    let g = choose|g: int| 0 <= g < grams0.len() && (#[trigger] grams0[g]).gram
                        == all[i].0;
                    assert(trigrams@[g] == grams0[g]);
                } else {
                    assert(trigrams@[grams0.len() as int].gram == all[i].0);
                }
            }
            if m < all.len() {
                assert(pair_le(all[m - 1], all[m as int]));
                assert(all[m - 1].0 == gram);
            }
        }
        k = m;
    }
    let end: u64 = runs.items.len() as u64;
    let ghost grams = trigrams@;
    trigrams.push(TrigramEntry { gram: 0, value_first_idx: end });
    let out = ValueSearch { trigrams, values: runs.items };
    proof {
        assert(gram_first(out.trigrams@) =~= runs.first@);
        assert forall|g: int| 0 <= g < out.n_grams() implies strictly_ascending(
            #[trigger] out.values_of(g),
        ) && forall|v: u64| #[trigger]
            out.values_of(g).contains(v) <==> value_has_gram(
                ti,
                parent,
                v as int,
                out.trigrams@[g].gram as int,
            ) by {
            assert(out.trigrams@[g] == grams[g]);
            assert(gram_run(ti, parent, grams[g].gram, run(runs.items@, runs.first@, g)));
        }
        assert forall|v: int, gram: int| #[trigger]
            value_has_gram(ti, parent, v, gram) implies out.has_entry(gram) by {
            lemma_gram_range(ti.value_string(parent, v), gram);
            assert(ti.values.len() == ti.values@.len());
            let x = (gram as u64, v as u64);
            assert(count(all, (gram as u64, v as u64)) == 1);
            lemma_count(all, x);
            let i = choose|i: int| 0 <= i < all.len() && all[i] == x;
            assert(gram_listed(grams, all[i].0));
            let g = choose|g: int| 0 <= g < grams.len() && (#[trigger] grams[g]).gram == all[i].0;
            assert(out.trigrams@[g] == grams[g]);
        }
    }
    out
}

/// `list` holds the values with trigram `gram`, ascending.
spec fn gram_run(ti: &Taginfo, parent: &Osm, gram: u32, list: Seq<u64>) -> bool {
    &&& strictly_ascending(list)
    &&& forall|v: u64| #[trigger]
        list.contains(v) <==> value_has_gram(ti, parent, v as int, gram as int)
}

/// `gram` is among the trigrams.
spec fn gram_listed(trigrams: Seq<TrigramEntry>, gram: u64) -> bool {
    exists|g: int| 0 <= g < trigrams.len() && (#[trigger] trigrams[g]).gram == gram
}

proof fn lemma_gram_run(
    ti: &Taginfo,
    parent: &Osm,
    all: Seq<(u64, u64)>,
    k: int,
    m: int,
    gram: u64,
    list: Seq<u64>,
)
    requires
        pairs_sorted(all),
        forall|g: u64, v: u64| #[trigger]
            count(all, (g, v)) == if g < 16777216 && value_has_gram(
                ti,
                parent,
                v as int,
                g as int,
            ) {
                1nat
            } else {
                0
            },
        0 <= k < m <= all.len(),
        k > 0 ==> all[k - 1].0 < gram,
        m < all.len() ==> all[m].0 != gram,
        forall|i: int| k <= i < m ==> (#[trigger] all[i]).0 == gram,
        list.len() == m - k,
        forall|i: int| 0 <= i < m - k ==> #[trigger] list[i] == all[k + i].1,
    ensures
        gram < 16777216,
        gram_run(ti, parent, gram as u32, list),
{
    assert forall|i: int| 0 <= i < all.len() implies count(all, (all[i].0, all[i].1)) == 1 by {
        lemma_count(all, all[i]);
        assert(all.contains(all[i]));
        assert(count(all, (all[i].0, all[i].1)) > 0);
    }
    assert(count(all, (all[k].0, all[k].1)) == 1);
    assert(all.no_duplicates()) by {
        assert forall|x: (u64, u64)| all.to_multiset().contains(x) implies all.to_multiset().count(x)
            == 1 by {
            assert(count(all, (x.0, x.1)) <= 1);
        }
        all.lemma_multiset_has_no_duplicates_conv();
    }
    assert forall|i: int, j: int| 0 <= i < j < list.len() implies list[i] < list[j] by {
        assert(pair_le(all[k + i], all[k + j]));
        assert(all[k + i] != all[k + j]);
        assert(all[k + i].0 == gram && all[k + j].0 == gram);
    }
    assert forall|v: u64| #[trigger] list.contains(v) <==> value_has_gram(
        ti,
        parent,
        v as int,
        gram as int,
    ) by {
        if list.contains(v) {
            let i = choose|i: int| 0 <= i < list.len() && list[i] == v;
            assert(all[k + i].0 == gram);
            assert(count(all, (all[k + i].0, all[k + i].1)) == 1);
        }
        if value_has_gram(ti, parent, v as int, gram as int) {
            let x = (gram, v);
            assert(count(all, (gram, v)) == 1);
            lemma_count(all, x);
            let i = choose|i: int| 0 <= i < all.len() && all[i] == x;
            if i < k {
                assert(pair_le(all[i], all[k - 1]));
            } else if i >= m {
                assert(pair_le(all[m], all[i]));
                assert(pair_le(all[m - 1], all[m]));
            }
            assert(list[i - k] == v);
        }
    }
}

} // verus!
