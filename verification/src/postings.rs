//! Postings, count-then-fill.
//!
//! One pass over the tag occurrences counts into offsets, a second fills each
//! run in its final place. Entities are visited in index order, which makes each
//! run ascending with no sort.

use crate::dictionary::Dictionary;
use crate::ext::run;
use crate::order::{ascending, count, cuts, lemma_count};
use crate::osm::Osm;
use crate::query::EntityType;
use crate::taginfo_index::is_postings;
use vstd::prelude::*;

verus! {

/// `out` lists the tag occurrences of one entity type as `(slot, entity)`,
/// entities in index order.
pub open spec fn is_occurrences(
    parent: &Osm,
    entity: EntityType,
    out: Seq<(u64, u64)>,
) -> bool {
    &&& forall|i: int, j: int|
        0 <= i <= j < out.len() ==> (#[trigger] out[i]).1 <= (#[trigger] out[j]).1
    &&& forall|i: int| 0 <= i < out.len() ==> (#[trigger] out[i]).0 < parent.tags.len()
    &&& forall|slot: u64, e: u64| #[trigger]
        count(out, (slot, e)) == if e < parent.len_of(entity) {
            count(parent.slots_of(entity, e as int), slot)
        } else {
            0
        }
}

/// Visit every `(slot, entity)` occurrence, entities in index order so postings
/// come out ascending.
fn collect(parent: &Osm, entity: EntityType) -> (out: Vec<(u64, u64)>)
    requires
        parent.wf(),
    ensures
        is_occurrences(parent, entity, out@),
{
    let n: usize = parent.entity_count(entity);
    let mut out: Vec<(u64, u64)> = Vec::new();
    let mut i: usize = 0;
    proof {
        assert forall|slot: u64, e: u64| #[trigger] count(out@, (slot, e)) == 0 by {
            lemma_count(out@, (slot, e));
        }
    }
    while i < n
        invariant
            parent.wf(),
            n == parent.len_of(entity),
            i <= n,
            forall|a: int, b: int|
                0 <= a <= b < out@.len() ==> (#[trigger] out@[a]).1 <= (#[trigger] out@[b]).1,
            forall|a: int|
                0 <= a < out@.len() ==> (#[trigger] out@[a]).0 < parent.tags.len() && out@[a].1 < i,
            forall|slot: u64, e: u64| #[trigger]
                count(out@, (slot, e)) == if e < i {
                    count(parent.slots_of(entity, e as int), slot)
                } else {
                    0
                },
        decreases n - i,
    {
        let span = parent.entity_tags(entity, i);
        let ghost slots = parent.slots_of(entity, i as int);
        let mut ti: u64 = span.start;
        proof {
            assert(slots.take(0) =~= Seq::<u64>::empty());
            assert forall|slot: u64| #[trigger] count(slots.take(0), slot) == 0 by {
                lemma_count(slots.take(0), slot);
            }
        }
        while ti < span.end
            invariant
                parent.wf(),
                i < n,
                n == parent.len_of(entity),
                span == parent.tag_span(entity, i as int),
                span.within(parent.tags_index.len() as nat),
                slots == parent.slots_of(entity, i as int),
                span.start <= ti <= span.end,
                forall|a: int, b: int|
                    0 <= a <= b < out@.len() ==> (#[trigger] out@[a]).1 <= (#[trigger] out@[b]).1,
                forall|a: int|
                    0 <= a < out@.len() ==> (#[trigger] out@[a]).0 < parent.tags.len() && out@[a].1
                        <= i,
                forall|slot: u64, e: u64| #[trigger]
                    count(out@, (slot, e)) == if e < i {
                        count(parent.slots_of(entity, e as int), slot)
                    } else if e == i {
                        count(slots.take(ti - span.start), slot)
                    } else {
                        0
                    },
            decreases span.end - ti,
        {
            let slot: u64 = parent.tags_index[ti as usize];
            let ghost before = out@;
            out.push((slot, i as u64));
            proof {
                let k = ti - span.start;
                assert(slots[k] == slot);
                assert(slots.take(k + 1) =~= slots.take(k).push(slot));
                assert forall|s: u64, e: u64| #[trigger]
                    count(out@, (s, e)) == if e < i {
                        count(parent.slots_of(entity, e as int), s)
                    } else if e == i {
                        count(slots.take(k + 1), s)
                    } else {
                        0
                    } by {
                    lemma_count(before, (s, e));
                    lemma_count(slots.take(k), s);
                    assert(count(before, (s, e)) >= 0);
                }
            }
            ti = ti + 1;
        }
        proof {
            assert(slots.take(ti - span.start) =~= slots);
        }
        i = i + 1;
    }
    out
}

/// Postings for one entity type, slot positions in dictionary order.
pub struct TypeCsr {
    /// Exclusive prefix sums: the postings of position `p` are
    /// `posts[offsets[p]..offsets[p + 1]]`.
    pub offsets: Vec<u64>,
    /// Ascending entity indices, grouped by slot position.
    pub posts: Vec<u64>,
}

/// The entities of the items whose slot is placed at `p`, in item order.
pub open spec fn bucket(items: Seq<(u64, u64)>, pos: Seq<u64>, p: int) -> Seq<u64>
    decreases items.len(),
{
    if items.len() == 0 {
        Seq::empty()
    } else {
        let rest = bucket(items.drop_last(), pos, p);
        if pos[items.last().0 as int] == p {
            rest.push(items.last().1)
        } else {
            rest
        }
    }
}

/// How many items are placed before `p`.
pub open spec fn placed_before(items: Seq<(u64, u64)>, pos: Seq<u64>, p: int) -> nat
    decreases p,
{
    if p <= 0 {
        0
    } else {
        placed_before(items, pos, p - 1) + bucket(items, pos, p - 1).len()
    }
}

proof fn lemma_placed_step(items: Seq<(u64, u64)>, pos: Seq<u64>, p: int)
    requires
        items.len() > 0,
        p >= 0,
    ensures
        placed_before(items, pos, p) == placed_before(items.drop_last(), pos, p) + if 0
            <= pos[items.last().0 as int] < p {
            1nat
        } else {
            0
        },
    decreases p,
{
    if p > 0 {
        lemma_placed_step(items, pos, p - 1);
    }
}

proof fn lemma_placed_bound(items: Seq<(u64, u64)>, pos: Seq<u64>, p: int)
    requires
        p >= 0,
    ensures
        placed_before(items, pos, p) <= items.len(),
        (forall|i: int| 0 <= i < items.len() ==> pos[(#[trigger] items[i]).0 as int] < p)
            ==> placed_before(items, pos, p) == items.len(),
    decreases items.len(), p,
{
    if items.len() > 0 {
        lemma_placed_bound(items.drop_last(), pos, p);
        lemma_placed_step(items, pos, p);
        if forall|i: int| 0 <= i < items.len() ==> pos[(#[trigger] items[i]).0 as int] < p {
            assert(forall|i: int|
                0 <= i < items.drop_last().len() ==> (#[trigger] items.drop_last()[i]) == items[i]);
            assert(items[items.len() - 1] == items.last());
        }
    } else if p > 0 {
        lemma_placed_bound(items, pos, p - 1);
    }
}

proof fn lemma_placed_monotone(items: Seq<(u64, u64)>, pos: Seq<u64>, p: int, q: int)
    requires
        0 <= p <= q,
    ensures
        placed_before(items, pos, p) <= placed_before(items, pos, q),
    decreases q - p,
{
    if p < q {
        lemma_placed_monotone(items, pos, p, q - 1);
    }
}

proof fn lemma_bucket_prefix(items: Seq<(u64, u64)>, pos: Seq<u64>, p: int, j: int)
    requires
        0 <= j <= items.len(),
    ensures
        bucket(items.take(j), pos, p).len() <= bucket(items, pos, p).len(),
    decreases items.len(),
{
    if j < items.len() {
        assert(items.drop_last().take(j) =~= items.take(j));
        lemma_bucket_prefix(items.drop_last(), pos, p, j);
    } else {
        assert(items.take(j) =~= items);
    }
}

impl TypeCsr {
    /// The runs of this index are the buckets of `items`.
    pub open spec fn holds(&self, items: Seq<(u64, u64)>, pos: Seq<u64>, n: int) -> bool {
        &&& self.offsets.len() == n + 1
        &&& forall|p: int|
            0 <= p <= n ==> (#[trigger] self.offsets@[p]) == placed_before(items, pos, p)
        &&& self.posts.len() == placed_before(items, pos, n)
        &&& forall|p: int, k: int|
            0 <= p < n && 0 <= k < bucket(items, pos, p).len() ==> self.posts@[placed_before(
                items,
                pos,
                p,
            ) + k] == #[trigger] bucket(items, pos, p)[k]
    }

    /// Count the items per position, prefix-sum the counts into offsets, then
    /// put every item in its place.
    fn fill(items: &Vec<(u64, u64)>, pos: &Vec<u64>, n: usize) -> (out: Self)
        requires
            forall|i: int|
                0 <= i < items@.len() ==> (#[trigger] items@[i]).0 < pos.len()
                    && pos@[items@[i].0 as int] < n,
        ensures
            out.holds(items@, pos@, n as int),
    {
        let ghost all = items@;
        let ghost place = pos@;
        let mut offsets: Vec<u64> = vec![0u64;n];
        offsets.push(0);
        let mut j: usize = 0;
        while j < items.len()
            invariant
                j <= items@.len(),
                all == items@,
                place == pos@,
                offsets@.len() == n + 1,
                offsets@[0] == 0,
                forall|i: int|
                    0 <= i < items@.len() ==> (#[trigger] items@[i]).0 < pos.len()
                        && pos@[items@[i].0 as int] < n,
                forall|p: int|
                    0 <= p < n ==> #[trigger] offsets@[p + 1] == bucket(
                        all.take(j as int),
                        place,
                        p,
                    ).len(),
            decreases items@.len() - j,
        {
            let p: usize = pos[items[j].0 as usize] as usize;
            proof {
                let next = all.take(j + 1);
                assert(next.drop_last() =~= all.take(j as int));
                assert(next.last() == all[j as int]);
                lemma_bucket_len(all.take(j as int), place, p as int);
                assert(offsets@[p + 1] <= j);
            }
            let ghost before = offsets@;
            offsets[p + 1] = offsets[p + 1] + 1;
            proof {
                assert forall|q: int| 0 <= q < n implies #[trigger] offsets@[q + 1] == bucket(
                    all.take(j + 1),
                    place,
                    q,
                ).len() by {
                    assert(before[q + 1] == bucket(all.take(j as int), place, q).len());
                }
            }
            j = j + 1;
        }
        proof {
            assert(all.take(j as int) =~= all);
            assert forall|p: int| 1 <= p < offsets@.len() implies #[trigger] offsets@[p] == bucket(
                all,
                place,
                p - 1,
            ).len() by {
                assert(offsets@[(p - 1) + 1] == bucket(all, place, p - 1).len());
            }
        }
        let mut i: usize = 1;
        while i < offsets.len()
            invariant
                1 <= i <= offsets@.len(),
                offsets@.len() == n + 1,
                all == items@,
                forall|p: int| 0 <= p < i ==> #[trigger] offsets@[p] == placed_before(all, place, p),
                forall|p: int|
                    i <= p < offsets@.len() ==> #[trigger] offsets@[p] == bucket(
                        all,
                        place,
                        p - 1,
                    ).len(),
            decreases offsets@.len() - i,
        {
            proof {
                lemma_placed_bound(all, place, i as int);
                assert(offsets@[i - 1] == placed_before(all, place, i - 1));
                assert(items.len() == all.len());
            }
            offsets[i] = offsets[i] + offsets[i - 1];
            i = i + 1;
        }
        proof {
            lemma_placed_bound(all, place, n as int);
            assert(items.len() == all.len());
        }
        let total: usize = offsets[n] as usize;
        let mut posts: Vec<u64> = vec![0u64;total];
        let mut cursors: Vec<u64> = offsets.clone();
        proof {
            assert(cursors@ =~= offsets@);
            assert(all.take(0) =~= Seq::empty());
        }
        let mut j: usize = 0;
        while j < items.len()
            invariant
                j <= items@.len(),
                all == items@,
                place == pos@,
                cursors@.len() == n + 1,
                posts.len() == placed_before(all, place, n as int),
                forall|i: int|
                    0 <= i < items@.len() ==> (#[trigger] items@[i]).0 < pos.len()
                        && pos@[items@[i].0 as int] < n,
                forall|p: int|
                    0 <= p < n ==> #[trigger] cursors@[p] == placed_before(all, place, p) + bucket(
                        all.take(j as int),
                        place,
                        p,
                    ).len(),
                forall|p: int, k: int|
                    0 <= p < n && 0 <= k < bucket(all.take(j as int), place, p).len()
                        ==> posts@[placed_before(all, place, p) + k] == #[trigger] bucket(
                        all.take(j as int),
                        place,
                        p,
                    )[k],
            decreases items@.len() - j,
        {
            let p: usize = pos[items[j].0 as usize] as usize;
            let ghost before = posts@;
            let ghost now = all.take(j as int);
            let ghost next = all.take(j + 1);
            proof {
                assert(next.drop_last() =~= now);
                assert(next.last() == all[j as int]);
                assert(cursors@[p as int] == placed_before(all, place, p as int) + bucket(
                    now,
                    place,
                    p as int,
                ).len());
                lemma_bucket_prefix(all, place, p as int, j + 1);
                lemma_placed_monotone(all, place, p + 1, n as int);
            }
            let at: usize = cursors[p] as usize;
            posts[at] = items[j].1;
            let ghost cursors0 = cursors@;
            cursors[p] = cursors[p] + 1;
            proof {
                assert forall|q: int| 0 <= q < n implies #[trigger] cursors@[q] == placed_before(
                    all,
                    place,
                    q,
                ) + bucket(next, place, q).len() by {
                    assert(cursors0[q] == placed_before(all, place, q) + bucket(now, place, q).len());
                }
                assert forall|q: int, k: int|
                    0 <= q < n && 0 <= k < bucket(next, place, q).len() implies posts@[placed_before(
                    all,
                    place,
                    q,
                ) + k] == #[trigger] bucket(next, place, q)[k] by {
                    lemma_bucket_prefix(all, place, q, j + 1);
                    lemma_placed_monotone(all, place, q + 1, n as int);
                    let spot = placed_before(all, place, q) + k;
                    assert(posts@ == before.update(at as int, items@[j as int].1));
                    if q == p {
                        if k < bucket(now, place, q).len() {
                            assert(bucket(next, place, q)[k] == bucket(now, place, q)[k]);
                            assert(before[spot] == bucket(now, place, q)[k]);
                        } else {
                            assert(spot == at);
                        }
                    } else {
                        assert(bucket(next, place, q) == bucket(now, place, q));
                        assert(before[spot] == bucket(now, place, q)[k]);
                        if q < p {
                            lemma_placed_monotone(all, place, q + 1, p as int);
                        } else {
                            lemma_placed_monotone(all, place, p + 1, q);
                        }
                    }
                }
            }
            j = j + 1;
        }
        proof {
            assert(all.take(j as int) =~= all);
        }
        TypeCsr { offsets, posts }
    }
}

proof fn lemma_bucket_len(items: Seq<(u64, u64)>, pos: Seq<u64>, p: int)
    ensures
        bucket(items, pos, p).len() <= items.len(),
    decreases items.len(),
{
    if items.len() > 0 {
        lemma_bucket_len(items.drop_last(), pos, p);
    }
}

proof fn lemma_bucket_postings(
    items: Seq<(u64, u64)>,
    pos: Seq<u64>,
    p: int,
    slot: u64,
)
    requires
        forall|i: int, j: int|
            0 <= i <= j < items.len() ==> (#[trigger] items[i]).1 <= (#[trigger] items[j]).1,
        forall|i: int|
            0 <= i < items.len() ==> (pos[(#[trigger] items[i]).0 as int] == p <==> items[i].0
                == slot),
    ensures
        ascending(bucket(items, pos, p)),
        forall|k: int|
            0 <= k < bucket(items, pos, p).len() && items.len() > 0 ==> bucket(items, pos, p)[k]
                <= items.last().1,
        forall|e: u64| #[trigger] count(bucket(items, pos, p), e) == count(items, (slot, e)),
    decreases items.len(),
{
    if items.len() > 0 {
        let rest = items.drop_last();
        assert forall|i: int| 0 <= i < rest.len() implies #[trigger] rest[i] == items[i] by {
        }
        lemma_bucket_postings(rest, pos, p, slot);
        assert(items =~= rest.push(items.last()));
        assert(items[items.len() - 1] == items.last());
        let run = bucket(rest, pos, p);
        assert forall|k: int| 0 <= k < run.len() implies run[k] <= items.last().1 by {
            if rest.len() > 0 {
                assert(rest.last() == items[items.len() - 2]);
            }
        }
        assert forall|e: u64| #[trigger]
            count(bucket(items, pos, p), e) == count(items, (slot, e)) by {
            lemma_count(rest, (slot, e));
            lemma_count(run, e);
            assert(count(rest.push(items.last()), (slot, e)) == count(rest, (slot, e)) + if (
            slot, e) == items.last() {
                1nat
            } else {
                0
            });
            assert(count(run.push(items.last().1), e) == count(run, e) + if e == items.last().1 {
                1nat
            } else {
                0
            });
            assert(count(run, e) == count(rest, (slot, e)));
        }
    } else {
        assert forall|e: u64| #[trigger]
            count(bucket(items, pos, p), e) == count(items, (slot, e)) by {
            lemma_count(items, (slot, e));
            lemma_count(bucket(items, pos, p), e);
        }
    }
}

/// Where each slot stands in the dictionary.
pub(crate) fn positions(parent: &Osm, dict: &Dictionary) -> (pos: Vec<u64>)
    requires
        dict.describes(parent),
    ensures
        pos.len() == parent.tags.len(),
        forall|t: int|
            0 <= t < pos.len() ==> (#[trigger] pos@[t]) < dict.slots.len()
                && dict.slots@[pos@[t] as int] == t,
{
    let n: usize = parent.tags.len();
    let mut pos: Vec<u64> = vec![0u64;n];
    let mut p: usize = 0;
    while p < dict.slots.len()
        invariant
            p <= dict.slots.len(),
            pos.len() == n,
            n == parent.tags.len(),
            dict.describes(parent),
            forall|q: int| 0 <= q < p ==> pos@[(#[trigger] dict.slots@[q]) as int] == q,
        decreases dict.slots.len() - p,
    {
        let ghost before = pos@;
        let t: u64 = dict.slots[p];
        pos[t as usize] = p as u64;
        proof {
            assert forall|q: int| 0 <= q < p + 1 implies pos@[(#[trigger] dict.slots@[q]) as int]
                == q by {
                if q < p {
                    assert(dict.slots@[q] != dict.slots@[p as int]);
                }
            }
        }
        p = p + 1;
    }
    proof {
        assert forall|t: int| 0 <= t < pos.len() implies (#[trigger] pos@[t]) < dict.slots.len()
            && dict.slots@[pos@[t] as int] == t by {
            assert(dict.slots@.contains(t as u64));
            let q = choose|q: int| 0 <= q < dict.slots@.len() && dict.slots@[q] == t as u64;
            assert(pos@[dict.slots@[q] as int] == q);
        }
    }
    pos
}

/// `csr` holds the postings of every slot of the dictionary, in its order.
pub open spec fn holds_postings(parent: &Osm, entity: EntityType, slots: Seq<u64>, csr: TypeCsr) -> bool {
    &&& cuts(csr.offsets@, slots.len() as int, csr.posts.len() as int)
    &&& forall|p: int|
        0 <= p < slots.len() ==> is_postings(
            parent,
            entity,
            slots[p],
            #[trigger] run(csr.posts@, csr.offsets@, p),
        )
}

/// The postings of one entity type, in dictionary order.
pub(crate) fn postings_of_type(
    parent: &Osm,
    entity: EntityType,
    dict: &Dictionary,
    pos: &Vec<u64>,
) -> (csr: TypeCsr)
    requires
        parent.wf(),
        dict.describes(parent),
        pos.len() == parent.tags.len(),
        forall|t: int|
            0 <= t < pos.len() ==> (#[trigger] pos@[t]) < dict.slots.len()
                && dict.slots@[pos@[t] as int] == t,
    ensures
        holds_postings(parent, entity, dict.slots@, csr),
{
    let items = collect(parent, entity);
    let csr = TypeCsr::fill(&items, pos, dict.slots.len());
    proof {
        let n = dict.slots.len() as int;
        lemma_placed_bound(items@, pos@, n);
        assert forall|i: int, j: int| 0 <= i <= j <= n implies csr.offsets@[i] <= csr.offsets@[j] by {
            lemma_placed_monotone(items@, pos@, i, j);
        }
        assert forall|p: int| 0 <= p < n implies is_postings(
            parent,
            entity,
            dict.slots@[p],
            #[trigger] run(csr.posts@, csr.offsets@, p),
        ) by {
            let slot = dict.slots@[p];
            let b = bucket(items@, pos@, p);
            assert(csr.offsets@[p] == placed_before(items@, pos@, p));
            assert(csr.offsets@[p + 1] == placed_before(items@, pos@, p + 1));
            lemma_placed_monotone(items@, pos@, p + 1, n);
            assert(run(csr.posts@, csr.offsets@, p) =~= b) by {
                assert forall|k: int| 0 <= k < b.len() implies run(csr.posts@, csr.offsets@, p)[k]
                    == b[k] by {
                    assert(csr.posts@[placed_before(items@, pos@, p) + k] == b[k]);
                }
            }
            assert forall|i: int| 0 <= i < items@.len() implies (pos@[(
            #[trigger] items@[i]).0 as int] == p <==> items@[i].0 == slot) by {
                let t = items@[i].0 as int;
                assert(dict.slots@[pos@[t] as int] == t);
                if items@[i].0 == slot {
                    assert(dict.slots@[pos@[t] as int] == dict.slots@[p]);
                }
            }
            lemma_bucket_postings(items@, pos@, p, slot);
        }
    }
    csr
}

} // verus!
