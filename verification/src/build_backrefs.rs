//! Build the `Backrefs` index: node to ways, and any entity to relations.
//!
//! Each map is built by sorting its `(child, parent)` pairs. A parent that
//! references the same child twice (a closed way's shared endpoint, a member
//! listed twice) yields one pair: children are collected per parent, sorted and
//! deduplicated before they are emitted.

use crate::ext::{run, Backrefs, Runs};
use crate::order::{
    ascending, count, cuts, lemma_count, sorted_indices, strictly_ascending,
};
use crate::osm::Osm;
use crate::query::EntityType;
use crate::scratch::{pair_le, pairs_sorted, PairBuckets};
use vstd::prelude::*;

verus! {

/// Way `w` uses node `n`.
pub open spec fn uses_node(parent: &Osm, w: int, n: u64) -> bool {
    exists|j: int|
        parent.ways@[w].refs.start <= j < parent.ways@[w].refs.end && #[trigger] parent.nodes_index@[j]
            == Some(n)
}

/// Relation `r` has entity `i` of the given kind as a member.
pub open spec fn has_member(parent: &Osm, r: int, kind: EntityType, i: u64) -> bool {
    exists|m: int|
        0 <= m < parent.relation_members@[r]@.len() && (
        #[trigger] parent.relation_members@[r]@[m]).kind == kind && parent.relation_members@[r]@[m].idx
            == Some(i)
}

/// `list` holds the ways that use node `n`, ascending, each once.
pub open spec fn is_ways_of_node(parent: &Osm, n: int, list: Seq<u64>) -> bool {
    &&& strictly_ascending(list)
    &&& forall|w: u64| #[trigger]
        list.contains(w) <==> w < parent.ways.len() && uses_node(parent, w as int, n as u64)
}

/// `list` holds the relations that have entity `i` as a member, ascending, each
/// once.
pub open spec fn is_rels_of(parent: &Osm, kind: EntityType, i: int, list: Seq<u64>) -> bool {
    &&& strictly_ascending(list)
    &&& forall|r: u64| #[trigger]
        list.contains(r) <==> r < parent.relations.len() && has_member(
            parent,
            r as int,
            kind,
            i as u64,
        )
}

impl Backrefs {
    /// Where the relations of each entity of a kind start.
    pub open spec fn rels_range(&self, kind: EntityType) -> Seq<u64> {
        match kind {
            EntityType::Node => self.node_rels_range@,
            EntityType::Way => self.way_rels_range@,
            EntityType::Relation => self.rel_rels_range@,
        }
    }

    /// The relations of all entities of a kind.
    pub open spec fn rels(&self, kind: EntityType) -> Seq<u64> {
        match kind {
            EntityType::Node => self.rels_of_node@,
            EntityType::Way => self.rels_of_way@,
            EntityType::Relation => self.rels_of_rel@,
        }
    }

    /// These are the reverse references of `parent`.
    pub open spec fn describes(&self, parent: &Osm) -> bool {
        &&& cuts(
            self.node_ways_range@,
            parent.nodes.len() as int,
            self.ways_of_node.len() as int,
        )
        &&& forall|n: int|
            0 <= n < parent.nodes.len() ==> is_ways_of_node(
                parent,
                n,
                #[trigger] run(self.ways_of_node@, self.node_ways_range@, n),
            )
        &&& forall|kind: EntityType|
            cuts(
                #[trigger] self.rels_range(kind),
                parent.len_of(kind) as int,
                self.rels(kind).len() as int,
            )
        &&& forall|kind: EntityType, i: int|
            0 <= i < parent.len_of(kind) ==> is_rels_of(
                parent,
                kind,
                i,
                #[trigger] run(self.rels(kind), self.rels_range(kind), i),
            )
    }
}

/// The nodes of a way, each once, ascending.
fn nodes_of_way(parent: &Osm, w: usize) -> (out: Vec<u64>)
    requires
        parent.wf(),
        w < parent.ways.len(),
    ensures
        strictly_ascending(out@),
        forall|n: u64| #[trigger] out@.contains(n) <==> uses_node(parent, w as int, n),
        forall|k: int| 0 <= k < out@.len() ==> (#[trigger] out@[k]) < parent.nodes.len(),
{
    let refs = parent.ways[w].refs;
    let mut list: Vec<u64> = Vec::new();
    let mut j: u64 = refs.start;
    while j < refs.end
        invariant
            parent.wf(),
            refs.within(parent.nodes_index.len() as nat),
            refs.start <= j <= refs.end,
            forall|n: u64| #[trigger]
                list@.contains(n) <==> exists|i: int|
                    refs.start <= i < j && #[trigger] parent.nodes_index@[i] == Some(n),
        decreases refs.end - j,
    {
        let ghost before = list@;
        let at = parent.nodes_index[j as usize];
        if let Some(n) = at {
            list.push(n);
        }
        proof {
            assert forall|n: u64| #[trigger] list@.contains(n) <==> exists|i: int|
                refs.start <= i < j + 1 && #[trigger] parent.nodes_index@[i] == Some(n) by {
                if at is Some {
                    vstd::seq_lib::lemma_seq_contains_after_push(before, at->0, n);
                }
                if list@.contains(n) {
                    if before.contains(n) {
                        let i = choose|i: int|
                            refs.start <= i < j && #[trigger] parent.nodes_index@[i] == Some(n);
                        assert(parent.nodes_index@[i] == Some(n));
                    } else {
                        assert(parent.nodes_index@[j as int] == Some(n));
                    }
                }
                if exists|i: int|
                    refs.start <= i < j + 1 && #[trigger] parent.nodes_index@[i] == Some(n) {
                    let i = choose|i: int|
                        refs.start <= i < j + 1 && #[trigger] parent.nodes_index@[i] == Some(n);
                    if i < j {
                        assert(before.contains(n));
                        if at is Some {
                            let m = choose|m: int| 0 <= m < before.len() && before[m] == n;
                            assert(list@[m] == n);
                        }
                    } else {
                        assert(list@[before.len() as int] == n);
                    }
                }
            }
        }
        j = j + 1;
    }
    let out = sorted_indices(list);
    proof {
        assert forall|n: u64| #[trigger] out@.contains(n) <==> uses_node(parent, w as int, n) by {
            assert(out@.contains(n) <==> list@.contains(n));
        }
        assert forall|k: int| 0 <= k < out@.len() implies (#[trigger] out@[k])
            < parent.nodes.len() by {
            assert(out@.contains(out@[k]));
            let n = out@[k];
            let i = choose|i: int|
                refs.start <= i < refs.end && #[trigger] parent.nodes_index@[i] == Some(n);
            assert(parent.nodes_index@[i] matches Some(m) ==> m < parent.nodes.len());
        }
    }
    out
}

/// The members of a relation of one kind, each once, ascending.
fn members_of_relation(parent: &Osm, r: usize, kind: EntityType) -> (out: Vec<u64>)
    requires
        parent.wf(),
        r < parent.relations.len(),
    ensures
        strictly_ascending(out@),
        forall|i: u64| #[trigger] out@.contains(i) <==> has_member(parent, r as int, kind, i),
        forall|k: int| 0 <= k < out@.len() ==> (#[trigger] out@[k]) < parent.len_of(kind),
{
    let members = &parent.relation_members[r];
    let mut list: Vec<u64> = Vec::new();
    let mut m: usize = 0;
    while m < members.len()
        invariant
            m <= members@.len(),
            forall|i: u64| #[trigger]
                list@.contains(i) <==> exists|j: int|
                    0 <= j < m && (#[trigger] members@[j]).kind == kind && members@[j].idx == Some(
                        i,
                    ),
        decreases members@.len() - m,
    {
        let ghost before = list@;
        let member = members[m];
        if member.kind == kind {
            if let Some(i) = member.idx {
                list.push(i);
            }
        }
        proof {
            assert forall|i: u64| #[trigger] list@.contains(i) <==> exists|j: int|
                0 <= j < m + 1 && (#[trigger] members@[j]).kind == kind && members@[j].idx == Some(
                    i,
                ) by {
                if member.kind == kind && member.idx is Some {
                    vstd::seq_lib::lemma_seq_contains_after_push(before, member.idx->0, i);
                }
                if list@.contains(i) {
                    if before.contains(i) {
                        let j = choose|j: int|
                            0 <= j < m && (#[trigger] members@[j]).kind == kind && members@[j].idx
                                == Some(i);
                        assert(members@[j].kind == kind);
                    } else {
                        assert(members@[m as int].kind == kind && members@[m as int].idx == Some(i));
                    }
                }
                if exists|j: int|
                    0 <= j < m + 1 && (#[trigger] members@[j]).kind == kind && members@[j].idx
                        == Some(i) {
                    let j = choose|j: int|
                        0 <= j < m + 1 && (#[trigger] members@[j]).kind == kind && members@[j].idx
                            == Some(i);
                    if j < m {
                        assert(before.contains(i));
                        let k = choose|k: int| 0 <= k < before.len() && before[k] == i;
                        assert(list@[k] == i);
                    } else {
                        assert(list@[before.len() as int] == i);
                    }
                }
            }
        }
        m = m + 1;
    }
    let out = sorted_indices(list);
    proof {
        assert forall|i: u64| #[trigger] out@.contains(i) <==> has_member(
            parent,
            r as int,
            kind,
            i,
        ) by {
            assert(out@.contains(i) <==> list@.contains(i));
        }
        assert forall|k: int| 0 <= k < out@.len() implies (#[trigger] out@[k])
            < parent.len_of(kind) by {
            assert(out@.contains(out@[k]));
            let i = out@[k];
            let j = choose|j: int|
                0 <= j < members@.len() && (#[trigger] members@[j]).kind == kind
                    && members@[j].idx == Some(i);
            assert(parent.member_ok(parent.relation_members@[r as int]@[j]));
        }
    }
    out
}

/// Append a pair for each child of `parent_idx`.
fn push_children(buckets: &mut PairBuckets, children: &Vec<u64>, parent_idx: u64)
    requires
        old(buckets).wf(),
        strictly_ascending(children@),
        forall|k: int|
            0 <= k < children@.len() ==> (#[trigger] children@[k]) < old(buckets).children(),
    ensures
        final(buckets).wf(),
        final(buckets).children() == old(buckets).children(),
        forall|c: u64, p: u64| #[trigger]
            count(final(buckets).pairs(), (c, p)) == count(old(buckets).pairs(), (c, p)) + if p
                == parent_idx && children@.contains(c) {
                1nat
            } else {
                0
            },
{
    let ghost start = *buckets;
    let ghost all = children@;
    let mut i: usize = 0;
    while i < children.len()
        invariant
            i <= all.len(),
            all == children@,
            strictly_ascending(all),
            buckets.wf(),
            buckets.children() == start.children(),
            forall|k: int| 0 <= k < all.len() ==> (#[trigger] all[k]) < start.children(),
            forall|c: u64, p: u64| #[trigger]
                count(buckets.pairs(), (c, p)) == count(start.pairs(), (c, p)) + if p == parent_idx
                    && all.take(i as int).contains(c) {
                    1nat
                } else {
                    0
                },
        decreases all.len() - i,
    {
        let child: u64 = children[i];
        let ghost before = buckets.pairs();
        buckets.push(child, parent_idx);
        proof {
            let seen = all.take(i as int);
            assert(all.take(i + 1) =~= seen.push(child));
            assert(!seen.contains(child)) by {
                if seen.contains(child) {
                    let m = choose|m: int| 0 <= m < seen.len() && seen[m] == child;
                    assert(all[m] == child);
                }
            }
            assert forall|c: u64, p: u64| #[trigger]
                count(buckets.pairs(), (c, p)) == count(start.pairs(), (c, p)) + if p == parent_idx
                    && all.take(i + 1).contains(c) {
                    1nat
                } else {
                    0
                } by {
                lemma_count(before, (c, p));
                assert(count(before, (c, p)) >= 0);
                vstd::seq_lib::lemma_seq_contains_after_push(seen, child, c);
                assert(all.take(i + 1)[i as int] == child);
            }
        }
        i = i + 1;
    }
    proof {
        assert(all.take(i as int) =~= all);
    }
}

/// Every `(node, way)` pair, sorted.
fn way_node_pairs(parent: &Osm) -> (out: Vec<(u64, u64)>)
    requires
        parent.wf(),
    ensures
        pairs_sorted(out@),
        forall|n: u64, w: u64| #[trigger]
            count(out@, (n, w)) == if w < parent.ways.len() && uses_node(parent, w as int, n) {
                1nat
            } else {
                0
            },
{
    let mut buckets = PairBuckets::new(parent.nodes.len(), parent.nodes_index.len());
    proof {
        assert forall|n: u64, w: u64| #[trigger] count(buckets.pairs(), (n, w)) == 0 by {
            lemma_count(buckets.pairs(), (n, w));
        }
    }
    let mut i: usize = 0;
    while i < parent.ways.len()
        invariant
            parent.wf(),
            i <= parent.ways.len(),
            buckets.wf(),
            buckets.children() == parent.nodes.len(),
            forall|n: u64, w: u64| #[trigger]
                count(buckets.pairs(), (n, w)) == if w < i && uses_node(parent, w as int, n) {
                    1nat
                } else {
                    0
                },
        decreases parent.ways.len() - i,
    {
        let nodes = nodes_of_way(parent, i);
        let ghost before = buckets.pairs();
        push_children(&mut buckets, &nodes, i as u64);
        proof {
            assert forall|n: u64, w: u64| #[trigger]
                count(buckets.pairs(), (n, w)) == if w < i + 1 && uses_node(parent, w as int, n) {
                    1nat
                } else {
                    0
                } by {
                assert(count(before, (n, w)) >= 0);
                assert(nodes@.contains(n) <==> uses_node(parent, i as int, n));
            }
        }
        i = i + 1;
    }
    let ghost pushed = buckets.pairs();
    let out = buckets.into_sorted();
    proof {
        assert forall|n: u64, w: u64| #[trigger]
            count(out@, (n, w)) == if w < parent.ways.len() && uses_node(parent, w as int, n) {
                1nat
            } else {
                0
            } by {
            assert(count(out@, (n, w)) == count(pushed, (n, w)));
        }
    }
    out
}

/// Every `(member, relation)` pair of one kind of member, sorted.
fn member_pairs(parent: &Osm, kind: EntityType) -> (out: Vec<(u64, u64)>)
    requires
        parent.wf(),
    ensures
        pairs_sorted(out@),
        forall|i: u64, r: u64| #[trigger]
            count(out@, (i, r)) == if r < parent.relations.len() && has_member(
                parent,
                r as int,
                kind,
                i,
            ) {
                1nat
            } else {
                0
            },
{
    let mut buckets = PairBuckets::new(parent.entity_count(kind), parent.relations.len());
    proof {
        assert forall|i: u64, r: u64| #[trigger] count(buckets.pairs(), (i, r)) == 0 by {
            lemma_count(buckets.pairs(), (i, r));
        }
    }
    let mut k: usize = 0;
    while k < parent.relations.len()
        invariant
            parent.wf(),
            k <= parent.relations.len(),
            buckets.wf(),
            buckets.children() == parent.len_of(kind),
            forall|i: u64, r: u64| #[trigger]
                count(buckets.pairs(), (i, r)) == if r < k && has_member(
                    parent,
                    r as int,
                    kind,
                    i,
                ) {
                    1nat
                } else {
                    0
                },
        decreases parent.relations.len() - k,
    {
        let members = members_of_relation(parent, k, kind);
        let ghost before = buckets.pairs();
        push_children(&mut buckets, &members, k as u64);
        proof {
            assert forall|i: u64, r: u64| #[trigger]
                count(buckets.pairs(), (i, r)) == if r < k + 1 && has_member(
                    parent,
                    r as int,
                    kind,
                    i,
                ) {
                    1nat
                } else {
                    0
                } by {
                assert(count(before, (i, r)) >= 0);
                assert(members@.contains(i) <==> has_member(parent, k as int, kind, i));
            }
        }
        k = k + 1;
    }
    let ghost pushed = buckets.pairs();
    let out = buckets.into_sorted();
    proof {
        assert forall|i: u64, r: u64| #[trigger]
            count(out@, (i, r)) == if r < parent.relations.len() && has_member(
                parent,
                r as int,
                kind,
                i,
            ) {
                1nat
            } else {
                0
            } by {
            assert(count(out@, (i, r)) == count(pushed, (i, r)));
        }
    }
    out
}

/// `list` holds the parents of `child` in `pairs`.
pub open spec fn is_parents(pairs: Seq<(u64, u64)>, child: u64, list: Seq<u64>) -> bool {
    &&& ascending(list)
    &&& forall|p: u64| #[trigger] count(list, p) == count(pairs, (child, p))
}

/// Cut sorted pairs into one run of parents per child; children without parents
/// get empty runs.
fn write_csr(pairs: &Vec<(u64, u64)>, n_children: usize) -> (out: Runs)
    requires
        pairs_sorted(pairs@),
        forall|i: int| 0 <= i < pairs@.len() ==> (#[trigger] pairs@[i]).0 < n_children,
    ensures
        out.wf(n_children as int),
        forall|c: int|
            0 <= c < n_children ==> is_parents(
                pairs@,
                c as u64,
                #[trigger] run(out.items@, out.first@, c),
            ),
{
    let ghost all = pairs@;
    let mut out = Runs::new();
    let mut c: usize = 0;
    let mut k: usize = 0;
    while c < n_children
        invariant
            all == pairs@,
            pairs_sorted(all),
            c <= n_children,
            k <= all.len(),
            forall|i: int| 0 <= i < k ==> (#[trigger] all[i]).0 < c,
            forall|i: int| k <= i < all.len() ==> (#[trigger] all[i]).0 >= c,
            out.wf(c as int),
            forall|d: int|
                0 <= d < c ==> is_parents(all, d as u64, #[trigger] run(out.items@, out.first@, d)),
        decreases n_children - c,
    {
        let mut list: Vec<u64> = Vec::new();
        let ghost start = k as int;
        while k < pairs.len() && pairs[k].0 == c as u64
            invariant
                all == pairs@,
                pairs_sorted(all),
                c < n_children,
                start <= k <= all.len(),
                list@.len() == k - start,
                forall|i: int| 0 <= i < list@.len() ==> #[trigger] list@[i] == all[start + i].1,
                forall|i: int| start <= i < k ==> (#[trigger] all[i]).0 == c,
                forall|i: int| start <= i < all.len() ==> (#[trigger] all[i]).0 >= c,
            decreases all.len() - k,
        {
            list.push(pairs[k].1);
            k = k + 1;
        }
        proof {
            assert forall|i: int| k <= i < all.len() implies (#[trigger] all[i]).0 >= c + 1 by {
                assert(pair_le(all[k as int], all[i]));
            }
            lemma_run_parents(all, start, k as int, c as u64, list@);
        }
        let ghost before = out;
        out.push_run(&list, Ghost(c as int));
        proof {
            assert forall|d: int| 0 <= d < c + 1 implies is_parents(
                all,
                d as u64,
                #[trigger] run(out.items@, out.first@, d),
            ) by {
                if d < c {
                    assert(run(out.items@, out.first@, d) == run(before.items@, before.first@, d));
                }
            }
        }
        c = c + 1;
    }
    out
}

proof fn lemma_run_parents(
    all: Seq<(u64, u64)>,
    start: int,
    end: int,
    child: u64,
    list: Seq<u64>,
)
    requires
        pairs_sorted(all),
        0 <= start <= end <= all.len(),
        forall|i: int| 0 <= i < start ==> (#[trigger] all[i]).0 < child,
        forall|i: int| start <= i < end ==> (#[trigger] all[i]).0 == child,
        forall|i: int| end <= i < all.len() ==> (#[trigger] all[i]).0 > child,
        list.len() == end - start,
        forall|i: int| 0 <= i < list.len() ==> #[trigger] list[i] == all[start + i].1,
    ensures
        is_parents(all, child, list),
{
    assert forall|i: int, j: int| 0 <= i <= j < list.len() implies list[i] <= list[j] by {
        assert(pair_le(all[start + i], all[start + j]));
        assert(all[start + i].0 == child && all[start + j].0 == child);
    }
    let (a, b, c) = (
        all.subrange(0, start),
        all.subrange(start, end),
        all.subrange(end, all.len() as int),
    );
    assert(all =~= a + b + c);
    assert forall|p: u64| #[trigger] count(list, p) == count(all, (child, p)) by {
        let x = (child, p);
        crate::order::lemma_count_add(a + b, c, x);
        crate::order::lemma_count_add(a, b, x);
        lemma_count(a, x);
        lemma_count(c, x);
        if a.contains(x) {
            let i = choose|i: int| 0 <= i < a.len() && a[i] == x;
            assert(all[i].0 < child);
        }
        if c.contains(x) {
            let i = choose|i: int| 0 <= i < c.len() && c[i] == x;
            assert(all[end + i].0 > child);
        }
        assert forall|i: int| 0 <= i < b.len() implies (#[trigger] b[i]).0 == child && b[i].1
            == list[i] by {
            assert(b[i] == all[start + i]);
        }
        lemma_second_count(b, list, child, p);
    }
}

proof fn lemma_second_count(pairs: Seq<(u64, u64)>, list: Seq<u64>, child: u64, p: u64)
    requires
        pairs.len() == list.len(),
        forall|i: int|
            0 <= i < pairs.len() ==> (#[trigger] pairs[i]).0 == child && pairs[i].1 == list[i],
    ensures
        count(pairs, (child, p)) == count(list, p),
    decreases pairs.len(),
{
    if pairs.len() > 0 {
        let (a, b) = (pairs.drop_last(), list.drop_last());
        assert forall|i: int| 0 <= i < a.len() implies (#[trigger] a[i]).0 == child && a[i].1
            == b[i] by {
            assert(a[i] == pairs[i]);
        }
        lemma_second_count(a, b, child, p);
        assert(pairs =~= a.push(pairs.last()));
        assert(list =~= b.push(list.last()));
        assert(pairs[pairs.len() - 1].1 == list[pairs.len() - 1]);
        lemma_count(a, (child, p));
        lemma_count(b, p);
        assert(count(a.push(pairs.last()), (child, p)) == count(a, (child, p)) + if (child, p)
            == pairs.last() {
            1nat
        } else {
            0
        });
        assert(count(b.push(list.last()), p) == count(b, p) + if p == list.last() {
            1nat
        } else {
            0
        });
    } else {
        lemma_count(pairs, (child, p));
        lemma_count(list, p);
    }
}

/// An ascending run in which each item that occurs is counted once.
proof fn lemma_once(list: Seq<u64>)
    requires
        ascending(list),
        forall|p: u64| #[trigger] count(list, p) <= 1,
    ensures
        strictly_ascending(list),
{
    assert forall|x: u64| list.to_multiset().contains(x) implies list.to_multiset().count(x) == 1 by {
        lemma_count(list, x);
        assert(count(list, x) <= 1);
    }
    list.lemma_multiset_has_no_duplicates_conv();
}

/// The ways of every node.
fn ways_of_nodes(parent: &Osm) -> (out: Runs)
    requires
        parent.wf(),
    ensures
        out.wf(parent.nodes.len() as int),
        forall|n: int|
            0 <= n < parent.nodes.len() ==> is_ways_of_node(
                parent,
                n,
                #[trigger] run(out.items@, out.first@, n),
            ),
{
    let pairs = way_node_pairs(parent);
    proof {
        assert forall|i: int| 0 <= i < pairs@.len() implies (#[trigger] pairs@[i]).0
            < parent.nodes.len() by {
            let x = pairs@[i];
            lemma_count(pairs@, x);
            assert(pairs@.contains(x));
            assert(count(pairs@, (x.0, x.1)) > 0);
            let j = choose|j: int|
                parent.ways@[x.1 as int].refs.start <= j < parent.ways@[x.1 as int].refs.end
                    && #[trigger] parent.nodes_index@[j] == Some(x.0);
            assert(parent.nodes_index@[j] matches Some(n) ==> n < parent.nodes.len());
        }
    }
    let out = write_csr(&pairs, parent.nodes.len());
    proof {
        assert forall|n: int| 0 <= n < parent.nodes.len() implies is_ways_of_node(
            parent,
            n,
            #[trigger] run(out.items@, out.first@, n),
        ) by {
            let list = run(out.items@, out.first@, n);
            assert(is_parents(pairs@, n as u64, list));
            assert forall|w: u64| #[trigger] count(list, w) <= 1 by {
                assert(count(list, w) == count(pairs@, (n as u64, w)));
            }
            lemma_once(list);
            assert forall|w: u64| #[trigger] list.contains(w) <==> w < parent.ways.len()
                && uses_node(parent, w as int, n as u64) by {
                lemma_count(list, w);
                assert(count(list, w) == count(pairs@, (n as u64, w)));
            }
        }
    }
    out
}

/// The relations of every entity of a kind.
fn rels_of_entities(parent: &Osm, kind: EntityType) -> (out: Runs)
    requires
        parent.wf(),
    ensures
        out.wf(parent.len_of(kind) as int),
        forall|i: int|
            0 <= i < parent.len_of(kind) ==> is_rels_of(
                parent,
                kind,
                i,
                #[trigger] run(out.items@, out.first@, i),
            ),
{
    let pairs = member_pairs(parent, kind);
    let n: usize = parent.entity_count(kind);
    proof {
        assert forall|k: int| 0 <= k < pairs@.len() implies (#[trigger] pairs@[k]).0 < n by {
            let x = pairs@[k];
            lemma_count(pairs@, x);
            assert(pairs@.contains(x));
            assert(count(pairs@, (x.0, x.1)) > 0);
            let r = x.1 as int;
            let m = choose|m: int|
                0 <= m < parent.relation_members@[r]@.len() && (
                #[trigger] parent.relation_members@[r]@[m]).kind == kind
                    && parent.relation_members@[r]@[m].idx == Some(x.0);
            assert(parent.member_ok(parent.relation_members@[r]@[m]));
        }
    }
    let out = write_csr(&pairs, n);
    proof {
        assert forall|i: int| 0 <= i < parent.len_of(kind) implies is_rels_of(
            parent,
            kind,
            i,
            #[trigger] run(out.items@, out.first@, i),
        ) by {
            let list = run(out.items@, out.first@, i);
            assert(is_parents(pairs@, i as u64, list));
            assert forall|r: u64| #[trigger] count(list, r) <= 1 by {
                assert(count(list, r) == count(pairs@, (i as u64, r)));
            }
            lemma_once(list);
            assert forall|r: u64| #[trigger] list.contains(r) <==> r < parent.relations.len()
                && has_member(parent, r as int, kind, i as u64) by {
                lemma_count(list, r);
                assert(count(list, r) == count(pairs@, (i as u64, r)));
            }
        }
    }
    out
}

/// Build the `Backrefs` index of `parent`.
pub fn build(parent: &Osm) -> (out: Backrefs)
    requires
        parent.wf(),
    ensures
        out.describes(parent),
{
    let node_ways = ways_of_nodes(parent);
    let node_rels = rels_of_entities(parent, EntityType::Node);
    let way_rels = rels_of_entities(parent, EntityType::Way);
    let rel_rels = rels_of_entities(parent, EntityType::Relation);
    let out = Backrefs {
        node_ways_range: node_ways.first,
        ways_of_node: node_ways.items,
        node_rels_range: node_rels.first,
        rels_of_node: node_rels.items,
        way_rels_range: way_rels.first,
        rels_of_way: way_rels.items,
        rel_rels_range: rel_rels.first,
        rels_of_rel: rel_rels.items,
    };
    proof {
        assert forall|kind: EntityType, i: int| 0 <= i < parent.len_of(kind) implies is_rels_of(
            parent,
            kind,
            i,
            #[trigger] run(out.rels(kind), out.rels_range(kind), i),
        ) by {
            match kind {
                EntityType::Node => {
                    assert(is_rels_of(parent, kind, i, run(node_rels.items@, node_rels.first@, i)));
                },
                EntityType::Way => {
                    assert(is_rels_of(parent, kind, i, run(way_rels.items@, way_rels.first@, i)));
                },
                EntityType::Relation => {
                    assert(is_rels_of(parent, kind, i, run(rel_rels.items@, rel_rels.first@, i)));
                },
            }
        }
        assert forall|kind: EntityType| cuts(
            #[trigger] out.rels_range(kind),
            parent.len_of(kind) as int,
            out.rels(kind).len() as int,
        ) by {
            match kind {
                EntityType::Node => {},
                EntityType::Way => {},
                EntityType::Relation => {},
            }
        }
    }
    out
}

} // verus!
