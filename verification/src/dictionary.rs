//! The dictionary of an archive's tags.
//!
//! Slots are grouped by key, keys sorted by string and, within a key, values by
//! string.

use crate::ext::{lemma_append_run, run};
use crate::fxmap::{fx_get, fx_insert, fx_new};
use crate::order::{
    cuts, in_run, lemma_run_of, lemma_same_items, merge_sort, same_items,
};
use crate::osm::Osm;
use crate::strings::{lemma_tie_le, tie_leq};
use crate::taginfo_index::{key_le, value_le};
use vstd::prelude::*;

verus! {

/// Keys sorted by string; within each key, its tag slots sorted by value
/// string.
pub struct Dictionary {
    /// The `key_idx` of each distinct key.
    pub keys: Vec<u64>,
    /// Where each key's slots start, and where the last key's end.
    pub first: Vec<u64>,
    /// Tag slots, grouped by key.
    pub slots: Vec<u64>,
}

/// The slots of one key.
struct KeyGroup {
    key_idx: u64,
    slots: Vec<u64>,
}

spec fn group_ok(parent: &Osm, g: KeyGroup) -> bool {
    &&& g.slots@.len() > 0
    &&& g.slots@.no_duplicates()
    &&& forall|i: int|
        0 <= i < g.slots@.len() ==> (#[trigger] g.slots@[i]) < parent.tags.len()
            && parent.tags@[g.slots@[i] as int].key_idx == g.key_idx
}

/// The groups are the slots below `n`, by key.
spec fn is_grouping(parent: &Osm, groups: Seq<KeyGroup>, n: int) -> bool {
    &&& forall|g: int| 0 <= g < groups.len() ==> group_ok(parent, #[trigger] groups[g])
    &&& forall|g: int, h: int|
        0 <= g < groups.len() && 0 <= h < groups.len() && g != h ==> (#[trigger] groups[g]).key_idx
            != (#[trigger] groups[h]).key_idx
    &&& forall|t: u64| t < n ==> #[trigger] grouped(groups, t)
}

/// One of the groups holds slot `t`.
spec fn grouped(groups: Seq<KeyGroup>, t: u64) -> bool {
    exists|g: int| 0 <= g < groups.len() && #[trigger] groups[g].slots@.contains(t)
}

/// Group the tag slots by `key_idx`.
fn group_by_key(parent: &Osm) -> (groups: Vec<KeyGroup>)
    requires
        parent.wf(),
    ensures
        is_grouping(parent, groups@, parent.tags.len() as int),
{
    let mut groups: Vec<KeyGroup> = Vec::new();
    let mut by_key = fx_new();
    let mut t: usize = 0;
    while t < parent.tags.len()
        invariant
            parent.wf(),
            t <= parent.tags.len(),
            is_grouping(parent, groups@, t as int),
            forall|g: int, i: int|
                0 <= g < groups@.len() && 0 <= i < groups@[g].slots@.len()
                    ==> #[trigger] groups@[g].slots@[i] < t,
            forall|k: u64| #[trigger]
                by_key@.contains_key(k) ==> by_key@[k] < groups@.len()
                    && groups@[by_key@[k] as int].key_idx == k,
            forall|g: int|
                0 <= g < groups@.len() ==> by_key@.contains_key((#[trigger] groups@[g]).key_idx),
        decreases parent.tags.len() - t,
    {
        let key_idx: u64 = parent.tags[t].key_idx;
        let ghost before = groups@;
        match fx_get(&by_key, key_idx) {
            Some(g) => {
                let ghost slots0 = groups@[g as int].slots@;
                groups[g].slots.push(t as u64);
                proof {
                    assert(group_ok(parent, before[g as int]));
                    assert(groups@[g as int].slots@ =~= slots0.push(t as u64));
                    assert(group_ok(parent, groups@[g as int]));
                    assert forall|h: int| 0 <= h < groups@.len() implies group_ok(
                        parent,
                        #[trigger] groups@[h],
                    ) by {
                        assert(group_ok(parent, before[h]));
                    }
                    assert forall|s: u64| s < t + 1 implies #[trigger] grouped(groups@, s) by {
                        if s == t {
                            assert(groups@[g as int].slots@[slots0.len() as int] == s);
                            assert(groups@[g as int].slots@.contains(s));
                        } else {
                            assert(grouped(before, s));
                            let h = choose|h: int|
                                0 <= h < before.len() && #[trigger] before[h].slots@.contains(s);
                            let i = choose|i: int|
                                0 <= i < before[h].slots@.len() && before[h].slots@[i] == s;
                            assert(groups@[h].slots@[i] == s);
                            assert(groups@[h].slots@.contains(s));
                        }
                    }
                }
            },
            None => {
                let mut slots: Vec<u64> = Vec::new();
                slots.push(t as u64);
                fx_insert(&mut by_key, key_idx, groups.len());
                groups.push(KeyGroup { key_idx, slots });
                proof {
                    let last = before.len() as int;
                    assert(groups@[last].slots@ =~= seq![t as u64]);
                    assert(group_ok(parent, groups@[last]));
                    assert forall|h: int| 0 <= h < groups@.len() implies group_ok(
                        parent,
                        #[trigger] groups@[h],
                    ) by {
                        if h < last {
                            assert(groups@[h] == before[h]);
                        }
                    }
                    assert forall|s: u64| s < t + 1 implies #[trigger] grouped(groups@, s) by {
                        if s == t {
                            assert(groups@[last].slots@[0] == s);
                            assert(groups@[last].slots@.contains(s));
                        } else {
                            assert(grouped(before, s));
                            let h = choose|h: int|
                                0 <= h < before.len() && #[trigger] before[h].slots@.contains(s);
                            assert(groups@[h].slots@.contains(s));
                        }
                    }
                }
            },
        }
        t = t + 1;
    }
    groups
}

impl Dictionary {
    /// This is the dictionary of `parent`.
    pub open spec fn describes(&self, parent: &Osm) -> bool {
        &&& cuts(self.first@, self.keys.len() as int, self.slots.len() as int)
        &&& self.slots@.no_duplicates()
        &&& forall|t: u64| t < parent.tags.len() ==> #[trigger] self.slots@.contains(t)
        &&& forall|p: int|
            0 <= p < self.slots.len() ==> (#[trigger] self.slots@[p]) < parent.tags.len()
        // Keys: distinct, in order, each with at least one slot.
        &&& forall|g: int, h: int|
            0 <= g < h < self.keys.len() ==> #[trigger] key_le(parent, self.keys@[g], self.keys@[h])
                && self.keys@[g] != self.keys@[h]
        &&& forall|g: int|
            0 <= g < self.keys.len() ==> (#[trigger] self.first@[g]) < self.first@[g + 1]
        // Slots: each under its key, in order within the key.
        &&& forall|g: int, p: int|
            0 <= g < self.keys.len() && #[trigger] in_run(self.first@, g, p)
                ==> parent.tags@[self.slots@[p] as int].key_idx == self.keys@[g]
        &&& forall|g: int, p: int, q: int|
            0 <= g < self.keys.len() && #[trigger] in_run(self.first@, g, p) && #[trigger] in_run(
                self.first@,
                g,
                q,
            ) && p <= q ==> value_le(parent, self.slots@[p], self.slots@[q])
    }

    /// Build the dictionary of `parent`.
    pub fn build(parent: &Osm) -> (out: Self)
        requires
            parent.wf(),
        ensures
            out.describes(parent),
    {
        let grouped = group_by_key(parent);
        let groups = sort_groups(parent, grouped);
        let order = order_of_groups(parent, &groups);
        let mut keys: Vec<u64> = Vec::new();
        let mut first: Vec<u64> = Vec::new();
        let mut slots: Vec<u64> = Vec::new();
        first.push(0);
        let mut k: usize = 0;
        while k < order.len()
            invariant
                k <= order@.len(),
                forall|i: int| 0 <= i < order@.len() ==> (#[trigger] order@[i]) < groups@.len(),
                forall|g: int| 0 <= g < groups@.len() ==> group_ok(parent, #[trigger] groups@[g]),
                keys.len() == k,
                laid_out(groups@, order@, keys@, first@, slots@, k as int),
            decreases order@.len() - k,
        {
            let g: usize = order[k];
            let group = &groups[g];
            keys.push(group.key_idx);
            let ghost before = slots@;
            let ghost first0 = first@;
            let mut i: usize = 0;
            while i < group.slots.len()
                invariant
                    i <= group.slots@.len(),
                    slots@ == before + group.slots@.take(i as int),
                decreases group.slots@.len() - i,
            {
                slots.push(group.slots[i]);
                proof {
                    assert(group.slots@.take(i + 1) =~= group.slots@.take(i as int).push(
                        group.slots@[i as int],
                    ));
                }
                i = i + 1;
            }
            first.push(slots.len() as u64);
            proof {
                assert(group.slots@.take(i as int) =~= group.slots@);
                assert(slots.len() == slots@.len());
                lemma_append_run(before, first0, group.slots@, k as int, slots@, first@);
                assert forall|h: int| 0 <= h < k + 1 implies #[trigger] run(slots@, first@, h)
                    == groups@[order@[h] as int].slots@ by {
                    if h < k {
                        assert(run(before, first0, h) == groups@[order@[h] as int].slots@);
                    }
                }
            }
            k = k + 1;
        }
        let out = Dictionary { keys, first, slots };
        proof {
            assert(groups.len() == groups@.len());
            lemma_laid_out(parent, groups@, order@, out);
        }
        out
    }
}

/// The first `k` groups in `order` stand one after the other.
spec fn laid_out(
    groups: Seq<KeyGroup>,
    order: Seq<usize>,
    keys: Seq<u64>,
    first: Seq<u64>,
    slots: Seq<u64>,
    k: int,
) -> bool {
    &&& cuts(first, k, slots.len() as int)
    &&& forall|g: int|
        0 <= g < k ==> #[trigger] run(slots, first, g) == groups[order[g] as int].slots@
    &&& forall|g: int| 0 <= g < k ==> #[trigger] keys[g] == groups[order[g] as int].key_idx
}

/// Every group is in order by value.
spec fn groups_sorted(parent: &Osm, groups: Seq<KeyGroup>) -> bool {
    forall|g: int, i: int, j: int|
        0 <= g < groups.len() && 0 <= i <= j < groups[g].slots@.len() ==> value_le(
            parent,
            #[trigger] groups[g].slots@[i],
            #[trigger] groups[g].slots@[j],
        )
}

/// Item `p` of run `g` is an item of the group that stands there.
proof fn lemma_laid_item(
    parent: &Osm,
    groups: Seq<KeyGroup>,
    order: Seq<usize>,
    keys: Seq<u64>,
    first: Seq<u64>,
    slots: Seq<u64>,
    g: int,
    p: int,
)
    requires
        forall|h: int| 0 <= h < groups.len() ==> group_ok(parent, #[trigger] groups[h]),
        forall|i: int| 0 <= i < order.len() ==> (#[trigger] order[i]) < groups.len(),
        laid_out(groups, order, keys, first, slots, order.len() as int),
        0 <= g < order.len(),
        in_run(first, g, p),
    ensures
        0 <= p < slots.len(),
        0 <= p - first[g] < groups[order[g] as int].slots@.len(),
        slots[p] == groups[order[g] as int].slots@[p - first[g]],
        slots[p] < parent.tags.len(),
        parent.tags@[slots[p] as int].key_idx == keys[g],
{
    let list = run(slots, first, g);
    assert(first[g + 1] <= first[order.len() as int]);
    assert(list == groups[order[g] as int].slots@);
    assert(list[p - first[g]] == slots[p]);
    assert(group_ok(parent, groups[order[g] as int]));
    assert(keys[g] == groups[order[g] as int].key_idx);
}

proof fn lemma_laid_keys(
    parent: &Osm,
    groups: Seq<KeyGroup>,
    order: Seq<usize>,
    keys: Seq<u64>,
    first: Seq<u64>,
    slots: Seq<u64>,
)
    requires
        is_grouping(parent, groups, parent.tags.len() as int),
        forall|i: int| 0 <= i < order.len() ==> (#[trigger] order[i]) < groups.len(),
        order.no_duplicates(),
        forall|i: int, j: int|
            0 <= i <= j < order.len() ==> key_le(
                parent,
                groups[(#[trigger] order[i]) as int].key_idx,
                groups[(#[trigger] order[j]) as int].key_idx,
            ),
        laid_out(groups, order, keys, first, slots, order.len() as int),
    ensures
        forall|g: int, h: int|
            0 <= g < h < order.len() ==> #[trigger] key_le(parent, keys[g], keys[h]) && keys[g]
                != keys[h],
        forall|g: int| 0 <= g < order.len() ==> (#[trigger] first[g]) < first[g + 1],
{
    assert forall|g: int, h: int| 0 <= g < h < order.len() implies #[trigger] key_le(
        parent,
        keys[g],
        keys[h],
    ) && keys[g] != keys[h] by {
        assert(keys[g] == groups[order[g] as int].key_idx);
        assert(keys[h] == groups[order[h] as int].key_idx);
        assert(order[g] != order[h]);
    }
    assert forall|g: int| 0 <= g < order.len() implies (#[trigger] first[g]) < first[g + 1] by {
        assert(run(slots, first, g) == groups[order[g] as int].slots@);
        assert(group_ok(parent, groups[order[g] as int]));
        assert(first[g] <= first[g + 1]);
    }
}

proof fn lemma_laid_distinct(
    parent: &Osm,
    groups: Seq<KeyGroup>,
    order: Seq<usize>,
    keys: Seq<u64>,
    first: Seq<u64>,
    slots: Seq<u64>,
    p: int,
    q: int,
)
    requires
        forall|h: int| 0 <= h < groups.len() ==> group_ok(parent, #[trigger] groups[h]),
        forall|i: int| 0 <= i < order.len() ==> (#[trigger] order[i]) < groups.len(),
        laid_out(groups, order, keys, first, slots, order.len() as int),
        forall|g: int, h: int|
            0 <= g < h < order.len() ==> #[trigger] key_le(parent, keys[g], keys[h]) && keys[g]
                != keys[h],
        0 <= p < q < slots.len(),
    ensures
        slots[p] != slots[q],
{
    let n = order.len() as int;
    let g = lemma_run_of(first, n, slots.len() as int, p);
    let h = lemma_run_of(first, n, slots.len() as int, q);
    lemma_laid_item(parent, groups, order, keys, first, slots, g, p);
    lemma_laid_item(parent, groups, order, keys, first, slots, h, q);
    if g == h {
        assert(group_ok(parent, groups[order[g] as int]));
    } else if g < h {
        assert(key_le(parent, keys[g], keys[h]) && keys[g] != keys[h]);
    } else {
        assert(key_le(parent, keys[h], keys[g]) && keys[h] != keys[g]);
    }
}

proof fn lemma_laid_slot(
    groups: Seq<KeyGroup>,
    order: Seq<usize>,
    keys: Seq<u64>,
    first: Seq<u64>,
    slots: Seq<u64>,
    t: u64,
)
    requires
        groups.len() <= usize::MAX,
        forall|g: usize| g < groups.len() ==> #[trigger] order.contains(g),
        laid_out(groups, order, keys, first, slots, order.len() as int),
        grouped(groups, t),
    ensures
        slots.contains(t),
{
    let n = order.len() as int;
    let g = choose|g: int| 0 <= g < groups.len() && #[trigger] groups[g].slots@.contains(t);
    assert(order.contains(g as usize));
    let m = choose|m: int| 0 <= m < order.len() && order[m] == g as usize;
    let list = groups[g].slots@;
    let i = choose|i: int| 0 <= i < list.len() && list[i] == t;
    assert(run(slots, first, m) == list);
    assert(first[m + 1] <= first[n]);
    assert(slots[first[m] + i] == run(slots, first, m)[i]);
}

proof fn lemma_laid_out(
    parent: &Osm,
    groups: Seq<KeyGroup>,
    order: Seq<usize>,
    out: Dictionary,
)
    requires
        groups.len() <= usize::MAX,
        is_grouping(parent, groups, parent.tags.len() as int),
        groups_sorted(parent, groups),
        forall|i: int| 0 <= i < order.len() ==> (#[trigger] order[i]) < groups.len(),
        forall|g: usize| g < groups.len() ==> #[trigger] order.contains(g),
        order.no_duplicates(),
        forall|i: int, j: int|
            0 <= i <= j < order.len() ==> key_le(
                parent,
                groups[(#[trigger] order[i]) as int].key_idx,
                groups[(#[trigger] order[j]) as int].key_idx,
            ),
        out.keys.len() == order.len(),
        laid_out(groups, order, out.keys@, out.first@, out.slots@, order.len() as int),
    ensures
        out.describes(parent),
{
    let (keys, first, slots) = (out.keys@, out.first@, out.slots@);
    let n = order.len() as int;
    lemma_laid_keys(parent, groups, order, keys, first, slots);
    assert forall|g: int, p: int| 0 <= g < n && #[trigger] in_run(
        first,
        g,
        p,
    ) implies parent.tags@[slots[p] as int].key_idx == keys[g] by {
        lemma_laid_item(parent, groups, order, keys, first, slots, g, p);
    }
    assert forall|g: int, p: int, q: int|
        0 <= g < n && #[trigger] in_run(first, g, p) && #[trigger] in_run(first, g, q) && p
            <= q implies value_le(parent, slots[p], slots[q]) by {
        lemma_laid_item(parent, groups, order, keys, first, slots, g, p);
        lemma_laid_item(parent, groups, order, keys, first, slots, g, q);
    }
    assert forall|p: int, q: int|
        0 <= p < slots.len() && 0 <= q < slots.len() && p != q implies slots[p] != slots[q] by {
        if p < q {
            lemma_laid_distinct(parent, groups, order, keys, first, slots, p, q);
        } else {
            lemma_laid_distinct(parent, groups, order, keys, first, slots, q, p);
        }
    }
    assert forall|p: int| 0 <= p < slots.len() implies (#[trigger] slots[p]) < parent.tags.len() by {
        let g = lemma_run_of(first, n, slots.len() as int, p);
        lemma_laid_item(parent, groups, order, keys, first, slots, g, p);
    }
    assert forall|t: u64| t < parent.tags.len() implies #[trigger] slots.contains(t) by {
        assert(grouped(groups, t));
        lemma_laid_slot(groups, order, keys, first, slots, t);
    }
}

/// Sort every group's slots by value string.
fn sort_groups(parent: &Osm, groups: Vec<KeyGroup>) -> (out: Vec<KeyGroup>)
    requires
        parent.wf(),
        is_grouping(parent, groups@, parent.tags.len() as int),
    ensures
        is_grouping(parent, out@, parent.tags.len() as int),
        groups_sorted(parent, out@),
{
    let mut out: Vec<KeyGroup> = Vec::new();
    let mut i: usize = 0;
    while i < groups.len()
        invariant
            parent.wf(),
            i <= groups@.len(),
            out@.len() == i,
            is_grouping(parent, groups@, parent.tags.len() as int),
            forall|g: int|
                0 <= g < i ==> (#[trigger] out@[g]).key_idx == groups@[g].key_idx && same_items(
                    out@[g].slots@,
                    groups@[g].slots@,
                ),
            groups_sorted(parent, out@),
        decreases groups@.len() - i,
    {
        let mut slots: Vec<u64> = Vec::new();
        let mut k: usize = 0;
        while k < groups[i].slots.len()
            invariant
                i < groups@.len(),
                k <= groups@[i as int].slots@.len(),
                slots@ == groups@[i as int].slots@.take(k as int),
            decreases groups@[i as int].slots@.len() - k,
        {
            slots.push(groups[i].slots[k]);
            proof {
                assert(slots@ =~= groups@[i as int].slots@.take(k + 1));
            }
            k = k + 1;
        }
        proof {
            assert(slots@ =~= groups@[i as int].slots@);
            assert(group_ok(parent, groups@[i as int]));
        }
        let ghost before = out@;
        let sorted = sort_by_value(parent, slots);
        out.push(KeyGroup { key_idx: groups[i].key_idx, slots: sorted });
        proof {
            assert forall|g: int, a: int, b: int|
                0 <= g < out@.len() && 0 <= a <= b < out@[g].slots@.len() implies value_le(
                parent,
                #[trigger] out@[g].slots@[a],
                #[trigger] out@[g].slots@[b],
            ) by {
                if g < i {
                    assert(out@[g] == before[g]);
                    assert(value_le(parent, before[g].slots@[a], before[g].slots@[b]));
                }
            }
        }
        i = i + 1;
    }
    proof {
        assert forall|g: int| 0 <= g < out@.len() implies group_ok(parent, #[trigger] out@[g]) by {
            assert(group_ok(parent, groups@[g]));
            lemma_same_items(groups@[g].slots@, out@[g].slots@);
            assert forall|k: int| 0 <= k < out@[g].slots@.len() implies (
            #[trigger] out@[g].slots@[k]) < parent.tags.len()
                && parent.tags@[out@[g].slots@[k] as int].key_idx == out@[g].key_idx by {
                assert(out@[g].slots@.contains(out@[g].slots@[k]));
                assert(groups@[g].slots@.contains(out@[g].slots@[k]));
            }
        }
        assert forall|t: u64| t < parent.tags.len() implies #[trigger] grouped(out@, t) by {
            assert(grouped(groups@, t));
            let g = choose|g: int|
                0 <= g < groups@.len() && #[trigger] groups@[g].slots@.contains(t);
            lemma_same_items(groups@[g].slots@, out@[g].slots@);
            assert(out@[g].slots@.contains(t));
        }
    }
    out
}

/// Sort slots by value string.
fn sort_by_value(parent: &Osm, slots: Vec<u64>) -> (out: Vec<u64>)
    requires
        parent.wf(),
        forall|i: int| 0 <= i < slots@.len() ==> (#[trigger] slots@[i]) < parent.tags.len(),
    ensures
        same_items(out@, slots@),
        forall|i: int, j: int|
            0 <= i <= j < out@.len() ==> value_le(parent, #[trigger] out@[i], #[trigger] out@[j]),
{
    let leq = |a: u64, b: u64| -> (r: bool)
        requires
            parent.wf(),
            a < parent.tags.len(),
            b < parent.tags.len(),
        ensures
            r == value_le(parent, a, b),
        {
            tie_leq(
                parent.string(parent.tags[a as usize].value_idx),
                a,
                parent.string(parent.tags[b as usize].value_idx),
                b,
            )
        };
    let ghost model = |a: u64, b: u64| value_le(parent, a, b);
    proof {
        lemma_tie_le();
    }
    let out = merge_sort(slots, &leq, Ghost(model));
    proof {
        assert forall|i: int, j: int| 0 <= i <= j < out@.len() implies value_le(
            parent,
            #[trigger] out@[i],
            #[trigger] out@[j],
        ) by {
            assert(model(out@[i], out@[j]));
        }
    }
    out
}

/// The positions of the groups, by key string.
fn order_of_groups(parent: &Osm, groups: &Vec<KeyGroup>) -> (out: Vec<usize>)
    requires
        parent.wf(),
        is_grouping(parent, groups@, parent.tags.len() as int),
    ensures
        forall|i: int| 0 <= i < out@.len() ==> (#[trigger] out@[i]) < groups@.len(),
        forall|g: usize| g < groups@.len() ==> #[trigger] out@.contains(g),
        out@.no_duplicates(),
        forall|i: int, j: int|
            0 <= i <= j < out@.len() ==> key_le(
                parent,
                groups@[(#[trigger] out@[i]) as int].key_idx,
                groups@[(#[trigger] out@[j]) as int].key_idx,
            ),
{
    let mut positions: Vec<usize> = Vec::new();
    let mut i: usize = 0;
    while i < groups.len()
        invariant
            i <= groups@.len(),
            positions@.len() == i,
            forall|k: int| 0 <= k < i ==> positions@[k] == k,
        decreases groups@.len() - i,
    {
        positions.push(i);
        i = i + 1;
    }
    proof {
        assert forall|g: int| 0 <= g < groups@.len() implies (#[trigger] groups@[g]).key_idx
            <= parent.stringtable.len() by {
            assert(group_ok(parent, groups@[g]));
            let t = groups@[g].slots@[0];
            assert(parent.tags@[t as int].key_idx == groups@[g].key_idx);
        }
    }
    let leq = |a: usize, b: usize| -> (r: bool)
        requires
            a < groups@.len(),
            b < groups@.len(),
            groups@[a as int].key_idx <= parent.stringtable.len(),
            groups@[b as int].key_idx <= parent.stringtable.len(),
        ensures
            r == key_le(parent, groups@[a as int].key_idx, groups@[b as int].key_idx),
        {
            let (x, y): (u64, u64) = (groups[a].key_idx, groups[b].key_idx);
            tie_leq(parent.string(x), x, parent.string(y), y)
        };
    let ghost model = |a: usize, b: usize|
        key_le(parent, groups@[a as int].key_idx, groups@[b as int].key_idx);
    let ghost start = positions@;
    proof {
        lemma_tie_le();
    }
    let out = merge_sort(positions, &leq, Ghost(model));
    proof {
        lemma_same_items(start, out@);
        assert forall|p: usize| p < groups@.len() implies #[trigger] out@.contains(p) by {
            assert(start[p as int] == p);
            assert(start.contains(p));
        }
        assert forall|i: int| 0 <= i < out@.len() implies (#[trigger] out@[i]) < groups@.len() by {
            assert(out@.contains(out@[i]));
            assert(start.contains(out@[i]));
        }
        assert forall|i: int, j: int| 0 <= i <= j < out@.len() implies key_le(
            parent,
            groups@[(#[trigger] out@[i]) as int].key_idx,
            groups@[(#[trigger] out@[j]) as int].key_idx,
        ) by {
            assert(model(out@[i], out@[j]));
        }
    }
    out
}

} // verus!
