//! Ordered runs: sorting, deduplication and the facts about ascending
//! sequences that every index in this crate rests on.

use vstd::prelude::*;

verus! {

/// Every two elements are comparable under `leq`.
pub open spec fn total<T>(leq: spec_fn(T, T) -> bool) -> bool {
    forall|a: T, b: T| #[trigger] leq(a, b) || leq(b, a)
}

/// `leq` chains.
pub open spec fn chains<T>(leq: spec_fn(T, T) -> bool) -> bool {
    forall|a: T, b: T, c: T| #[trigger] leq(a, b) && #[trigger] leq(b, c) ==> leq(a, c)
}

/// Elements that are below each other are the same element.
pub open spec fn separates<T>(leq: spec_fn(T, T) -> bool) -> bool {
    forall|a: T, b: T| #[trigger] leq(a, b) && leq(b, a) ==> a == b
}

/// A total preorder: what a sort needs.
pub open spec fn preorder<T>(leq: spec_fn(T, T) -> bool) -> bool {
    total(leq) && chains(leq)
}

/// `s` never steps down under `leq`.
pub open spec fn in_order<T>(s: Seq<T>, leq: spec_fn(T, T) -> bool) -> bool {
    forall|i: int, j: int| 0 <= i <= j < s.len() ==> #[trigger] leq(s[i], s[j])
}

/// `b` holds the items of `a`, each as often, in some order.
pub open spec fn same_items<T>(a: Seq<T>, b: Seq<T>) -> bool {
    a.to_multiset() == b.to_multiset()
}

/// The same items means the same membership and the same length.
pub proof fn lemma_same_items<T>(a: Seq<T>, b: Seq<T>)
    requires
        same_items(a, b),
    ensures
        a.len() == b.len(),
        forall|x: T|
            #![trigger a.contains(x)]
            #![trigger b.contains(x)]
            a.contains(x) <==> b.contains(x),
        a.no_duplicates() ==> b.no_duplicates(),
{
    broadcast use vstd::seq_lib::group_to_multiset_ensures;

    assert(a.len() == a.to_multiset().len());
    assert(b.len() == b.to_multiset().len());
    assert forall|x: T|
        #![trigger a.contains(x)]
        #![trigger b.contains(x)]
        a.contains(x) <==> b.contains(x) by {
        assert(a.contains(x) <==> a.to_multiset().count(x) > 0);
        assert(b.contains(x) <==> b.to_multiset().count(x) > 0);
    }
    if a.no_duplicates() {
        a.lemma_multiset_has_no_duplicates();
        assert forall|x: T| b.to_multiset().contains(x) implies b.to_multiset().count(x) == 1 by {
            assert(a.to_multiset().contains(x));
        }
        b.lemma_multiset_has_no_duplicates_conv();
    }
}

proof fn lemma_halves_items<T>(v: Seq<T>, mid: int, a: Seq<T>, b: Seq<T>)
    requires
        0 <= mid <= v.len(),
        same_items(a, v.subrange(0, mid)),
        same_items(b, v.subrange(mid, v.len() as int)),
    ensures
        (a + b).to_multiset() == v.to_multiset(),
{
    broadcast use vstd::seq_lib::group_to_multiset_ensures;

    assert(v =~= v.subrange(0, mid) + v.subrange(mid, v.len() as int));
    vstd::seq_lib::lemma_multiset_commutative(
        v.subrange(0, mid),
        v.subrange(mid, v.len() as int),
    );
    vstd::seq_lib::lemma_multiset_commutative(a, b);
}

/// Merge two ordered vectors into one.
fn merge<T: Copy, F: Fn(T, T) -> bool>(
    a: &Vec<T>,
    b: &Vec<T>,
    leq: &F,
    Ghost(model): Ghost<spec_fn(T, T) -> bool>,
) -> (out: Vec<T>)
    requires
        preorder(model),
        in_order(a@, model),
        in_order(b@, model),
        forall|x: T, y: T|
            a@.contains(x) && b@.contains(y) ==> #[trigger] call_requires(*leq, (x, y)),
        forall|x: T, y: T, r: bool| #[trigger] call_ensures(*leq, (x, y), r) ==> r == model(x, y),
        a@.len() + b@.len() <= usize::MAX,
    ensures
        in_order(out@, model),
        same_items(out@, a@ + b@),
{
    broadcast use {vstd::seq_lib::group_to_multiset_ensures, vstd::multiset::group_multiset_axioms};

    let mut out: Vec<T> = Vec::with_capacity(a.len() + b.len());
    let mut i: usize = 0;
    let mut j: usize = 0;
    proof {
        assert(a@.subrange(0, 0) + b@.subrange(0, 0) =~= Seq::<T>::empty());
    }
    while i < a.len() || j < b.len()
        invariant
            i <= a@.len(),
            j <= b@.len(),
            preorder(model),
            in_order(a@, model),
            in_order(b@, model),
            forall|x: T, y: T|
                a@.contains(x) && b@.contains(y) ==> #[trigger] call_requires(*leq, (x, y)),
            forall|x: T, y: T, r: bool|
                #[trigger] call_ensures(*leq, (x, y), r) ==> r == model(x, y),
            in_order(out@, model),
            forall|k: int, m: int|
                0 <= k < out@.len() && i <= m < a@.len() ==> #[trigger] model(out@[k], a@[m]),
            forall|k: int, m: int|
                0 <= k < out@.len() && j <= m < b@.len() ==> #[trigger] model(out@[k], b@[m]),
            out@.to_multiset() == (a@.subrange(0, i as int) + b@.subrange(
                0,
                j as int,
            )).to_multiset(),
        decreases a@.len() - i + b@.len() - j,
    {
        let ghost before = out@;
        let take_a = if i < a.len() {
            if j < b.len() {
                proof {
                    assert(a@.contains(a@[i as int]));
                    assert(b@.contains(b@[j as int]));
                }
                leq(a[i], b[j])
            } else {
                true
            }
        } else {
            false
        };
        if take_a {
            let x = a[i];
            out.push(x);
            proof {
                assert(model(a@[i as int], a@[i as int]));
                let (pa, pb) = (a@.subrange(0, i as int), b@.subrange(0, j as int));
                assert(a@.subrange(0, i + 1) =~= pa.push(x));
                vstd::seq_lib::lemma_multiset_commutative(pa, pb);
                vstd::seq_lib::lemma_multiset_commutative(pa.push(x), pb);
                vstd::seq_lib::to_multiset_build(before, x);
                vstd::seq_lib::to_multiset_build(pa, x);
                assert(out@ =~= before.push(x));
                assert(out@.to_multiset() =~= (pa.push(x) + pb).to_multiset());
                assert forall|m: int| j <= m < b@.len() implies #[trigger] model(x, b@[m]) by {
                    assert(model(b@[j as int], b@[m]));
                }
                assert forall|m: int| i < m < a@.len() implies #[trigger] model(x, a@[m]) by {
                }
            }
            i = i + 1;
        } else {
            let x = b[j];
            out.push(x);
            proof {
                assert(model(b@[j as int], b@[j as int]));
                let (pa, pb) = (a@.subrange(0, i as int), b@.subrange(0, j as int));
                assert(b@.subrange(0, j + 1) =~= pb.push(x));
                vstd::seq_lib::lemma_multiset_commutative(pa, pb);
                vstd::seq_lib::lemma_multiset_commutative(pa, pb.push(x));
                vstd::seq_lib::to_multiset_build(before, x);
                vstd::seq_lib::to_multiset_build(pb, x);
                assert(out@ =~= before.push(x));
                assert(out@.to_multiset() =~= (pa + pb.push(x)).to_multiset());
                assert forall|m: int| i <= m < a@.len() implies #[trigger] model(x, a@[m]) by {
                    assert(model(x, a@[i as int]));
                    assert(model(a@[i as int], a@[m]));
                }
            }
            j = j + 1;
        }
    }
    proof {
        assert(a@.subrange(0, i as int) =~= a@);
        assert(b@.subrange(0, j as int) =~= b@);
    }
    out
}

/// Stable-cost merge sort: `v`'s items, in order under `leq`.
pub(crate) fn merge_sort<T: Copy, F: Fn(T, T) -> bool>(
    v: Vec<T>,
    leq: &F,
    Ghost(model): Ghost<spec_fn(T, T) -> bool>,
) -> (out: Vec<T>)
    requires
        preorder(model),
        forall|x: T, y: T|
            v@.contains(x) && v@.contains(y) ==> #[trigger] call_requires(*leq, (x, y)),
        forall|x: T, y: T, r: bool| #[trigger] call_ensures(*leq, (x, y), r) ==> r == model(x, y),
    ensures
        in_order(out@, model),
        same_items(out@, v@),
    decreases v@.len(),
{
    if v.len() <= 1 {
        proof {
            assert forall|i: int, j: int| 0 <= i <= j < v@.len() implies #[trigger] model(
                v@[i],
                v@[j],
            ) by {
                assert(model(v@[0], v@[0]));
            }
        }
        return v;
    }
    let mid: usize = v.len() / 2;
    let ghost whole = v@;
    let mut low = v;
    let high = low.split_off(mid);
    let ghost low0 = low@;
    proof {
        assert forall|x: T| low@.contains(x) implies whole.contains(x) by {
            let k = choose|k: int| 0 <= k < low@.len() && low@[k] == x;
            assert(whole[k] == x);
        }
        assert forall|x: T| high@.contains(x) implies whole.contains(x) by {
            let k = choose|k: int| 0 <= k < high@.len() && high@[k] == x;
            assert(whole[k + mid] == x);
        }
    }
    let a = merge_sort(low, leq, Ghost(model));
    let b = merge_sort(high, leq, Ghost(model));
    proof {
        lemma_same_items(a@, low0);
        lemma_same_items(b@, high@);
        lemma_halves_items(whole, mid as int, a@, b@);
    }
    merge(&a, &b, leq, Ghost(model))
}

/// Weakly ascending: a postings run.
pub open spec fn ascending(s: Seq<u64>) -> bool {
    forall|i: int, j: int| 0 <= i <= j < s.len() ==> s[i] <= s[j]
}

/// Strictly ascending: a run in which nothing occurs twice.
pub open spec fn strictly_ascending(s: Seq<u64>) -> bool {
    forall|i: int, j: int| 0 <= i < j < s.len() ==> s[i] < s[j]
}

/// How often `x` occurs in `s`.
pub open spec fn count<T>(s: Seq<T>, x: T) -> nat {
    s.to_multiset().count(x)
}

/// The order of integers, as a relation.
pub open spec fn up() -> spec_fn(u64, u64) -> bool {
    |a: u64, b: u64| a <= b
}

/// What counting says of membership, appending and joining.
pub proof fn lemma_count<T>(s: Seq<T>, x: T)
    ensures
        count(s, x) > 0 <==> s.contains(x),
        count(Seq::<T>::empty(), x) == 0,
        forall|y: T| #[trigger]
            count(s.push(y), x) == count(s, x) + if x == y {
                1nat
            } else {
                0
            },
{
    broadcast use {vstd::seq_lib::group_to_multiset_ensures, vstd::multiset::group_multiset_axioms};

    assert(Seq::<T>::empty().to_multiset().count(x) > 0 <==> Seq::<T>::empty().contains(x));
    assert forall|y: T| #[trigger]
        count(s.push(y), x) == count(s, x) + if x == y {
            1nat
        } else {
            0
        } by {
        vstd::seq_lib::to_multiset_build(s, y);
    }
}

/// Counting over a sequence and its tail.
pub proof fn lemma_count_tail<T>(s: Seq<T>, i: int, x: T)
    requires
        0 <= i < s.len(),
    ensures
        count(s.skip(i), x) == count(s.skip(i + 1), x) + if s[i] == x {
            1nat
        } else {
            0
        },
{
    broadcast use {vstd::seq_lib::group_to_multiset_ensures, vstd::multiset::group_multiset_axioms};

    assert(s.skip(i) =~= seq![s[i]] + s.skip(i + 1));
    vstd::seq_lib::lemma_multiset_commutative(seq![s[i]], s.skip(i + 1));
    lemma_count(Seq::<T>::empty(), x);
    assert(seq![s[i]] =~= Seq::<T>::empty().push(s[i]));
    assert(count(seq![s[i]], x) == if s[i] == x {
        1nat
    } else {
        0
    });
}

/// Counting over a concatenation.
pub proof fn lemma_count_add<T>(a: Seq<T>, b: Seq<T>, x: T)
    ensures
        count(a + b, x) == count(a, x) + count(b, x),
{
    broadcast use vstd::multiset::group_multiset_axioms;

    vstd::seq_lib::lemma_multiset_commutative(a, b);
}

/// A strictly ascending run holds each of its items once.
pub proof fn lemma_strict_count(s: Seq<u64>, x: u64)
    requires
        strictly_ascending(s),
    ensures
        count(s, x) == if s.contains(x) {
            1nat
        } else {
            0
        },
{
    broadcast use vstd::seq_lib::group_to_multiset_ensures;

    assert(s.no_duplicates());
    s.lemma_multiset_has_no_duplicates();
    lemma_count(s, x);
    if s.contains(x) {
        assert(s.to_multiset().contains(x));
    }
}

/// Ascending runs with the same counts are the same run.
pub proof fn lemma_ascending_unique(a: Seq<u64>, b: Seq<u64>)
    requires
        ascending(a),
        ascending(b),
        forall|x: u64| #[trigger] count(a, x) == count(b, x),
    ensures
        a == b,
{
    broadcast use vstd::multiset::group_multiset_axioms;

    assert(a.to_multiset() =~= b.to_multiset()) by {
        assert forall|x: u64| #[trigger] a.to_multiset().count(x) == b.to_multiset().count(x) by {
            assert(count(a, x) == count(b, x));
        }
    }
    assert forall|i: int, j: int| 0 <= i < j < a.len() implies #[trigger] up()(a[i], a[j]) by {
    }
    assert forall|i: int, j: int| 0 <= i < j < b.len() implies #[trigger] up()(b[i], b[j]) by {
    }
    vstd::seq_lib::lemma_sorted_unique(a, b, up());
}

/// Strictly ascending runs with the same members are the same run.
pub proof fn lemma_strict_unique(a: Seq<u64>, b: Seq<u64>)
    requires
        strictly_ascending(a),
        strictly_ascending(b),
        forall|x: u64| #[trigger] a.contains(x) <==> b.contains(x),
    ensures
        a == b,
{
    assert forall|x: u64| #[trigger] count(a, x) == count(b, x) by {
        lemma_strict_count(a, x);
        lemma_strict_count(b, x);
    }
    lemma_ascending_unique(a, b);
}

/// Ascending indices: `v`'s items in ascending order, each once.
pub fn sorted_indices(v: Vec<u64>) -> (out: Vec<u64>)
    ensures
        strictly_ascending(out@),
        forall|x: u64| #[trigger] out@.contains(x) <==> v@.contains(x),
{
    let ghost whole = v@;
    let sorted = sort_ascending(v);
    proof {
        lemma_same_items(sorted@, whole);
    }
    let mut out: Vec<u64> = Vec::new();
    let mut i: usize = 0;
    while i < sorted.len()
        invariant
            i <= sorted@.len(),
            ascending(sorted@),
            strictly_ascending(out@),
            forall|x: u64| #[trigger] out@.contains(x) <==> sorted@.subrange(0, i as int).contains(x),
            out@.len() > 0 <==> i > 0,
            i > 0 ==> out@.last() == sorted@[i - 1],
        decreases sorted@.len() - i,
    {
        let v: u64 = sorted[i];
        let ghost before = out@;
        let ghost seen = sorted@.subrange(0, i as int);
        if out.len() == 0 || out[out.len() - 1] != v {
            out.push(v);
            proof {
                assert forall|k: int| 0 <= k < before.len() implies before[k] < v by {
                    assert(before.contains(before[k]));
                    assert(seen.contains(before[k]));
                }
            }
        }
        proof {
            assert(sorted@.subrange(0, i + 1) =~= seen.push(v));
            assert forall|x: u64| #[trigger] out@.contains(x) <==> seen.push(v).contains(x) by {
                vstd::seq_lib::lemma_seq_contains_after_push(seen, v, x);
                vstd::seq_lib::lemma_seq_contains_after_push(before, v, x);
                if x == v {
                    assert(out@[out@.len() - 1] == v);
                    assert(seen.push(v)[seen.len() as int] == v);
                }
            }
        }
        i = i + 1;
    }
    proof {
        assert(sorted@.subrange(0, i as int) =~= sorted@);
    }
    out
}

/// `v`'s items in ascending order.
pub fn sort_ascending(v: Vec<u64>) -> (out: Vec<u64>)
    ensures
        ascending(out@),
        same_items(out@, v@),
{
    let leq = |a: u64, b: u64| -> (r: bool)
        ensures
            r == (a <= b),
        { a <= b };
    let ghost model = up();
    let out = merge_sort(v, &leq, Ghost(model));
    proof {
        assert forall|i: int, j: int| 0 <= i <= j < out@.len() implies out@[i] <= out@[j] by {
            assert(model(out@[i], out@[j]));
        }
    }
    out
}

/// How many items of the ascending `s` lie below `bound`: a partition point.
pub open spec fn splits_at(s: Seq<u64>, bound: u64, at: int) -> bool {
    &&& 0 <= at <= s.len()
    &&& forall|k: int| 0 <= k < at ==> s[k] < bound
    &&& forall|k: int| at <= k < s.len() ==> s[k] >= bound
}

/// The partition point of `bound` in `s`, by binary search.
pub fn lower_bound(s: &[u64], bound: u64) -> (at: usize)
    requires
        ascending(s@),
    ensures
        splits_at(s@, bound, at as int),
{
    let mut lo: usize = 0;
    let mut hi: usize = s.len();
    while lo < hi
        invariant
            lo <= hi <= s@.len(),
            ascending(s@),
            forall|k: int| 0 <= k < lo ==> s@[k] < bound,
            forall|k: int| hi <= k < s@.len() ==> s@[k] >= bound,
        decreases hi - lo,
    {
        let mid: usize = lo + (hi - lo) / 2;
        if s[mid] < bound {
            lo = mid + 1;
        } else {
            hi = mid;
        }
    }
    lo
}

/// `first` cuts `items` items into `groups` consecutive runs: run `g` is
/// `first[g]..first[g + 1]`.
pub open spec fn cuts(first: Seq<u64>, groups: int, items: int) -> bool {
    &&& 0 <= groups
    &&& first.len() == groups + 1
    &&& first[0] == 0
    &&& first[groups] == items
    &&& forall|i: int, j: int| 0 <= i <= j <= groups ==> first[i] <= first[j]
}

/// Item `p` is in run `g`.
pub open spec fn in_run(first: Seq<u64>, g: int, p: int) -> bool {
    first[g] <= p < first[g + 1]
}

/// Every item is in exactly one run.
pub proof fn lemma_run_of(first: Seq<u64>, groups: int, items: int, p: int) -> (g: int)
    requires
        cuts(first, groups, items),
        0 <= p < items,
    ensures
        0 <= g < groups,
        in_run(first, g, p),
        forall|h: int| 0 <= h < groups && #[trigger] in_run(first, h, p) ==> h == g,
{
    let g = lemma_run_upto(first, groups, items, p, groups);
    assert forall|h: int| 0 <= h < groups && #[trigger] in_run(first, h, p) implies h == g by {
        if h < g {
            assert(first[h + 1] <= first[g]);
        } else if g < h {
            assert(first[g + 1] <= first[h]);
        }
    }
    g
}

proof fn lemma_run_upto(first: Seq<u64>, groups: int, items: int, p: int, n: int) -> (g: int)
    requires
        cuts(first, groups, items),
        0 <= n <= groups,
        0 <= p < first[n],
    ensures
        0 <= g < n,
        in_run(first, g, p),
    decreases n,
{
    if p < first[n - 1] {
        lemma_run_upto(first, groups, items, p, n - 1)
    } else {
        n - 1
    }
}

/// Two ordered sequences with the same items, none of them twice, are equal.
pub proof fn lemma_ordered_unique<T>(a: Seq<T>, b: Seq<T>, leq: spec_fn(T, T) -> bool)
    requires
        preorder(leq),
        separates(leq),
        in_order(a, leq),
        in_order(b, leq),
        a.no_duplicates(),
        b.no_duplicates(),
        forall|x: T| #[trigger] a.contains(x) <==> b.contains(x),
    ensures
        a == b,
{
    broadcast use vstd::multiset::group_multiset_axioms;

    a.lemma_multiset_has_no_duplicates();
    b.lemma_multiset_has_no_duplicates();
    assert forall|x: T| #[trigger] a.to_multiset().count(x) == b.to_multiset().count(x) by {
        lemma_count(a, x);
        lemma_count(b, x);
        if a.contains(x) {
            assert(a.to_multiset().contains(x));
            assert(b.to_multiset().contains(x));
        }
    }
    assert(a.to_multiset() =~= b.to_multiset());
    assert forall|x: T| #[trigger] leq(x, x) by {
    }
    vstd::seq_lib::lemma_sorted_unique(a, b, leq);
}

/// Item `i` comes no later than item `j`: greater key first, then by position.
pub open spec fn rank_le(keys: Seq<u64>, i: usize, j: usize) -> bool {
    keys[i as int] > keys[j as int] || (keys[i as int] == keys[j as int] && i <= j)
}

/// `order` lists the positions of `keys`, each once, by descending key; equal
/// keys keep their order.
pub open spec fn is_ranking(keys: Seq<u64>, order: Seq<usize>) -> bool {
    &&& order.len() == keys.len()
    &&& order.no_duplicates()
    &&& forall|k: int| 0 <= k < order.len() ==> (#[trigger] order[k]) < keys.len()
    &&& forall|i: usize| i < keys.len() ==> #[trigger] order.contains(i)
    &&& forall|a: int, b: int|
        0 <= a <= b < order.len() ==> rank_le(keys, #[trigger] order[a], #[trigger] order[b])
}

/// The positions of `keys` by descending key.
pub fn rank_descending(keys: &Vec<u64>) -> (out: Vec<usize>)
    ensures
        is_ranking(keys@, out@),
{
    let mut positions: Vec<usize> = Vec::new();
    let mut i: usize = 0;
    while i < keys.len()
        invariant
            i <= keys@.len(),
            positions@.len() == i,
            forall|k: int| 0 <= k < i ==> positions@[k] == k,
        decreases keys@.len() - i,
    {
        positions.push(i);
        i = i + 1;
    }
    let leq = |a: usize, b: usize| -> (r: bool)
        requires
            a < keys@.len(),
            b < keys@.len(),
        ensures
            r == rank_le(keys@, a, b),
        { keys[a] > keys[b] || (keys[a] == keys[b] && a <= b) };
    let ghost model = |a: usize, b: usize| rank_le(keys@, a, b);
    let ghost start = positions@;
    let out = merge_sort(positions, &leq, Ghost(model));
    proof {
        lemma_same_items(start, out@);
        assert forall|k: int| 0 <= k < out@.len() implies (#[trigger] out@[k]) < keys@.len() by {
            assert(out@.contains(out@[k]));
        }
        assert forall|p: usize| p < keys@.len() implies #[trigger] out@.contains(p) by {
            assert(start[p as int] == p);
            assert(start.contains(p));
        }
        assert forall|a: int, b: int| 0 <= a <= b < out@.len() implies rank_le(
            keys@,
            #[trigger] out@[a],
            #[trigger] out@[b],
        ) by {
            assert(model(out@[a], out@[b]));
        }
    }
    out
}

/// The ranking of `keys`.
pub open spec fn ranking(keys: Seq<u64>) -> Seq<usize> {
    choose|order: Seq<usize>| is_ranking(keys, order)
}

/// There is a ranking.
pub proof fn lemma_ranking_exists(keys: Seq<u64>)
    requires
        keys.len() <= usize::MAX,
    ensures
        is_ranking(keys, ranking(keys)),
{
    let leq = |i: usize, j: usize| rank_le(keys, i, j);
    let start = Seq::new(keys.len(), |i: int| i as usize);
    start.lemma_sort_by_ensures(leq);
    let order = start.sort_by(leq);
    lemma_same_items(start, order);
    assert(start.no_duplicates());
    assert forall|k: int| 0 <= k < order.len() implies (#[trigger] order[k]) < keys.len() by {
        assert(order.contains(order[k]));
        let m = choose|m: int| 0 <= m < start.len() && start[m] == order[k];
        assert(start[m] == m as usize);
    }
    assert forall|p: usize| p < keys.len() implies #[trigger] order.contains(p) by {
        assert(start[p as int] == p);
        assert(start.contains(p));
    }
    assert forall|a: int, b: int| 0 <= a <= b < order.len() implies rank_le(
        keys,
        #[trigger] order[a],
        #[trigger] order[b],
    ) by {
        if a < b {
            assert(leq(order[a], order[b]));
        }
    }
    assert(is_ranking(keys, order));
}

/// There is one ranking.
pub proof fn lemma_ranking_unique(keys: Seq<u64>, a: Seq<usize>, b: Seq<usize>)
    requires
        is_ranking(keys, a),
        is_ranking(keys, b),
    ensures
        a == b,
{
    let leq = |i: usize, j: usize| rank_le(keys, i, j);
    assert forall|x: usize| #[trigger] a.contains(x) <==> b.contains(x) by {
        if a.contains(x) {
            let k = choose|k: int| 0 <= k < a.len() && a[k] == x;
            assert(a[k] < keys.len());
        }
        if b.contains(x) {
            let k = choose|k: int| 0 <= k < b.len() && b[k] == x;
            assert(b[k] < keys.len());
        }
    }
    assert(in_order(a, leq));
    assert(in_order(b, leq));
    lemma_ordered_unique(a, b, leq);
}

} // verus!
