//! Scratch storage for index builds: buckets of `(u64, u64)` records.
//!
//! A reverse map is built by sorting its `(child, parent)` pairs. Every pair is
//! appended to one of several buckets, each covering a contiguous range of
//! child indices; each bucket is then sorted on its own, and the buckets in
//! order give every pair in order. Only one bucket is ever sorted at a time.

use crate::order::{count, lemma_count, lemma_count_add, merge_sort, same_items};
use vstd::bytes::{
    lemma_auto_spec_u64_to_from_le_bytes, spec_u64_to_le_bytes, u64_from_le_bytes, u64_to_le_bytes,
};
use vstd::prelude::*;

verus! {

/// Pairs, by first then by second component.
pub open spec fn pair_le(a: (u64, u64), b: (u64, u64)) -> bool {
    a.0 < b.0 || (a.0 == b.0 && a.1 <= b.1)
}

/// `s` is in order.
pub open spec fn pairs_sorted(s: Seq<(u64, u64)>) -> bool {
    forall|i: int, j: int|
        0 <= i <= j < s.len() ==> pair_le(#[trigger] s[i], #[trigger] s[j])
}

/// Sort records.
pub fn sort_pairs(v: Vec<(u64, u64)>) -> (out: Vec<(u64, u64)>)
    ensures
        pairs_sorted(out@),
        same_items(out@, v@),
{
    let leq = |a: (u64, u64), b: (u64, u64)| -> (r: bool)
        ensures
            r == pair_le(a, b),
        { a.0 < b.0 || (a.0 == b.0 && a.1 <= b.1) };
    let ghost model = |a: (u64, u64), b: (u64, u64)| pair_le(a, b);
    let out = merge_sort(v, &leq, Ghost(model));
    proof {
        assert forall|i: int, j: int| 0 <= i <= j < out@.len() implies pair_le(
            #[trigger] out@[i],
            #[trigger] out@[j],
        ) by {
            assert(model(out@[i], out@[j]));
        }
    }
    out
}

/// Pairs per bucket to aim for: a bucket is sorted in memory, so this bounds
/// the sort's working set.
pub const TARGET_PAIRS_PER_BUCKET: usize = 16777216;

/// The bucket of `child` among `buckets` buckets over `n_children` children.
pub open spec fn bucket_of(child: int, buckets: int, n_children: int) -> int {
    child * buckets / n_children
}

proof fn lemma_bucket_of(child: int, buckets: int, n: int)
    requires
        0 <= child < n,
        0 < buckets,
    ensures
        0 <= child * buckets,
        0 <= bucket_of(child, buckets, n) < buckets,
{
    let x = child * buckets;
    assert(0 <= x && x < buckets * n && x < n * buckets) by (nonlinear_arith)
        requires
            0 <= child < n,
            0 < buckets,
            x == child * buckets,
    ;
    vstd::arithmetic::div_mod::lemma_multiply_divide_lt(x, n, buckets);
    assert(0 <= x / n) by (nonlinear_arith)
        requires
            0 <= x,
            0 < n,
    ;
}

proof fn lemma_bucket_monotone(a: int, b: int, buckets: int, n: int)
    requires
        0 <= a <= b,
        0 < buckets,
        0 < n,
    ensures
        bucket_of(a, buckets, n) <= bucket_of(b, buckets, n),
{
    assert(a * buckets <= b * buckets) by (nonlinear_arith)
        requires
            a <= b,
            0 < buckets,
    ;
    vstd::arithmetic::div_mod::lemma_div_is_ordered(a * buckets, b * buckets, n);
}

/// One map's `(child, parent)` pairs, bucketed by contiguous child index range
/// so that concatenating the sorted buckets in order yields every pair in order.
pub struct PairBuckets {
    buckets: Vec<Vec<(u64, u64)>>,
    n_children: u64,
    pushed: Ghost<Seq<(u64, u64)>>,
}

impl PairBuckets {
    /// Each bucket holds the pairs of its children.
    pub closed spec fn wf(&self) -> bool {
        &&& self.buckets.len() > 0
        &&& forall|k: int| 0 <= k < self.pushed@.len() ==> (#[trigger] self.pushed@[k]).0
            < self.n_children
        &&& forall|b: int, x: (u64, u64)|
            0 <= b < self.buckets.len() ==> #[trigger] count(self.buckets@[b]@, x) == if x.0
                < self.n_children && bucket_of(
                x.0 as int,
                self.buckets.len() as int,
                self.n_children as int,
            ) == b {
                count(self.pushed@, x)
            } else {
                0
            }
    }

    /// The pairs, in the order in which they came.
    pub closed spec fn pairs(&self) -> Seq<(u64, u64)> {
        self.pushed@
    }

    /// How many children there are.
    pub closed spec fn children(&self) -> u64 {
        self.n_children
    }

    /// Buckets for up to `max_pairs` pairs over children `0..n_children`.
    pub fn new(n_children: usize, max_pairs: usize) -> (out: Self)
        ensures
            out.wf(),
            out.children() == n_children,
            out.pairs() == Seq::<(u64, u64)>::empty(),
    {
        let full: usize = max_pairs / TARGET_PAIRS_PER_BUCKET;
        let wanted: usize = if max_pairs % TARGET_PAIRS_PER_BUCKET == 0 {
            full
        } else {
            full + 1
        };
        let most: usize = if n_children > 1 {
            n_children
        } else {
            1
        };
        let n_buckets: usize = if wanted < 1 {
            1
        } else if wanted > most {
            most
        } else {
            wanted
        };
        Self::with_buckets(n_children, n_buckets)
    }

    /// A given number of buckets over children `0..n_children`.
    pub fn with_buckets(n_children: usize, n_buckets: usize) -> (out: Self)
        requires
            n_buckets > 0,
        ensures
            out.wf(),
            out.children() == n_children,
            out.pairs() == Seq::<(u64, u64)>::empty(),
    {
        let mut buckets: Vec<Vec<(u64, u64)>> = Vec::new();
        let mut i: usize = 0;
        while i < n_buckets
            invariant
                i <= n_buckets,
                buckets@.len() == i,
                forall|b: int| 0 <= b < i ==> (#[trigger] buckets@[b])@.len() == 0,
            decreases n_buckets - i,
        {
            buckets.push(Vec::new());
            i = i + 1;
        }
        let out = PairBuckets {
            buckets,
            n_children: n_children as u64,
            pushed: Ghost(Seq::empty()),
        };
        proof {
            assert forall|b: int, x: (u64, u64)| 0 <= b < buckets.len() implies #[trigger] count(
                out.buckets@[b]@,
                x,
            ) == 0 && count(out.pushed@, x) == 0 by {
                lemma_count(out.buckets@[b]@, x);
                lemma_count(out.pushed@, x);
            }
        }
        out
    }

    /// Append a pair.
    pub fn push(&mut self, child: u64, parent: u64)
        requires
            old(self).wf(),
            child < old(self).children(),
        ensures
            final(self).wf(),
            final(self).children() == old(self).children(),
            final(self).pairs() == old(self).pairs().push((child, parent)),
    {
        let n_buckets: usize = self.buckets.len();
        proof {
            lemma_bucket_of(child as int, n_buckets as int, self.n_children as int);
            assert(child * n_buckets <= u64::MAX * u64::MAX) by (nonlinear_arith)
                requires
                    0 <= child <= u64::MAX,
                    0 <= n_buckets <= u64::MAX,
            ;
        }
        let bucket: usize = (child as u128 * n_buckets as u128 / self.n_children as u128) as usize;
        let ghost before = *self;
        let x = (child, parent);
        self.buckets[bucket].push(x);
        self.pushed = Ghost(self.pushed@.push(x));
        proof {
            assert(self.buckets@[bucket as int]@ == before.buckets@[bucket as int]@.push(x));
            assert forall|b: int, y: (u64, u64)|
                0 <= b < self.buckets.len() implies #[trigger] count(self.buckets@[b]@, y) == if y.0
                < self.n_children && bucket_of(
                y.0 as int,
                self.buckets.len() as int,
                self.n_children as int,
            ) == b {
                count(self.pushed@, y)
            } else {
                0
            } by {
                lemma_count(before.buckets@[b]@, y);
                lemma_count(before.pushed@, y);
                assert(count(before.buckets@[b]@, y) >= 0);
                if b != bucket {
                    assert(self.buckets@[b] == before.buckets@[b]);
                }
            }
        }
    }

    /// All pairs, sorted: the sorted buckets, one after the other.
    pub fn into_sorted(self) -> (out: Vec<(u64, u64)>)
        requires
            self.wf(),
        ensures
            pairs_sorted(out@),
            same_items(out@, self.pairs()),
    {
        let ghost this = self;
        let mut rest = self.buckets;
        let ghost buckets = rest@;
        let ghost n = this.n_children as int;
        let ghost total = buckets.len() as int;
        let mut out: Vec<(u64, u64)> = Vec::new();
        let mut b: usize = 0;
        proof {
            assert forall|x: (u64, u64)| #[trigger] count(out@, x) == 0 by {
                lemma_count(out@, x);
            }
        }
        while b < rest.len()
            invariant
                this.wf(),
                buckets == this.buckets@,
                n == this.n_children,
                total == buckets.len() as int,
                rest@.len() == total,
                b <= total,
                forall|k: int| b <= k < total ==> rest@[k] == buckets[k],
                pairs_sorted(out@),
                forall|k: int|
                    0 <= k < out@.len() ==> (#[trigger] out@[k]).0 < n && bucket_of(
                        out@[k].0 as int,
                        total,
                        n,
                    ) < b,
                forall|x: (u64, u64)| #[trigger]
                    count(out@, x) == if x.0 < n && bucket_of(x.0 as int, total, n) < b {
                        count(this.pushed@, x)
                    } else {
                        0
                    },
            decreases total - b,
        {
            let ghost before = out@;
            let mut bucket: Vec<(u64, u64)> = Vec::new();
            let slot = &mut rest[b];
            bucket.append(slot);
            assert(bucket@ =~= buckets[b as int]@);
            let mut sorted = sort_pairs(bucket);
            let ghost run = sorted@;
            out.append(&mut sorted);
            proof {
                assert(out@ == before + run);
                assert forall|k: int| 0 <= k < run.len() implies (#[trigger] run[k]).0 < n
                    && bucket_of(run[k].0 as int, total, n) == b by {
                    lemma_count(run, run[k]);
                    assert(run.contains(run[k]));
                    assert(count(run, run[k]) == count(buckets[b as int]@, run[k]));
                }
                assert forall|i: int, j: int| 0 <= i <= j < out@.len() implies pair_le(
                    #[trigger] out@[i],
                    #[trigger] out@[j],
                ) by {
                    if i < before.len() && j >= before.len() {
                        let (x, y) = (before[i], run[j - before.len()]);
                        assert(out@[i] == x);
                        assert(out@[j] == y);
                        if y.0 <= x.0 {
                            lemma_bucket_monotone(y.0 as int, x.0 as int, total, n);
                        }
                    } else if i >= before.len() {
                        assert(out@[i] == run[i - before.len()]);
                        assert(out@[j] == run[j - before.len()]);
                    } else {
                        assert(out@[i] == before[i]);
                        assert(out@[j] == before[j]);
                    }
                }
                assert forall|k: int| 0 <= k < out@.len() implies (#[trigger] out@[k]).0 < n
                    && bucket_of(out@[k].0 as int, total, n) < b + 1 by {
                    if k < before.len() {
                        assert(out@[k] == before[k]);
                    } else {
                        assert(out@[k] == run[k - before.len()]);
                    }
                }
                assert forall|x: (u64, u64)| #[trigger]
                    count(out@, x) == if x.0 < n && bucket_of(x.0 as int, total, n) < b + 1 {
                        count(this.pushed@, x)
                    } else {
                        0
                    } by {
                    lemma_count_add(before, run, x);
                    assert(count(run, x) == count(buckets[b as int]@, x));
                    assert(count(before, x) >= 0);
                }
            }
            b = b + 1;
        }
        proof {
            assert forall|x: (u64, u64)| #[trigger]
                out@.to_multiset().count(x) == this.pushed@.to_multiset().count(x) by {
                assert(count(out@, x) >= 0);
                lemma_count(this.pushed@, x);
                if this.pushed@.contains(x) {
                    let k = choose|k: int| 0 <= k < this.pushed@.len() && this.pushed@[k] == x;
                    lemma_bucket_of(x.0 as int, total, n);
                }
            }
            assert(out@.to_multiset() =~= this.pushed@.to_multiset());
        }
        out
    }
}

/// A record in a scratch file: its two numbers, least byte first.
pub open spec fn record_bytes(record: (u64, u64)) -> Seq<u8> {
    spec_u64_to_le_bytes(record.0) + spec_u64_to_le_bytes(record.1)
}

/// The records of a scratch file, one behind the other.
pub open spec fn records_bytes(records: Seq<(u64, u64)>) -> Seq<u8>
    decreases records.len(),
{
    if records.len() == 0 {
        Seq::empty()
    } else {
        records_bytes(records.drop_last()) + record_bytes(records.last())
    }
}

/// Append records to what a scratch file holds.
pub fn encode_records(records: &[(u64, u64)], out: &mut Vec<u8>)
    ensures
        final(out)@ == old(out)@ + records_bytes(records@),
{
    let ghost before = out@;
    let mut i: usize = 0;
    proof {
        assert(before + records_bytes(records@.take(0)) =~= before);
    }
    while i < records.len()
        invariant
            i <= records@.len(),
            out@ == before + records_bytes(records@.take(i as int)),
        decreases records@.len() - i,
    {
        let (a, b): (u64, u64) = records[i];
        let mut a_bytes = u64_to_le_bytes(a);
        let mut b_bytes = u64_to_le_bytes(b);
        out.append(&mut a_bytes);
        out.append(&mut b_bytes);
        proof {
            assert(records@.take(i + 1).drop_last() =~= records@.take(i as int));
            assert(out@ =~= before + records_bytes(records@.take(i + 1)));
        }
        i = i + 1;
    }
    proof {
        assert(records@.take(i as int) =~= records@);
    }
}

/// Each record takes 16 bytes.
pub proof fn lemma_records_len(records: Seq<(u64, u64)>)
    ensures
        records_bytes(records).len() == 16 * records.len(),
    decreases records.len(),
{
    lemma_auto_spec_u64_to_from_le_bytes();
    if records.len() > 0 {
        lemma_records_len(records.drop_last());
    }
}

/// Read the records of a scratch file back, in the order in which they were
/// written. `None` where the bytes do not end with a whole record.
pub fn decode_records(bytes: &[u8]) -> (out: Option<Vec<(u64, u64)>>)
    ensures
        out is None <==> bytes@.len() % 16 != 0,
        out matches Some(records) ==> records_bytes(records@) == bytes@,
{
    if bytes.len() % 16 != 0 {
        return None;
    }
    let mut records: Vec<(u64, u64)> = Vec::new();
    let mut at: usize = 0;
    while at < bytes.len()
        invariant
            at <= bytes@.len(),
            at % 16 == 0,
            bytes@.len() % 16 == 0,
            records_bytes(records@) == bytes@.take(at as int),
        decreases bytes@.len() - at,
    {
        let ghost before = records@;
        let a: u64 = u64_from_le_bytes(vstd::slice::slice_subrange(bytes, at, at + 8));
        let b: u64 = u64_from_le_bytes(vstd::slice::slice_subrange(bytes, at + 8, at + 16));
        records.push((a, b));
        proof {
            lemma_auto_spec_u64_to_from_le_bytes();
            let (x, y) = (
                bytes@.subrange(at as int, at + 8),
                bytes@.subrange(at + 8, at + 16),
            );
            assert(spec_u64_to_le_bytes(a) == x);
            assert(spec_u64_to_le_bytes(b) == y);
            assert(records@.drop_last() =~= before);
            assert(records_bytes(records@) =~= bytes@.take(at + 16));
        }
        at = at + 16;
    }
    proof {
        assert(bytes@.take(at as int) =~= bytes@);
    }
    Some(records)
}

/// What was written is what is read back: two lists of records with the same
/// bytes are the same list.
pub proof fn records_are_read_back(a: Seq<(u64, u64)>, b: Seq<(u64, u64)>)
    requires
        records_bytes(a) == records_bytes(b),
    ensures
        a == b,
    decreases a.len(),
{
    lemma_auto_spec_u64_to_from_le_bytes();
    lemma_records_len(a);
    lemma_records_len(b);
    if a.len() > 0 {
        let n = 16 * (a.len() - 1);
        lemma_records_len(a.drop_last());
        lemma_records_len(b.drop_last());
        let (bytes_a, bytes_b) = (records_bytes(a), records_bytes(b));
        assert(bytes_a.take(n) =~= records_bytes(a.drop_last()));
        assert(bytes_b.take(n) =~= records_bytes(b.drop_last()));
        records_are_read_back(a.drop_last(), b.drop_last());
        assert(bytes_a.subrange(n, n + 8) =~= spec_u64_to_le_bytes(a.last().0));
        assert(bytes_b.subrange(n, n + 8) =~= spec_u64_to_le_bytes(b.last().0));
        assert(bytes_a.subrange(n + 8, n + 16) =~= spec_u64_to_le_bytes(a.last().1));
        assert(bytes_b.subrange(n + 8, n + 16) =~= spec_u64_to_le_bytes(b.last().1));
        assert(a =~= a.drop_last().push(a.last()));
        assert(b =~= b.drop_last().push(b.last()));
    } else {
        assert(a =~= b);
    }
}

} // verus!
