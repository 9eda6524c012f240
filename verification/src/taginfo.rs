//! Inverted tag index and taginfo histogram queries.
//!
//! Navigation goes **key → values → objects**. `keys` is sorted by key string;
//! within a key, `values` is sorted by value string; each value carries the
//! three per-type postings ranges. Per-value counts are not stored: they are the
//! lengths of the postings ranges.
//!
//! All postings are ascending parent indices, so they compose with bounding box
//! queries and with each other through [`crate::query`].

use crate::build_search::{
    carries_under, is_key_union, merge_key, postings_ascend, postings_slice,
    ranked, strings_in_range, value_has_gram,
};
use crate::ext::{
    combo_first, gram_first, post_first, run, tag_combo_first, value_first, ComboEntry,
    TagComboEntry, Taginfo, ValueSearch,
};
use crate::order::{
    ascending, count, cuts, lemma_count, lemma_run_of, lemma_strict_count, lower_bound,
    sorted_indices, splits_at, strictly_ascending,
};
use crate::osm::Osm;
use crate::query::{
    clipped, disjoint_ascending, in_ranges, intersect_bbox, least_count, lemma_filter_ascending,
    lemma_filter_same, ranges_in_bbox, Bbox, EntityType, Selection,
};
use crate::strings::{
    compare, lemma_lex_chain, lemma_lex_lt_chain, lemma_lex_total, lemma_prefix_le,
    lemma_prefix_run, lex_le, lex_lt, same_bytes, starts_with, string_at, Compared,
};
use crate::Ref;
use std::ops::Range;
use vstd::prelude::*;

verus! {

/// Object counts split by entity type.
#[derive(Debug, Clone, Copy, PartialEq, Eq, Structural)]
pub struct TypeCounts {
    pub nodes: u64,
    pub ways: u64,
    pub relations: u64,
}

impl Default for TypeCounts {
    fn default() -> (out: Self)
        ensures
            out == (TypeCounts { nodes: 0, ways: 0, relations: 0 }),
    {
        TypeCounts { nodes: 0, ways: 0, relations: 0 }
    }
}

/// An ASCII letter in lower case; any other byte as it is.
pub open spec fn lower(b: u8) -> u8 {
    if 65 <= b <= 90 {
        (b + 32) as u8
    } else {
        b
    }
}

fn to_lower(b: u8) -> (out: u8)
    ensures
        out == lower(b),
{
    if 65 <= b && b <= 90 {
        b + 32
    } else {
        b
    }
}

/// The trigram at position `i` of `s`: three bytes in lower case, the first one
/// most significant.
pub open spec fn gram_at(s: Seq<u8>, i: int) -> int {
    lower(s[i]) * 65536 + lower(s[i + 1]) * 256 + lower(s[i + 2])
}

/// `s` has the trigram `gram`.
pub open spec fn has_gram(s: Seq<u8>, gram: int) -> bool {
    exists|i: int| 0 <= i && i + 3 <= s.len() && #[trigger] gram_at(s, i) == gram
}

/// The distinct trigrams of `value`: every 3-byte window, ASCII-lowercased,
/// encoded `b0 << 16 | b1 << 8 | b2`, sorted and deduplicated into `out`.
///
/// The index is built with this function and searched with it, so both agree.
pub fn value_trigrams(value: &[u8], out: &mut Vec<u32>)
    ensures
        forall|i: int, j: int| 0 <= i < j < final(out)@.len() ==> final(out)@[i] < final(out)@[j],
        forall|g: u32| #[trigger] final(out)@.contains(g) <==> has_gram(value@, g as int),
{
    let mut grams: Vec<u64> = Vec::new();
    let mut i: usize = 0;
    while i < value.len() && value.len() - i >= 3
        invariant
            i <= value@.len(),
            grams@.len() == i,
            i > 0 ==> i + 2 <= value@.len(),
            forall|k: int|
                0 <= k < i ==> #[trigger] grams@[k] == gram_at(value@, k) && grams@[k] < 16777216,
        decreases value@.len() - i,
    {
        let (a, b, c): (u64, u64, u64) = (
            to_lower(value[i]) as u64,
            to_lower(value[i + 1]) as u64,
            to_lower(value[i + 2]) as u64,
        );
        grams.push(a * 65536 + b * 256 + c);
        i = i + 1;
    }
    let ghost listed = grams@;
    let sorted = sorted_indices(grams);
    out.clear();
    let mut k: usize = 0;
    proof {
        assert forall|m: int| 0 <= m < sorted@.len() implies (#[trigger] sorted@[m]) < 16777216 by {
            assert(sorted@.contains(sorted@[m]));
            let q = choose|q: int| 0 <= q < listed.len() && listed[q] == sorted@[m];
            assert(listed[q] < 16777216);
        }
    }
    while k < sorted.len()
        invariant
            k <= sorted@.len(),
            strictly_ascending(sorted@),
            forall|m: int| 0 <= m < sorted@.len() ==> (#[trigger] sorted@[m]) < 16777216,
            out@.len() == k,
            forall|m: int| 0 <= m < k ==> #[trigger] out@[m] == sorted@[m],
        decreases sorted@.len() - k,
    {
        out.push(sorted[k] as u32);
        k = k + 1;
    }
    proof {
        assert forall|g: u32| #[trigger] out@.contains(g) <==> has_gram(value@, g as int) by {
            if out@.contains(g) {
                let m = choose|m: int| 0 <= m < out@.len() && out@[m] == g;
                assert(sorted@.contains(sorted@[m]));
                let q = choose|q: int| 0 <= q < listed.len() && listed[q] == sorted@[m];
                assert(gram_at(value@, q) == g);
            }
            if has_gram(value@, g as int) {
                let q = choose|q: int|
                    0 <= q && q + 3 <= value@.len() && #[trigger] gram_at(value@, q) == g as int;
                assert(listed[q] == g as u64);
                assert(listed.contains(g as u64));
                assert(sorted@.contains(g as u64));
                let m = choose|m: int| 0 <= m < sorted@.len() && sorted@[m] == g as u64;
                assert(out@[m] == g);
            }
        }
    }
}

/// `needle` stands at position `i` of `haystack`, but for the case of ASCII
/// letters.
pub open spec fn matches_at(haystack: Seq<u8>, needle: Seq<u8>, i: int) -> bool {
    &&& 0 <= i
    &&& i + needle.len() <= haystack.len()
    &&& forall|j: int|
        0 <= j < needle.len() ==> lower(haystack[i + j]) == lower(#[trigger] needle[j])
}

/// `haystack` contains `needle`, but for the case of ASCII letters.
pub open spec fn contains_folded(haystack: Seq<u8>, needle: Seq<u8>) -> bool {
    exists|i: int| #[trigger] matches_at(haystack, needle, i)
}

/// Whether `haystack` contains `needle`, comparing ASCII letters
/// case-insensitively.
pub fn contains_ignore_ascii_case(haystack: &[u8], needle: &[u8]) -> (out: bool)
    ensures
        out == contains_folded(haystack@, needle@),
{
    if needle.len() > haystack.len() {
        return false;
    }
    let last: usize = haystack.len() - needle.len();
    let mut i: usize = 0;
    loop
        invariant
            i <= last,
            last == haystack.len() - needle.len(),
            forall|k: int| 0 <= k < i ==> !#[trigger] matches_at(haystack@, needle@, k),
        decreases last - i,
    {
        let mut j: usize = 0;
        while j < needle.len() && to_lower(haystack[i + j]) == to_lower(needle[j])
            invariant
                i <= last,
                last == haystack.len() - needle.len(),
                j <= needle@.len(),
                forall|k: int|
                    0 <= k < j ==> lower(haystack@[i + k]) == lower(#[trigger] needle@[k]),
            decreases needle@.len() - j,
        {
            j = j + 1;
        }
        if j == needle.len() {
            proof {
                assert(matches_at(haystack@, needle@, i as int));
            }
            return true;
        }
        proof {
            assert(!matches_at(haystack@, needle@, i as int)) by {
                assert(lower(haystack@[i + j]) != lower(needle@[j as int]));
            }
        }
        if i == last {
            return false;
        }
        i = i + 1;
    }
}

/// What contains a string has each of its trigrams.
pub proof fn containing_has_the_grams(haystack: Seq<u8>, needle: Seq<u8>, gram: int)
    requires
        contains_folded(haystack, needle),
        has_gram(needle, gram),
    ensures
        has_gram(haystack, gram),
{
    let i = choose|i: int| #[trigger] matches_at(haystack, needle, i);
    let k = choose|k: int| 0 <= k && k + 3 <= needle.len() && #[trigger] gram_at(needle, k) == gram;
    assert(lower(haystack[i + k]) == lower(needle[k]));
    assert(lower(haystack[i + (k + 1)]) == lower(needle[k + 1]));
    assert(lower(haystack[i + (k + 2)]) == lower(needle[k + 2]));
    assert(gram_at(haystack, i + k) == gram);
}

impl Taginfo {
    /// What the queries rest on: the index fits together, its strings are in the
    /// table of `parent`, keys and values are in order, postings ascend, and
    /// whatever was precomputed is what it stands for.
    pub open spec fn wf(&self, parent: &Osm) -> bool {
        &&& self.shaped()
        &&& strings_in_range(self, parent)
        &&& postings_ascend(self)
        &&& forall|k: int, h: int|
            0 <= k <= h < self.n_keys() ==> lex_le(
                #[trigger] self.key_string(parent, k),
                #[trigger] self.key_string(parent, h),
            )
        &&& forall|k: int, v: int, w: int|
            0 <= k < self.n_keys() && #[trigger] self.under(k, v) && #[trigger] self.under(k, w) && v
                <= w ==> lex_le(self.value_string(parent, v), self.value_string(parent, w))
        &&& forall|entity: EntityType, k: int|
            0 <= k < self.n_keys() ==> #[trigger] self.keys@[k].count_of(entity) == post_first(
                self.values@,
                entity,
            )[self.keys@[k + 1].value_first_idx as int] - post_first(
                self.values@,
                entity,
            )[self.keys@[k].value_first_idx as int]
        &&& cuts(combo_first(self.keys@), self.n_keys(), self.combos.len() as int)
        &&& cuts(tag_combo_first(self.values@), self.n_values(), self.tag_combos.len() as int)
        &&& self.ranks_values()
        &&& self.key_postings matches Some(kp) ==> kp.stores(self)
        &&& self.value_search matches Some(vs) ==> vs.searches(self, parent)
    }
}

/// Entry point for taginfo and inverted-index queries.
#[derive(Clone, Copy)]
pub struct TaginfoQuery<'a> {
    pub parent: &'a Osm,
    pub taginfo: &'a Taginfo,
}

/// A distinct key with its aggregate stats and value list.
#[derive(Clone, Copy)]
pub struct KeyView<'a> {
    pub q: TaginfoQuery<'a>,
    pub idx: usize,
}

/// A `(key, value)` with its per-type postings.
#[derive(Clone, Copy)]
pub struct ValueView<'a> {
    pub q: TaginfoQuery<'a>,
    pub idx: usize,
}

/// A co-occurring key for a [`KeyView`].
#[derive(Clone, Copy)]
pub struct CombinationView<'a> {
    pub q: TaginfoQuery<'a>,
    pub idx: usize,
}

/// A co-occurring tag for a [`ValueView`].
#[derive(Clone, Copy)]
pub struct TagCombinationView<'a> {
    pub q: TaginfoQuery<'a>,
    pub idx: usize,
}

/// The views are those of the values `from..to`, in order.
pub open spec fn views_values(
    views: Seq<ValueView<'_>>,
    q: TaginfoQuery<'_>,
    from: int,
    to: int,
) -> bool {
    &&& views.len() == to - from
    &&& forall|i: int| 0 <= i < views.len() ==> (#[trigger] views[i]).q == q && views[i].idx == from + i
}

/// The views are those of the values in `from..to` that satisfy `p`, in order.
pub open spec fn views_matching(
    views: Seq<ValueView<'_>>,
    q: TaginfoQuery<'_>,
    from: int,
    to: int,
    p: spec_fn(int) -> bool,
) -> bool {
    &&& forall|i: int|
        0 <= i < views.len() ==> (#[trigger] views[i]).q == q && from <= views[i].idx < to && p(
            views[i].idx as int,
        )
    &&& forall|i: int, j: int|
        0 <= i < j < views.len() ==> (#[trigger] views[i]).idx < (#[trigger] views[j]).idx
    &&& forall|v: int| from <= v < to && #[trigger] p(v) ==> has_view(views, v)
}

/// One of the views is that of value `v`.
pub open spec fn has_view(views: Seq<ValueView<'_>>, v: int) -> bool {
    exists|i: int| 0 <= i < views.len() && (#[trigger] views[i]).idx == v
}

impl<'a> TaginfoQuery<'a> {
    /// The query goes to an index that it can rest on.
    pub open spec fn wf(self) -> bool {
        self.parent.wf() && self.taginfo.wf(self.parent)
    }

    /// The string of key `k`.
    pub open spec fn key_string(self, k: int) -> Seq<u8> {
        self.taginfo.key_string(self.parent, k)
    }

    /// The string of value `v`.
    pub open spec fn value_string(self, v: int) -> Seq<u8> {
        self.taginfo.value_string(self.parent, v)
    }

    /// Value `v` contains `pattern`.
    pub open spec fn value_matches(self, pattern: Seq<u8>) -> spec_fn(int) -> bool {
        |v: int| contains_folded(self.value_string(v), pattern)
    }

    /// Wrap a parent archive and its `Taginfo` index.
    pub fn new(parent: &'a Osm, taginfo: &'a Taginfo) -> (out: Self)
        ensures
            out.parent == parent,
            out.taginfo == taginfo,
    {
        TaginfoQuery { parent, taginfo }
    }

    /// How many keys come before `key` in string order: the partition point.
    fn keys_below(&self, key: &[u8]) -> (at: usize)
        requires
            self.wf(),
        ensures
            at <= self.taginfo.n_keys(),
            forall|k: int| 0 <= k < at ==> lex_lt(#[trigger] self.key_string(k), key@),
            forall|k: int|
                at <= k < self.taginfo.n_keys() ==> lex_le(key@, #[trigger] self.key_string(k)),
    {
        let mut lo: usize = 0;
        let mut hi: usize = self.taginfo.keys.len() - 1;
        while lo < hi
            invariant
                self.wf(),
                lo <= hi <= self.taginfo.n_keys(),
                forall|k: int| 0 <= k < lo ==> lex_lt(#[trigger] self.key_string(k), key@),
                forall|k: int|
                    hi <= k < self.taginfo.n_keys() ==> lex_le(
                        key@,
                        #[trigger] self.key_string(k),
                    ),
            decreases hi - lo,
        {
            let mid: usize = lo + (hi - lo) / 2;
            let s = self.parent.string(self.taginfo.keys[mid].key_idx);
            proof {
                assert(s@ == self.key_string(mid as int));
                lemma_lex_total(s@, key@);
                lemma_lex_total(key@, s@);
            }
            let below = match compare(s, key) {
                Compared::Less => true,
                _ => false,
            };
            if below {
                proof {
                    assert forall|k: int| 0 <= k < mid + 1 implies lex_lt(
                        #[trigger] self.key_string(k),
                        key@,
                    ) by {
                        assert(lex_le(
                            self.taginfo.key_string(self.parent, k),
                            self.taginfo.key_string(self.parent, mid as int),
                        ));
                        lemma_lex_lt_chain(self.key_string(k), s@, key@);
                    }
                }
                lo = mid + 1;
            } else {
                proof {
                    assert forall|k: int| mid <= k < self.taginfo.n_keys() implies lex_le(
                        key@,
                        #[trigger] self.key_string(k),
                    ) by {
                        assert(lex_le(
                            self.taginfo.key_string(self.parent, mid as int),
                            self.taginfo.key_string(self.parent, k),
                        ));
                        lemma_lex_chain(key@, s@, self.key_string(k));
                    }
                }
                hi = mid;
            }
        }
        lo
    }

    /// Locate a key by exact string via binary search over `keys`.
    pub fn key(&self, key: &[u8]) -> (out: Option<KeyView<'a>>)
        requires
            self.wf(),
        ensures
            match out {
                Some(view) => view.q == *self && view.wf() && self.names_key(key@, view.idx as int),
                None => forall|k: int|
                    0 <= k < self.taginfo.n_keys() ==> #[trigger] self.key_string(k) != key@,
            },
    {
        let at: usize = self.keys_below(key);
        if at < self.taginfo.keys.len() - 1 && same_bytes(
            self.parent.string(self.taginfo.keys[at].key_idx),
            key,
        ) {
            return Some(KeyView { q: *self, idx: at });
        }
        proof {
            assert forall|k: int| 0 <= k < self.taginfo.n_keys() implies #[trigger] self.key_string(
                k,
            ) != key@ by {
                if k >= at {
                    assert(lex_le(
                        self.taginfo.key_string(self.parent, at as int),
                        self.taginfo.key_string(self.parent, k),
                    ));
                    assert(lex_le(key@, self.key_string(at as int)));
                    lemma_lex_total(self.key_string(at as int), key@);
                }
            }
        }
        None
    }

    /// Keys sharing a string prefix, in sorted order.
    ///
    /// Binary-search the lower bound, then scan while the prefix holds.
    pub fn keys_with_prefix(&self, prefix: &[u8]) -> (out: Vec<KeyView<'a>>)
        requires
            self.wf(),
        ensures
            forall|i: int|
                0 <= i < out@.len() ==> (#[trigger] out@[i]).q == *self && out@[i].wf(),
            forall|i: int, j: int|
                0 <= i < j < out@.len() ==> (#[trigger] out@[i]).idx < (#[trigger] out@[j]).idx,
            forall|k: int|
                0 <= k < self.taginfo.n_keys() ==> (prefix@.is_prefix_of(
                    #[trigger] self.key_string(k),
                ) <==> exists|i: int| 0 <= i < out@.len() && (#[trigger] out@[i]).idx == k),
    {
        let n: usize = self.taginfo.keys.len() - 1;
        let lo: usize = self.keys_below(prefix);
        let mut out: Vec<KeyView<'a>> = Vec::new();
        let mut idx: usize = lo;
        while idx < n && starts_with(self.parent.string(self.taginfo.keys[idx].key_idx), prefix)
            invariant
                self.wf(),
                n == self.taginfo.n_keys(),
                lo <= idx <= n,
                out@.len() == idx - lo,
                forall|i: int|
                    0 <= i < out@.len() ==> (#[trigger] out@[i]).q == *self && out@[i].idx == lo + i,
                forall|k: int| lo <= k < idx ==> prefix@.is_prefix_of(#[trigger] self.key_string(k)),
            decreases n - idx,
        {
            out.push(KeyView { q: *self, idx });
            idx = idx + 1;
        }
        proof {
            assert forall|k: int| 0 <= k < n implies (prefix@.is_prefix_of(
                #[trigger] self.key_string(k),
            ) <==> exists|i: int| 0 <= i < out@.len() && (#[trigger] out@[i]).idx == k) by {
                if k < lo {
                    if prefix@.is_prefix_of(self.key_string(k)) {
                        lemma_prefix_le(prefix@, self.key_string(k));
                        lemma_lex_total(self.key_string(k), prefix@);
                    }
                } else if k < idx {
                    assert(out@[k - lo].idx == k);
                } else {
                    let s = self.key_string(idx as int);
                    assert(lex_le(prefix@, s));
                    assert(lex_le(
                        self.taginfo.key_string(self.parent, idx as int),
                        self.taginfo.key_string(self.parent, k),
                    ));
                    lemma_prefix_run(prefix@, s, self.key_string(k));
                }
            }
        }
        out
    }

    /// All distinct keys, in sorted order.
    pub fn keys(&self) -> (out: Vec<KeyView<'a>>)
        requires
            self.wf(),
        ensures
            out@.len() == self.taginfo.n_keys(),
            forall|i: int|
                0 <= i < out@.len() ==> (#[trigger] out@[i]).q == *self && out@[i].idx == i,
    {
        let n: usize = self.taginfo.keys.len() - 1;
        let mut out: Vec<KeyView<'a>> = Vec::new();
        let mut idx: usize = 0;
        while idx < n
            invariant
                n == self.taginfo.n_keys(),
                idx <= n,
                out@.len() == idx,
                forall|i: int|
                    0 <= i < out@.len() ==> (#[trigger] out@[i]).q == *self && out@[i].idx == i,
            decreases n - idx,
        {
            out.push(KeyView { q: *self, idx });
            idx = idx + 1;
        }
        out
    }

    /// Resolve a `(key, value)` directly to its postings view.
    pub fn kv(&self, key: &[u8], value: &[u8]) -> (out: Option<ValueView<'a>>)
        requires
            self.wf(),
        ensures
            match out {
                Some(view) => view.q == *self && view.wf() && self.names_tag(
                    key@,
                    value@,
                    view.idx as int,
                ),
                None => forall|v: int| !#[trigger] self.names_tag(key@, value@, v),
            },
    {
        match self.key(key) {
            Some(view) => {
                let out = view.value(value);
                proof {
                    assert forall|v: int| #[trigger] self.names_tag(key@, value@, v) implies exists|
                        k: int,
                    |
                        k == view.idx && #[trigger] self.names_key(key@, k) && self.names_value(
                            k,
                            value@,
                            v,
                        ) by {
                        let k = choose|k: int| #[trigger]
                            self.names_key(key@, k) && self.names_value(k, value@, v);
                        assert(self.key_string(k) == self.key_string(view.idx as int));
                    }
                }
                out
            },
            None => None,
        }
    }

    /// Key `k` is the first of the key string.
    pub open spec fn names_key(self, key: Seq<u8>, k: int) -> bool {
        &&& 0 <= k < self.taginfo.n_keys()
        &&& self.key_string(k) == key
        &&& forall|h: int| 0 <= h < k ==> #[trigger] self.key_string(h) != key
    }

    /// Value `v` of key `k` is the first of the value string.
    pub open spec fn names_value(self, k: int, value: Seq<u8>, v: int) -> bool {
        &&& self.taginfo.under(k, v)
        &&& self.value_string(v) == value
        &&& forall|w: int| #[trigger]
            self.taginfo.under(k, w) && w < v ==> self.value_string(w) != value
    }

    /// Value `v` is where the tag `key=value` is found.
    pub open spec fn names_tag(self, key: Seq<u8>, value: Seq<u8>, v: int) -> bool {
        exists|k: int| #[trigger] self.names_key(key, k) && self.names_value(k, value, v)
    }

    /// No value of key `k` is `value`.
    pub open spec fn lacks_value(self, k: int, value: Seq<u8>) -> bool {
        forall|v: int| #[trigger] self.taginfo.under(k, v) ==> self.value_string(v) != value
    }

    /// Whether the index stores precomputed `key=*` postings. The queries give
    /// the same result either way.
    pub fn has_key_postings(&self) -> (out: bool)
        ensures
            out == self.taginfo.key_postings is Some,
    {
        self.taginfo.key_postings.is_some()
    }

    /// Whether the index has the trigram substring index. The queries give the
    /// same result either way.
    pub fn has_value_search(&self) -> (out: bool)
        ensures
            out == self.taginfo.value_search is Some,
    {
        self.taginfo.value_search.is_some()
    }

    /// Values of any key whose string contains `pattern`, ASCII
    /// case-insensitively, in ascending value index.
    pub fn values_containing(&self, pattern: &[u8]) -> (out: Vec<ValueView<'a>>)
        requires
            self.wf(),
        ensures
            views_matching(
                out@,
                *self,
                0,
                self.taginfo.n_values(),
                self.value_matches(pattern@),
            ),
    {
        self.values_containing_in(0, self.taginfo.values.len() - 1, pattern)
    }

    /// [`Self::values_containing`] restricted to the values `from..to`.
    fn values_containing_in(&self, from: usize, to: usize, pattern: &[u8]) -> (out: Vec<
        ValueView<'a>,
    >)
        requires
            self.wf(),
            from <= to <= self.taginfo.n_values(),
        ensures
            views_matching(out@, *self, from as int, to as int, self.value_matches(pattern@)),
    {
        let ghost p = self.value_matches(pattern@);
        let mut out: Vec<ValueView<'a>> = Vec::new();
        match self.trigram_candidates(pattern) {
            Some(candidates) => {
                let lo: usize = lower_bound(candidates.as_slice(), from as u64);
                let hi: usize = lower_bound(candidates.as_slice(), to as u64);
                let mut c: usize = lo;
                proof {
                    if hi < lo {
                        assert(candidates@[hi as int] < from);
                        assert(candidates@[hi as int] >= to);
                    }
                }
                while c < hi
                    invariant
                        self.wf(),
                        p == self.value_matches(pattern@),
                        from <= to <= self.taginfo.n_values(),
                        lo <= c <= hi <= candidates@.len(),
                        strictly_ascending(candidates@),
                        splits_at(candidates@, from as u64, lo as int),
                        splits_at(candidates@, to as u64, hi as int),
                        forall|i: int|
                            0 <= i < out@.len() ==> (#[trigger] out@[i]).q == *self && from
                                <= out@[i].idx < to && p(out@[i].idx as int),
                        forall|i: int| 0 <= i < out@.len() && c < candidates@.len() ==> (
                        #[trigger] out@[i]).idx < candidates@[c as int],
                        forall|i: int, j: int|
                            0 <= i < j < out@.len() ==> (#[trigger] out@[i]).idx < (
                            #[trigger] out@[j]).idx,
                        forall|m: int|
                            lo <= m < c && p((#[trigger] candidates@[m]) as int) ==> has_view(
                                out@,
                                candidates@[m] as int,
                            ),
                    decreases hi - c,
                {
                    let v: u64 = candidates[c];
                    let ghost before = out@;
                    let text = self.parent.string(self.taginfo.values[v as usize].value_idx);
                    if contains_ignore_ascii_case(text, pattern) {
                        out.push(ValueView { q: *self, idx: v as usize });
                    }
                    proof {
                        assert forall|m: int|
                            lo <= m < c + 1 && p((#[trigger] candidates@[m]) as int) implies has_view(
                            out@,
                            candidates@[m] as int,
                        ) by {
                            if m < c {
                                assert(has_view(before, candidates@[m] as int));
                                let i = choose|i: int|
                                    0 <= i < before.len() && (#[trigger] before[i]).idx
                                        == candidates@[m];
                                assert(out@[i] == before[i]);
                            } else {
                                assert(out@[before.len() as int].idx == v);
                            }
                        }
                    }
                    c = c + 1;
                }
                proof {
                    assert forall|v: int| from <= v < to && #[trigger] p(v) implies has_view(
                        out@,
                        v,
                    ) by {
                        assert(candidates@.contains(v as u64));
                        let m = choose|m: int|
                            0 <= m < candidates@.len() && candidates@[m] == v as u64;
                        assert(candidates@[m] == v);
                        assert(p(candidates@[m] as int));
                    }
                }
            },
            None => {
                let mut v: usize = from;
                while v < to
                    invariant
                        self.wf(),
                        p == self.value_matches(pattern@),
                        from <= v <= to <= self.taginfo.n_values(),
                        forall|i: int|
                            0 <= i < out@.len() ==> (#[trigger] out@[i]).q == *self && from
                                <= out@[i].idx < v && p(out@[i].idx as int),
                        forall|i: int, j: int|
                            0 <= i < j < out@.len() ==> (#[trigger] out@[i]).idx < (
                            #[trigger] out@[j]).idx,
                        forall|m: int| from <= m < v && #[trigger] p(m) ==> has_view(out@, m),
                    decreases to - v,
                {
                    let ghost before = out@;
                    let text = self.parent.string(self.taginfo.values[v].value_idx);
                    if contains_ignore_ascii_case(text, pattern) {
                        out.push(ValueView { q: *self, idx: v });
                    }
                    proof {
                        assert forall|m: int| from <= m < v + 1 && #[trigger] p(m) implies has_view(
                            out@,
                            m,
                        ) by {
                            if m < v {
                                assert(has_view(before, m));
                                let i = choose|i: int|
                                    0 <= i < before.len() && (#[trigger] before[i]).idx == m;
                                assert(out@[i] == before[i]);
                            } else {
                                assert(out@[before.len() as int].idx == m);
                            }
                        }
                    }
                    v = v + 1;
                }
            },
        }
        out
    }

    /// Ascending value indices containing every trigram of `pattern`, or `None`
    /// when there is no index or the pattern is too short to use it.
    fn trigram_candidates(&self, pattern: &[u8]) -> (out: Option<Vec<u64>>)
        requires
            self.wf(),
        ensures
            out is None <==> pattern@.len() < 3 || self.taginfo.value_search is None,
            out matches Some(list) ==> strictly_ascending(list@) && forall|v: u64| #[trigger]
                list@.contains(v) <==> self.has_all_grams(pattern@, v as int),
            out matches Some(list) ==> forall|v: int|
                0 <= v < self.taginfo.n_values() && contains_folded(
                    #[trigger] self.value_string(v),
                    pattern@,
                ) ==> list@.contains(v as u64),
    {
        if pattern.len() < 3 {
            return None;
        }
        let search = match &self.taginfo.value_search {
            Some(search) => search,
            None => {
                return None;
            },
        };
        let mut grams: Vec<u32> = Vec::new();
        value_trigrams(pattern, &mut grams);
        proof {
            assert(has_gram(pattern@, gram_at(pattern@, 0)));
            crate::build_search::lemma_gram_range(pattern@, gram_at(pattern@, 0));
            assert(grams@.contains(gram_at(pattern@, 0) as u32));
        }
        let mut lists: Vec<&[Ref]> = Vec::new();
        let mut i: usize = 0;
        while i < grams.len()
            invariant
                self.wf(),
                self.taginfo.value_search == Some(*search),
                search.searches(self.taginfo, self.parent),
                i <= grams@.len(),
                pattern@.len() >= 3,
                forall|g: u32| #[trigger] grams@.contains(g) <==> has_gram(pattern@, g as int),
                lists@.len() == i,
                forall|k: int|
                    0 <= k < i ==> strictly_ascending((#[trigger] lists@[k])@) && forall|v: u64|
                     #[trigger] lists@[k]@.contains(v) <==> value_has_gram(
                        self.taginfo,
                        self.parent,
                        v as int,
                        grams@[k] as int,
                    ),
            decreases grams@.len() - i,
        {
            match find_gram(search, grams[i], Ghost(self.taginfo), Ghost(self.parent)) {
                Some(list) => {
                    lists.push(list);
                },
                None => {
                    let empty: Vec<u64> = Vec::new();
                    proof {
                        let gram = grams@[i as int] as int;
                        assert(grams@.contains(grams@[i as int]));
                        assert forall|v: u64| #[trigger]
                            empty@.contains(v) <==> self.has_all_grams(pattern@, v as int) by {
                            if self.has_all_grams(pattern@, v as int) {
                                assert(has_gram(self.value_string(v as int), gram));
                                assert(value_has_gram(self.taginfo, self.parent, v as int, gram));
                            }
                        }
                        assert forall|v: int|
                            0 <= v < self.taginfo.n_values() && contains_folded(
                                #[trigger] self.value_string(v),
                                pattern@,
                            ) implies empty@.contains(v as u64) by {
                            self.lemma_all_grams(pattern@, v);
                            assert(self.taginfo.values.len() <= usize::MAX);
                        }
                    }
                    return Some(empty);
                },
            }
            i = i + 1;
        }
        let mut selection = Selection::new();
        let mut k: usize = 0;
        while k < lists.len()
            invariant
                k <= lists@.len(),
                selection.wf(),
                selection.bbox_ranges is None,
                selection.terms@ == lists@.take(k as int),
                forall|m: int| 0 <= m < lists@.len() ==> strictly_ascending((#[trigger] lists@[m])@),
            decreases lists@.len() - k,
        {
            selection = selection.and(lists[k]);
            proof {
                assert(selection.terms@ =~= lists@.take(k + 1));
            }
            k = k + 1;
        }
        let ghost sel = selection;
        let out = selection.resolve();
        proof {
            assert(sel.terms@ =~= lists@);
            assert forall|v: u64| #[trigger] out@.contains(v) <==> self.has_all_grams(
                pattern@,
                v as int,
            ) by {
                self.lemma_candidate(pattern@, grams@, lists@, sel, out@, v);
            }
            assert forall|v: u64| #[trigger] out@.contains(v) implies count(out@, v) <= 1 by {
                self.lemma_candidate(pattern@, grams@, lists@, sel, out@, v);
            }
            lemma_counted_once(out@);
            assert forall|v: int|
                0 <= v < self.taginfo.n_values() && contains_folded(
                    #[trigger] self.value_string(v),
                    pattern@,
                ) implies out@.contains(v as u64) by {
                self.lemma_all_grams(pattern@, v);
                assert(self.taginfo.values.len() <= usize::MAX);
            }
        }
        Some(out)
    }

    /// Value `v` has every trigram of `pattern`.
    pub open spec fn has_all_grams(self, pattern: Seq<u8>, v: int) -> bool {
        &&& 0 <= v < self.taginfo.n_values()
        &&& forall|g: int| #[trigger]
            has_gram(pattern, g) ==> has_gram(self.value_string(v), g)
    }

    proof fn lemma_all_grams(self, pattern: Seq<u8>, v: int)
        requires
            0 <= v < self.taginfo.n_values(),
            contains_folded(self.value_string(v), pattern),
        ensures
            self.has_all_grams(pattern, v),
    {
        assert forall|g: int| #[trigger] has_gram(pattern, g) implies has_gram(
            self.value_string(v),
            g,
        ) by {
            containing_has_the_grams(self.value_string(v), pattern, g);
        }
    }

    proof fn lemma_candidate(
        self,
        pattern: Seq<u8>,
        grams: Seq<u32>,
        lists: Seq<&[Ref]>,
        selection: Selection<'_>,
        out: Seq<u64>,
        v: u64,
    )
        requires
            lists.len() == grams.len() > 0,
            selection.terms@ == lists,
            selection.bbox_ranges is None,
            selection.selects(out),
            forall|g: u32| #[trigger] grams.contains(g) <==> has_gram(pattern, g as int),
            forall|k: int|
                0 <= k < lists.len() ==> strictly_ascending((#[trigger] lists[k])@) && forall|v: u64|
                 #[trigger] lists[k]@.contains(v) <==> value_has_gram(
                    self.taginfo,
                    self.parent,
                    v as int,
                    grams[k] as int,
                ),
        ensures
            out.contains(v) <==> self.has_all_grams(pattern, v as int),
            count(out, v) <= 1,
    {
        lemma_count(out, v);
        assert(selection.admits(v));
        assert(least_count(lists, v, count(out, v)));
        assert(lists[0]@.contains(v) || !lists[0]@.contains(v));
        lemma_strict_count(lists[0]@, v);
        assert(count(out, v) <= count(lists[0]@, v));
        if out.contains(v) {
            assert forall|g: int| #[trigger] has_gram(pattern, g) implies has_gram(
                self.value_string(v as int),
                g,
            ) by {
                crate::build_search::lemma_gram_range(pattern, g);
                assert(grams.contains(g as u32));
                let k = choose|k: int| 0 <= k < grams.len() && grams[k] == g as u32;
                lemma_strict_count(lists[k]@, v);
                assert(count(out, v) <= count(lists[k]@, v));
                assert(lists[k]@.contains(v));
                assert(value_has_gram(self.taginfo, self.parent, v as int, grams[k] as int));
            }
            lemma_strict_count(lists[0]@, v);
            assert(lists[0]@.contains(v));
            assert(value_has_gram(self.taginfo, self.parent, v as int, grams[0] as int));
        }
        if self.has_all_grams(pattern, v as int) {
            let k = choose|k: int| 0 <= k < lists.len() && count(out, v) == count(
                (#[trigger] lists[k])@,
                v,
            );
            assert(grams.contains(grams[k]));
            assert(has_gram(pattern, grams[k] as int));
            assert(value_has_gram(self.taginfo, self.parent, v as int, grams[k] as int));
            assert(lists[k]@.contains(v));
            lemma_strict_count(lists[k]@, v);
        }
    }
}

/// An ascending run in which nothing is counted twice is strictly ascending.
proof fn lemma_counted_once(s: Seq<u64>)
    requires
        ascending(s),
        forall|v: u64| #[trigger] s.contains(v) ==> count(s, v) <= 1,
    ensures
        strictly_ascending(s),
{
    assert(s.no_duplicates()) by {
        assert forall|x: u64| s.to_multiset().contains(x) implies s.to_multiset().count(x) == 1 by {
            lemma_count(s, x);
            assert(count(s, x) > 0);
        }
        s.lemma_multiset_has_no_duplicates_conv();
    }
}

/// The values with a trigram, by binary search.
fn find_gram<'a>(
    search: &'a ValueSearch,
    gram: u32,
    Ghost(ti): Ghost<&Taginfo>,
    Ghost(parent): Ghost<&Osm>,
) -> (out: Option<&'a [Ref]>)
    requires
        search.searches(ti, parent),
    ensures
        match out {
            Some(list) => strictly_ascending(list@) && forall|v: u64| #[trigger]
                list@.contains(v) <==> value_has_gram(ti, parent, v as int, gram as int),
            None => forall|v: int| !#[trigger] value_has_gram(ti, parent, v, gram as int),
        },
{
    let mut lo: usize = 0;
    let mut hi: usize = search.trigrams.len() - 1;
    while lo < hi
        invariant
            search.searches(ti, parent),
            lo <= hi <= search.n_grams(),
            forall|k: int| 0 <= k < lo ==> (#[trigger] search.trigrams@[k]).gram < gram,
            forall|k: int|
                hi <= k < search.n_grams() ==> (#[trigger] search.trigrams@[k]).gram >= gram,
        decreases hi - lo,
    {
        let mid: usize = lo + (hi - lo) / 2;
        if search.trigrams[mid].gram < gram {
            lo = mid + 1;
        } else {
            hi = mid;
        }
    }
    if lo < search.trigrams.len() - 1 && search.trigrams[lo].gram == gram {
        let (start, end): (u64, u64) = (
            search.trigrams[lo].value_first_idx,
            search.trigrams[lo + 1].value_first_idx,
        );
        proof {
            let first = gram_first(search.trigrams@);
            assert(first[lo as int] <= first[lo + 1] && first[lo + 1] <= first[search.n_grams()]);
            assert(first[lo + 1] <= search.values.len());
        }
        let list = vstd::slice::slice_subrange(
            search.values.as_slice(),
            start as usize,
            end as usize,
        );
        proof {
            assert(list@ == search.values_of(lo as int));
        }
        return Some(list);
    }
    proof {
        assert forall|v: int| !#[trigger] value_has_gram(ti, parent, v, gram as int) by {
            if value_has_gram(ti, parent, v, gram as int) {
                assert(search.has_entry(gram as int));
                let g = choose|g: int|
                    0 <= g < search.n_grams() && (#[trigger] search.trigrams@[g]).gram
                        == gram as int;
                if g > lo {
                    assert(search.trigrams@[lo as int].gram < search.trigrams@[g].gram);
                }
            }
        }
    }
    None
}

/// The indices of the views.
pub open spec fn view_indices(views: Seq<ValueView<'_>>) -> Seq<u64> {
    Seq::new(views.len(), |i: int| views[i].idx as u64)
}

/// How many postings of the values `from..to` lie in `ranges`.
pub open spec fn clipped_total(
    ti: &Taginfo,
    entity: EntityType,
    from: int,
    to: int,
    ranges: Seq<Range<u64>>,
) -> nat
    decreases to - from,
{
    if to <= from {
        0
    } else {
        clipped_total(ti, entity, from, to - 1, ranges) + clipped(
            ti.postings(entity, to - 1),
            ranges,
        ).len()
    }
}

/// Value `v` has a posting in the ranges of its type.
pub open spec fn occurs_within(
    ti: &Taginfo,
    v: int,
    nodes: Seq<Range<u64>>,
    ways: Seq<Range<u64>>,
    relations: Seq<Range<u64>>,
) -> bool {
    ||| clipped(ti.postings(EntityType::Node, v), nodes).len() > 0
    ||| clipped(ti.postings(EntityType::Way, v), ways).len() > 0
    ||| clipped(ti.postings(EntityType::Relation, v), relations).len() > 0
}

/// How many of the values `from..to` have a posting in the ranges.
pub open spec fn occurring_values(
    ti: &Taginfo,
    from: int,
    to: int,
    nodes: Seq<Range<u64>>,
    ways: Seq<Range<u64>>,
    relations: Seq<Range<u64>>,
) -> nat
    decreases to - from,
{
    if to <= from {
        0
    } else {
        occurring_values(ti, from, to - 1, nodes, ways, relations) + if occurs_within(
            ti,
            to - 1,
            nodes,
            ways,
            relations,
        ) {
            1nat
        } else {
            0
        }
    }
}

impl<'a> KeyView<'a> {
    /// The view is that of a key of its index.
    pub open spec fn wf(self) -> bool {
        self.q.wf() && self.idx < self.q.taginfo.n_keys()
    }

    /// Where this key's values start.
    pub open spec fn first_value(self) -> int {
        self.q.taginfo.keys@[self.idx as int].value_first_idx as int
    }

    /// Where this key's values end.
    pub open spec fn end_value(self) -> int {
        self.q.taginfo.keys@[self.idx + 1].value_first_idx as int
    }

    fn value_range(&self) -> (out: (usize, usize))
        requires
            self.wf(),
        ensures
            out.0 == self.first_value(),
            out.1 == self.end_value(),
            out.0 <= out.1 <= self.q.taginfo.n_values(),
    {
        let keys = &self.q.taginfo.keys;
        proof {
            let first = value_first(keys@);
            let n = self.q.taginfo.n_keys();
            assert(first[self.idx as int] <= first[self.idx + 1] && first[self.idx + 1]
                <= first[n]);
            assert(self.q.taginfo.values.len() <= usize::MAX);
        }
        (keys[self.idx].value_first_idx as usize, keys[self.idx + 1].value_first_idx as usize)
    }

    /// The key string.
    pub fn key(&self) -> (out: &'a [u8])
        requires
            self.wf(),
        ensures
            out@ == self.q.key_string(self.idx as int),
    {
        self.q.parent.string(self.q.taginfo.keys[self.idx].key_idx)
    }

    /// Per-type object counts carrying this key.
    pub fn counts(&self) -> (out: TypeCounts)
        requires
            self.wf(),
        ensures
            out.nodes == self.q.taginfo.keys@[self.idx as int].count_nodes,
            out.ways == self.q.taginfo.keys@[self.idx as int].count_ways,
            out.relations == self.q.taginfo.keys@[self.idx as int].count_relations,
    {
        let e = &self.q.taginfo.keys[self.idx];
        TypeCounts { nodes: e.count_nodes, ways: e.count_ways, relations: e.count_relations }
    }

    /// Number of distinct values for this key.
    pub fn distinct_values(&self) -> (out: u64)
        requires
            self.wf(),
        ensures
            out == self.end_value() - self.first_value(),
    {
        let (from, to) = self.value_range();
        (to - from) as u64
    }

    /// Other keys used by entities that carry this key, by descending
    /// together-count, then by key string. Empty when the index was built
    /// without combinations.
    pub fn combinations(&self) -> (out: Vec<CombinationView<'a>>)
        requires
            self.wf(),
        ensures
            out@.len() == run(
                self.q.taginfo.combos@,
                combo_first(self.q.taginfo.keys@),
                self.idx as int,
            ).len(),
            forall|i: int|
                0 <= i < out@.len() ==> (#[trigger] out@[i]).q == self.q && out@[i].wf()
                    && out@[i].idx == self.q.taginfo.keys@[self.idx as int].combo_first_idx + i,
    {
        let keys = &self.q.taginfo.keys;
        let (from, to): (u64, u64) = (
            keys[self.idx].combo_first_idx,
            keys[self.idx + 1].combo_first_idx,
        );
        proof {
            let first = combo_first(keys@);
            let n = self.q.taginfo.n_keys();
            assert(first[self.idx as int] <= first[self.idx + 1] && first[self.idx + 1]
                <= first[n]);
            assert(self.q.taginfo.combos.len() <= usize::MAX);
        }
        let mut out: Vec<CombinationView<'a>> = Vec::new();
        let mut c: u64 = from;
        while c < to
            invariant
                self.wf(),
                from <= c <= to <= self.q.taginfo.combos.len(),
                out@.len() == c - from,
                forall|i: int|
                    0 <= i < out@.len() ==> (#[trigger] out@[i]).q == self.q && out@[i].wf()
                        && out@[i].idx == from + i,
            decreases to - c,
        {
            out.push(CombinationView { q: self.q, idx: c as usize });
            c = c + 1;
        }
        out
    }

    /// The distinct values for this key, sorted by value string.
    pub fn values(&self) -> (out: Vec<ValueView<'a>>)
        requires
            self.wf(),
        ensures
            views_values(out@, self.q, self.first_value(), self.end_value()),
    {
        let (from, to) = self.value_range();
        let mut out: Vec<ValueView<'a>> = Vec::new();
        let mut v: usize = from;
        while v < to
            invariant
                from <= v <= to,
                views_values(out@, self.q, from as int, v as int),
            decreases to - v,
        {
            out.push(ValueView { q: self.q, idx: v });
            v = v + 1;
        }
        out
    }

    /// The distinct values for this key, most common first: by total object
    /// count descending, then by value string.
    pub fn values_by_count(&self) -> (out: Vec<ValueView<'a>>)
        requires
            self.wf(),
        ensures
            forall|i: int| 0 <= i < out@.len() ==> (#[trigger] out@[i]).q == self.q && out@[i].wf(),
            ranked(self.q.taginfo, self.idx as int, view_indices(out@)),
    {
        let (from, to) = self.value_range();
        let ranks = &self.q.taginfo.values_by_count;
        let ghost list = run(ranks@, value_first(self.q.taginfo.keys@), self.idx as int);
        proof {
            assert(ranked(self.q.taginfo, self.idx as int, list));
            assert(ranks.len() == self.q.taginfo.n_values());
        }
        let mut out: Vec<ValueView<'a>> = Vec::new();
        let mut r: usize = from;
        while r < to
            invariant
                self.wf(),
                from == self.first_value(),
                to == self.end_value(),
                from <= r <= to <= ranks@.len(),
                ranks@ == self.q.taginfo.values_by_count@,
                ranks.len() == self.q.taginfo.n_values(),
                to <= self.q.taginfo.n_values(),
                list == ranks@.subrange(from as int, to as int),
                ranked(self.q.taginfo, self.idx as int, list),
                out@.len() == r - from,
                forall|i: int|
                    0 <= i < out@.len() ==> (#[trigger] out@[i]).q == self.q && out@[i].wf()
                        && out@[i].idx == list[i],
            decreases to - r,
        {
            let v: u64 = ranks[r];
            proof {
                assert(list[r - from] == v);
                assert(list.contains(v));
                assert(self.q.taginfo.under(self.idx as int, v as int));
                assert(self.q.taginfo.values.len() <= usize::MAX);
            }
            out.push(ValueView { q: self.q, idx: v as usize });
            r = r + 1;
        }
        proof {
            assert(view_indices(out@) =~= list);
        }
        out
    }

    /// This key's values whose string contains `pattern`, ASCII
    /// case-insensitively, in value-string order.
    pub fn values_containing(&self, pattern: &[u8]) -> (out: Vec<ValueView<'a>>)
        requires
            self.wf(),
        ensures
            views_matching(
                out@,
                self.q,
                self.first_value(),
                self.end_value(),
                self.q.value_matches(pattern@),
            ),
    {
        let (from, to) = self.value_range();
        self.q.values_containing_in(from, to, pattern)
    }

    /// Nodes carrying this key with any value (`key=*`), ascending.
    pub fn nodes(&self) -> (out: Vec<u64>)
        requires
            self.wf(),
        ensures
            is_key_union(self.q.taginfo, EntityType::Node, self.idx as int, out@),
    {
        self.postings_of(EntityType::Node)
    }

    /// Ways carrying this key with any value (`key=*`), ascending.
    pub fn ways(&self) -> (out: Vec<u64>)
        requires
            self.wf(),
        ensures
            is_key_union(self.q.taginfo, EntityType::Way, self.idx as int, out@),
    {
        self.postings_of(EntityType::Way)
    }

    /// Relations carrying this key with any value (`key=*`), ascending.
    pub fn relations(&self) -> (out: Vec<u64>)
        requires
            self.wf(),
        ensures
            is_key_union(self.q.taginfo, EntityType::Relation, self.idx as int, out@),
    {
        self.postings_of(EntityType::Relation)
    }

    /// Nodes carrying this key with any value that fall in `bbox`, ascending.
    pub fn nodes_in_bbox(&self, bbox: Bbox) -> (out: Vec<u64>)
        requires
            self.wf(),
        ensures
            self.is_key_in_bbox(EntityType::Node, bbox, out@),
    {
        self.postings_in_bbox(EntityType::Node, bbox)
    }

    /// Ways carrying this key with any value that overlap `bbox`, ascending.
    pub fn ways_in_bbox(&self, bbox: Bbox) -> (out: Vec<u64>)
        requires
            self.wf(),
        ensures
            self.is_key_in_bbox(EntityType::Way, bbox, out@),
    {
        self.postings_in_bbox(EntityType::Way, bbox)
    }

    /// Relations carrying this key with any value that overlap `bbox`,
    /// ascending.
    pub fn relations_in_bbox(&self, bbox: Bbox) -> (out: Vec<u64>)
        requires
            self.wf(),
        ensures
            self.is_key_in_bbox(EntityType::Relation, bbox, out@),
    {
        self.postings_in_bbox(EntityType::Relation, bbox)
    }

    /// `out` holds the entities that carry this key and that the box admits,
    /// ascending, each once.
    pub open spec fn is_key_in_bbox(self, entity: EntityType, bbox: Bbox, out: Seq<u64>) -> bool {
        &&& strictly_ascending(out)
        &&& forall|e: u64| #[trigger]
            out.contains(e) <==> carries_under(self.q.taginfo, entity, self.idx as int, e)
                && bbox.admits(self.q.parent, entity, e as int)
    }

    fn postings_in_bbox(&self, entity: EntityType, bbox: Bbox) -> (out: Vec<u64>)
        requires
            self.wf(),
        ensures
            self.is_key_in_bbox(entity, bbox, out@),
    {
        let ranges = ranges_in_bbox(self.q.parent, entity, bbox);
        self.postings_within(entity, ranges.as_slice())
    }

    /// `key=*` for `entity`, ascending: stored postings if present, else the
    /// merge of this key's value postings.
    pub fn postings_of(&self, entity: EntityType) -> (out: Vec<u64>)
        requires
            self.wf(),
        ensures
            is_key_union(self.q.taginfo, entity, self.idx as int, out@),
    {
        match self.stored_postings(entity) {
            Some(stored) => vstd::slice::slice_to_vec(stored),
            None => merge_key(self.q.taginfo, entity, self.idx),
        }
    }

    /// `key=*` for `entity`, restricted to the ascending, disjoint `ranges`.
    pub fn postings_within(&self, entity: EntityType, ranges: &[Range<u64>]) -> (out: Vec<u64>)
        requires
            self.wf(),
            disjoint_ascending(ranges@),
        ensures
            strictly_ascending(out@),
            forall|e: u64| #[trigger]
                out@.contains(e) <==> carries_under(self.q.taginfo, entity, self.idx as int, e)
                    && in_ranges(ranges@, e),
    {
        let ghost p = |v: u64| in_ranges(ranges@, v);
        let list = self.postings_of(entity);
        let out = intersect_bbox(list.as_slice(), ranges);
        proof {
            lemma_filter_ascending(list@, p);
        }
        out
    }

    /// This key's precomputed `key=*` postings for `entity`, if the index holds
    /// them.
    fn stored_postings(&self, entity: EntityType) -> (out: Option<&'a [Ref]>)
        requires
            self.wf(),
        ensures
            out is Some <==> self.q.taginfo.key_postings is Some,
            out matches Some(list) ==> is_key_union(
                self.q.taginfo,
                entity,
                self.idx as int,
                list@,
            ),
    {
        match &self.q.taginfo.key_postings {
            None => None,
            Some(kp) => {
                let (range, posts) = match entity {
                    EntityType::Node => (&kp.node_range, &kp.nodes),
                    EntityType::Way => (&kp.way_range, &kp.ways),
                    EntityType::Relation => (&kp.relation_range, &kp.relations),
                };
                proof {
                    assert(range@ == kp.range_of(entity));
                    assert(posts@ == kp.posts_of(entity));
                    let n = self.q.taginfo.n_keys();
                    assert(range@[self.idx as int] <= range@[self.idx + 1] && range@[self.idx + 1]
                        <= range@[n]);
                    assert(posts.len() <= usize::MAX);
                    assert(is_key_union(
                        self.q.taginfo,
                        entity,
                        self.idx as int,
                        run(kp.posts_of(entity), kp.range_of(entity), self.idx as int),
                    ));
                }
                Some(
                    vstd::slice::slice_subrange(
                        posts.as_slice(),
                        range[self.idx] as usize,
                        range[self.idx + 1] as usize,
                    ),
                )
            },
        }
    }

    /// Find one value of this key by exact string (binary search within the
    /// key's value range).
    pub fn value(&self, value: &[u8]) -> (out: Option<ValueView<'a>>)
        requires
            self.wf(),
        ensures
            match out {
                Some(view) => view.q == self.q && view.wf() && self.q.names_value(
                    self.idx as int,
                    value@,
                    view.idx as int,
                ),
                None => self.q.lacks_value(self.idx as int, value@),
            },
    {
        let (from, to) = self.value_range();
        let mut lo: usize = from;
        let mut hi: usize = to;
        let ghost k = self.idx as int;
        while lo < hi
            invariant
                self.wf(),
                k == self.idx,
                from == self.first_value(),
                to == self.end_value(),
                to <= self.q.taginfo.n_values(),
                from <= lo <= hi <= to,
                forall|v: int| from <= v < lo ==> lex_lt(#[trigger] self.q.value_string(v), value@),
                forall|v: int| hi <= v < to ==> lex_le(value@, #[trigger] self.q.value_string(v)),
            decreases hi - lo,
        {
            let mid: usize = lo + (hi - lo) / 2;
            let s = self.q.parent.string(self.q.taginfo.values[mid].value_idx);
            proof {
                assert(s@ == self.q.value_string(mid as int));
                assert(self.q.taginfo.under(k, mid as int));
                lemma_lex_total(s@, value@);
                lemma_lex_total(value@, s@);
            }
            let below = match compare(s, value) {
                Compared::Less => true,
                _ => false,
            };
            if below {
                proof {
                    assert forall|v: int| from <= v < mid + 1 implies lex_lt(
                        #[trigger] self.q.value_string(v),
                        value@,
                    ) by {
                        assert(self.q.taginfo.under(k, v));
                        lemma_lex_lt_chain(self.q.value_string(v), s@, value@);
                    }
                }
                lo = mid + 1;
            } else {
                proof {
                    assert forall|v: int| mid <= v < to implies lex_le(
                        value@,
                        #[trigger] self.q.value_string(v),
                    ) by {
                        assert(self.q.taginfo.under(k, v));
                        lemma_lex_chain(value@, s@, self.q.value_string(v));
                    }
                }
                hi = mid;
            }
        }
        if lo < to && same_bytes(
            self.q.parent.string(self.q.taginfo.values[lo].value_idx),
            value,
        ) {
            proof {
                assert(self.q.taginfo.under(k, lo as int));
                assert forall|w: int| #[trigger]
                    self.q.taginfo.under(k, w) && w < lo implies self.q.value_string(w)
                    != value@ by {
                    assert(lex_lt(self.q.value_string(w), value@));
                }
            }
            return Some(ValueView { q: self.q, idx: lo });
        }
        proof {
            assert forall|v: int| #[trigger] self.q.taginfo.under(k, v) implies self.q.value_string(
                v,
            ) != value@ by {
                if v >= lo {
                    assert(self.q.taginfo.under(k, lo as int));
                    assert(lex_le(self.q.value_string(lo as int), self.q.value_string(v)));
                    assert(lex_le(value@, self.q.value_string(lo as int)));
                    lemma_lex_total(self.q.value_string(lo as int), value@);
                } else {
                    assert(lex_lt(self.q.value_string(v), value@));
                }
            }
        }
        None
    }

    /// How many postings of this key's values lie in the ranges of their type.
    pub fn counts_within(
        &self,
        nodes: &[Range<u64>],
        ways: &[Range<u64>],
        relations: &[Range<u64>],
    ) -> (out: TypeCounts)
        requires
            self.wf(),
            disjoint_ascending(nodes@),
            disjoint_ascending(ways@),
            disjoint_ascending(relations@),
        ensures
            out.nodes == clipped_total(
                self.q.taginfo,
                EntityType::Node,
                self.first_value(),
                self.end_value(),
                nodes@,
            ),
            out.ways == clipped_total(
                self.q.taginfo,
                EntityType::Way,
                self.first_value(),
                self.end_value(),
                ways@,
            ),
            out.relations == clipped_total(
                self.q.taginfo,
                EntityType::Relation,
                self.first_value(),
                self.end_value(),
                relations@,
            ),
    {
        TypeCounts {
            nodes: self.count_within(EntityType::Node, nodes),
            ways: self.count_within(EntityType::Way, ways),
            relations: self.count_within(EntityType::Relation, relations),
        }
    }

    fn count_within(&self, entity: EntityType, ranges: &[Range<u64>]) -> (out: u64)
        requires
            self.wf(),
            disjoint_ascending(ranges@),
        ensures
            out == clipped_total(
                self.q.taginfo,
                entity,
                self.first_value(),
                self.end_value(),
                ranges@,
            ),
    {
        let (from, to) = self.value_range();
        let mut total: u64 = 0;
        let mut v: usize = from;
        let ghost first = post_first(self.q.taginfo.values@, entity);
        while v < to
            invariant
                self.wf(),
                disjoint_ascending(ranges@),
                first == post_first(self.q.taginfo.values@, entity),
                from <= v <= to <= self.q.taginfo.n_values(),
                total == clipped_total(self.q.taginfo, entity, from as int, v as int, ranges@),
                total <= first[v as int] - first[from as int],
            decreases to - v,
        {
            let list = postings_slice(self.q.taginfo, entity, v);
            let hit = intersect_bbox(list, ranges);
            proof {
                let p = |e: u64| in_ranges(ranges@, e);
                list@.lemma_filter_len(p);
                assert(first[v as int] <= first[v + 1]);
                assert(first[v + 1] <= first[self.q.taginfo.n_values()]);
                assert(list@.len() == first[v + 1] - first[v as int]);
            }
            total = total + hit.len() as u64;
            v = v + 1;
        }
        total
    }

    /// How many distinct values of this key have a posting in the ranges.
    pub fn distinct_values_within(
        &self,
        nodes: &[Range<u64>],
        ways: &[Range<u64>],
        relations: &[Range<u64>],
    ) -> (out: u64)
        requires
            self.wf(),
            disjoint_ascending(nodes@),
            disjoint_ascending(ways@),
            disjoint_ascending(relations@),
        ensures
            out == occurring_values(
                self.q.taginfo,
                self.first_value(),
                self.end_value(),
                nodes@,
                ways@,
                relations@,
            ),
    {
        let (from, to) = self.value_range();
        let ti = self.q.taginfo;
        let mut total: u64 = 0;
        let mut v: usize = from;
        while v < to
            invariant
                self.wf(),
                ti == self.q.taginfo,
                disjoint_ascending(nodes@),
                disjoint_ascending(ways@),
                disjoint_ascending(relations@),
                from <= v <= to <= ti.n_values(),
                total == occurring_values(
                    ti,
                    from as int,
                    v as int,
                    nodes@,
                    ways@,
                    relations@,
                ),
                total <= v - from,
            decreases to - v,
        {
            let n = intersect_bbox(postings_slice(ti, EntityType::Node, v), nodes);
            let w = intersect_bbox(postings_slice(ti, EntityType::Way, v), ways);
            let r = intersect_bbox(postings_slice(ti, EntityType::Relation, v), relations);
            if n.len() > 0 || w.len() > 0 || r.len() > 0 {
                total = total + 1;
            }
            v = v + 1;
        }
        total
    }
}

impl<'a> CombinationView<'a> {
    /// The view is that of a co-occurring key of its index.
    pub open spec fn wf(self) -> bool {
        self.q.wf() && self.idx < self.q.taginfo.combos.len()
    }

    /// What the index holds for it.
    pub open spec fn entry(self) -> ComboEntry {
        self.q.taginfo.combos@[self.idx as int]
    }

    /// The co-occurring key string.
    pub fn key(&self) -> (out: &'a [u8])
        requires
            self.wf(),
        ensures
            out@ == string_at(self.q.parent.stringtable@, self.entry().other_key_idx as int),
    {
        self.q.parent.string(self.q.taginfo.combos[self.idx].other_key_idx)
    }

    /// Number of parent entities that carry both keys.
    pub fn together_count(&self) -> (out: u64)
        requires
            self.wf(),
        ensures
            out == self.entry().together_count,
    {
        self.q.taginfo.combos[self.idx].together_count
    }
}

impl<'a> TagCombinationView<'a> {
    /// The view is that of a co-occurring tag of its index.
    pub open spec fn wf(self) -> bool {
        self.q.wf() && self.idx < self.q.taginfo.tag_combos.len()
    }

    /// What the index holds for it.
    pub open spec fn entry(self) -> TagComboEntry {
        self.q.taginfo.tag_combos@[self.idx as int]
    }

    /// The co-occurring key string.
    pub fn key(&self) -> (out: &'a [u8])
        requires
            self.wf(),
        ensures
            out@ == string_at(self.q.parent.stringtable@, self.entry().other_key_idx as int),
    {
        self.q.parent.string(self.q.taginfo.tag_combos[self.idx].other_key_idx)
    }

    /// The co-occurring value string.
    pub fn value(&self) -> (out: &'a [u8])
        requires
            self.wf(),
        ensures
            out@ == string_at(self.q.parent.stringtable@, self.entry().other_value_idx as int),
    {
        self.q.parent.string(self.q.taginfo.tag_combos[self.idx].other_value_idx)
    }

    /// Number of parent entities that carry both tags.
    pub fn together_count(&self) -> (out: u64)
        requires
            self.wf(),
        ensures
            out == self.entry().together_count,
    {
        self.q.taginfo.tag_combos[self.idx].together_count
    }
}

impl<'a> ValueView<'a> {
    /// The view is that of a value of its index.
    pub open spec fn wf(self) -> bool {
        self.q.wf() && self.idx < self.q.taginfo.n_values()
    }

    /// The postings of this value.
    pub open spec fn postings(self, entity: EntityType) -> Seq<u64> {
        self.q.taginfo.postings(entity, self.idx as int)
    }

    /// The value string.
    pub fn value(&self) -> (out: &'a [u8])
        requires
            self.wf(),
        ensures
            out@ == self.q.value_string(self.idx as int),
    {
        self.q.parent.string(self.q.taginfo.values[self.idx].value_idx)
    }

    /// This value's index in the `values` vector.
    pub fn index(&self) -> (out: usize)
        ensures
            out == self.idx,
    {
        self.idx
    }

    /// The key this value belongs to (binary search over the keys' value
    /// ranges).
    pub fn key(&self) -> (out: KeyView<'a>)
        requires
            self.wf(),
        ensures
            out.q == self.q,
            out.wf(),
            self.q.taginfo.under(out.idx as int, self.idx as int),
    {
        let keys = &self.q.taginfo.keys;
        let n: usize = keys.len() - 1;
        let ghost first = value_first(keys@);
        let ghost g = lemma_run_of(
            first,
            n as int,
            self.q.taginfo.n_values(),
            self.idx as int,
        );
        let mut lo: usize = 0;
        let mut hi: usize = n;
        while lo < hi
            invariant
                self.wf(),
                keys@ == self.q.taginfo.keys@,
                keys.len() == n + 1,
                first == value_first(keys@),
                cuts(first, n as int, self.q.taginfo.n_values()),
                0 <= g < n,
                first[g] <= self.idx < first[g + 1],
                lo <= g <= hi <= n,
            decreases hi - lo,
        {
            let mid: usize = lo + (hi - lo) / 2;
            proof {
                if mid < g {
                    assert(first[mid + 1] <= first[g]);
                } else {
                    assert(first[g + 1] <= first[mid + 1]);
                }
                assert(keys@[mid + 1].value_first_idx == first[mid + 1]);
            }
            if keys[mid + 1].value_first_idx <= self.idx as u64 {
                lo = mid + 1;
            } else {
                hi = mid;
            }
        }
        KeyView { q: self.q, idx: lo }
    }

    /// Per-type counts: the lengths of the postings.
    pub fn counts(&self) -> (out: TypeCounts)
        requires
            self.wf(),
        ensures
            out.nodes == self.postings(EntityType::Node).len(),
            out.ways == self.postings(EntityType::Way).len(),
            out.relations == self.postings(EntityType::Relation).len(),
    {
        TypeCounts {
            nodes: self.nodes().len() as u64,
            ways: self.ways().len() as u64,
            relations: self.relations().len() as u64,
        }
    }

    /// Other tags used by entities that carry this exact `(key, value)`, by
    /// descending together-count, then by key string and value string. Empty
    /// when the index was built without combinations.
    pub fn combinations(&self) -> (out: Vec<TagCombinationView<'a>>)
        requires
            self.wf(),
        ensures
            out@.len() == run(
                self.q.taginfo.tag_combos@,
                tag_combo_first(self.q.taginfo.values@),
                self.idx as int,
            ).len(),
            forall|i: int|
                0 <= i < out@.len() ==> (#[trigger] out@[i]).q == self.q && out@[i].wf()
                    && out@[i].idx == self.q.taginfo.values@[self.idx as int].tag_combo_first_idx
                    + i,
    {
        let values = &self.q.taginfo.values;
        let (from, to): (u64, u64) = (
            values[self.idx].tag_combo_first_idx,
            values[self.idx + 1].tag_combo_first_idx,
        );
        proof {
            let first = tag_combo_first(values@);
            let n = self.q.taginfo.n_values();
            assert(first[self.idx as int] <= first[self.idx + 1] && first[self.idx + 1]
                <= first[n]);
            assert(self.q.taginfo.tag_combos.len() <= usize::MAX);
        }
        let mut out: Vec<TagCombinationView<'a>> = Vec::new();
        let mut c: u64 = from;
        while c < to
            invariant
                self.wf(),
                from <= c <= to <= self.q.taginfo.tag_combos.len(),
                out@.len() == c - from,
                forall|i: int|
                    0 <= i < out@.len() ==> (#[trigger] out@[i]).q == self.q && out@[i].wf()
                        && out@[i].idx == from + i,
            decreases to - c,
        {
            out.push(TagCombinationView { q: self.q, idx: c as usize });
            c = c + 1;
        }
        out
    }

    /// Node postings (ascending parent node indices).
    pub fn nodes(&self) -> (out: &'a [Ref])
        requires
            self.wf(),
        ensures
            out@ == self.postings(EntityType::Node),
    {
        postings_slice(self.q.taginfo, EntityType::Node, self.idx)
    }

    /// Way postings (ascending parent way indices).
    pub fn ways(&self) -> (out: &'a [Ref])
        requires
            self.wf(),
        ensures
            out@ == self.postings(EntityType::Way),
    {
        postings_slice(self.q.taginfo, EntityType::Way, self.idx)
    }

    /// Relation postings (ascending parent relation indices).
    pub fn relations(&self) -> (out: &'a [Ref])
        requires
            self.wf(),
        ensures
            out@ == self.postings(EntityType::Relation),
    {
        postings_slice(self.q.taginfo, EntityType::Relation, self.idx)
    }

    /// The postings of this value that the box admits.
    pub open spec fn postings_in(self, entity: EntityType, bbox: Bbox) -> Seq<u64> {
        self.postings(entity).filter(|e: u64| bbox.admits(self.q.parent, entity, e as int))
    }

    fn in_bbox(&self, entity: EntityType, bbox: Bbox) -> (out: Vec<u64>)
        requires
            self.wf(),
        ensures
            out@ == self.postings_in(entity, bbox),
    {
        let ranges = ranges_in_bbox(self.q.parent, entity, bbox);
        let list = postings_slice(self.q.taginfo, entity, self.idx);
        proof {
            lemma_filter_same(
                list@,
                |e: u64| in_ranges(ranges@, e),
                |e: u64| bbox.admits(self.q.parent, entity, e as int),
            );
        }
        intersect_bbox(list, ranges.as_slice())
    }

    /// Nodes with this `(key, value)` that fall in `bbox`, ascending.
    pub fn nodes_in_bbox(&self, bbox: Bbox) -> (out: Vec<u64>)
        requires
            self.wf(),
        ensures
            out@ == self.postings_in(EntityType::Node, bbox),
    {
        self.in_bbox(EntityType::Node, bbox)
    }

    /// Ways with this `(key, value)` overlapping `bbox`, ascending.
    pub fn ways_in_bbox(&self, bbox: Bbox) -> (out: Vec<u64>)
        requires
            self.wf(),
        ensures
            out@ == self.postings_in(EntityType::Way, bbox),
    {
        self.in_bbox(EntityType::Way, bbox)
    }

    /// Relations with this `(key, value)` overlapping `bbox`, ascending.
    pub fn relations_in_bbox(&self, bbox: Bbox) -> (out: Vec<u64>)
        requires
            self.wf(),
        ensures
            out@ == self.postings_in(EntityType::Relation, bbox),
    {
        self.in_bbox(EntityType::Relation, bbox)
    }
}

} // verus!
