//! What a search for a substring promises, byte by byte.

use crate::taginfo::{
    contains_folded, gram_at, has_gram, lower, matches_at, TaginfoQuery,
};
use vstd::prelude::*;

verus! {

/// The bytes are the same, or the upper and the lower case of one of the 26 ASCII
/// letters.
pub open spec fn same_but_for_case(a: u8, b: u8) -> bool {
    ||| a == b
    ||| 0x41 <= a <= 0x5a && b == a + 0x20
    ||| 0x41 <= b <= 0x5a && a == b + 0x20
}

/// The strings are the same, but for the case of ASCII letters.
pub open spec fn recased(a: Seq<u8>, b: Seq<u8>) -> bool {
    &&& a.len() == b.len()
    &&& forall|i: int| 0 <= i < a.len() ==> same_but_for_case(#[trigger] a[i], b[i])
}

/// Folding takes each of the 26 upper-case ASCII letters to its lower case, the
/// byte 32 above it, and every other byte to itself.
pub proof fn folding_covers_the_alphabet(b: u8)
    ensures
        0x41 <= b <= 0x5a ==> lower(b) == b + 0x20 && lower((b + 0x20) as u8) == b + 0x20,
        b < 0x41 || 0x5a < b ==> lower(b) == b,
{
}

/// Two bytes fold alike exactly where they are the same but for case.
pub proof fn bytes_fold_alike_in_either_case(a: u8, b: u8)
    ensures
        lower(a) == lower(b) <==> same_but_for_case(a, b),
{
}

/// A string contains a pattern exactly where a run of it is the pattern, but for
/// the case of ASCII letters.
pub proof fn containing_is_having_a_recased_run(haystack: Seq<u8>, needle: Seq<u8>)
    ensures
        contains_folded(haystack, needle) <==> exists|i: int|
            0 <= i && i + needle.len() <= haystack.len() && recased(
                #[trigger] haystack.subrange(i, i + needle.len()),
                needle,
            ),
{
    if contains_folded(haystack, needle) {
        let i = choose|i: int| #[trigger] matches_at(haystack, needle, i);
        let part = haystack.subrange(i, i + needle.len());
        assert forall|j: int| 0 <= j < part.len() implies same_but_for_case(
            #[trigger] part[j],
            needle[j],
        ) by {
            assert(lower(haystack[i + j]) == lower(needle[j]));
            bytes_fold_alike_in_either_case(part[j], needle[j]);
        }
        assert(recased(part, needle));
    }
    if exists|i: int|
        0 <= i && i + needle.len() <= haystack.len() && recased(
            #[trigger] haystack.subrange(i, i + needle.len()),
            needle,
        ) {
        let i = choose|i: int|
            0 <= i && i + needle.len() <= haystack.len() && recased(
                #[trigger] haystack.subrange(i, i + needle.len()),
                needle,
            );
        let part = haystack.subrange(i, i + needle.len());
        assert forall|j: int| 0 <= j < needle.len() implies lower(haystack[i + j]) == lower(
            #[trigger] needle[j],
        ) by {
            assert(part[j] == haystack[i + j]);
            bytes_fold_alike_in_either_case(part[j], needle[j]);
        }
        assert(matches_at(haystack, needle, i));
    }
}

/// Whether a string contains a pattern does not change with the case of ASCII
/// letters in either.
pub proof fn containing_ignores_case(
    haystack: Seq<u8>,
    haystack2: Seq<u8>,
    needle: Seq<u8>,
    needle2: Seq<u8>,
)
    requires
        recased(haystack, haystack2),
        recased(needle, needle2),
    ensures
        contains_folded(haystack, needle) == contains_folded(haystack2, needle2),
{
    assert forall|i: int| #[trigger] matches_at(haystack, needle, i) <==> matches_at(
        haystack2,
        needle2,
        i,
    ) by {
        if 0 <= i && i + needle.len() <= haystack.len() {
            assert forall|j: int| 0 <= j < needle.len() implies lower(haystack[i + j]) == lower(
                haystack2[i + j],
            ) && lower(#[trigger] needle[j]) == lower(needle2[j]) by {
                assert(same_but_for_case(haystack[i + j], haystack2[i + j]));
                bytes_fold_alike_in_either_case(haystack[i + j], haystack2[i + j]);
                bytes_fold_alike_in_either_case(needle[j], needle2[j]);
            }
            if matches_at(haystack, needle, i) {
                assert forall|j: int| 0 <= j < needle2.len() implies lower(haystack2[i + j])
                    == lower(#[trigger] needle2[j]) by {
                    assert(lower(haystack[i + j]) == lower(needle[j]));
                }
            }
            if matches_at(haystack2, needle2, i) {
                assert forall|j: int| 0 <= j < needle.len() implies lower(haystack[i + j])
                    == lower(#[trigger] needle[j]) by {
                    assert(lower(haystack2[i + j]) == lower(needle2[j]));
                }
            }
        }
    }
    if contains_folded(haystack, needle) {
        let i = choose|i: int| #[trigger] matches_at(haystack, needle, i);
        assert(matches_at(haystack2, needle2, i));
    }
    if contains_folded(haystack2, needle2) {
        let i = choose|i: int| #[trigger] matches_at(haystack2, needle2, i);
        assert(matches_at(haystack, needle, i) <==> matches_at(haystack2, needle2, i));
    }
}

/// A value is found under a pattern in any case.
pub proof fn a_search_finds_the_same_in_any_case(
    q: TaginfoQuery<'_>,
    pattern: Seq<u8>,
    other: Seq<u8>,
    v: int,
)
    requires
        recased(pattern, other),
    ensures
        q.value_matches(pattern)(v) == q.value_matches(other)(v),
{
    let value = q.value_string(v);
    assert(recased(value, value));
    containing_ignores_case(value, value, pattern, other);
}

/// What contains a string contains every run of it, and what it is a run of
/// contains it.
pub proof fn containing_chains(a: Seq<u8>, b: Seq<u8>, c: Seq<u8>)
    requires
        contains_folded(a, b),
        contains_folded(b, c),
    ensures
        contains_folded(a, c),
        contains_folded(a, a),
        contains_folded(a, Seq::empty()),
{
    let i = choose|i: int| #[trigger] matches_at(a, b, i);
    let k = choose|k: int| #[trigger] matches_at(b, c, k);
    assert forall|j: int| 0 <= j < c.len() implies lower(a[i + k + j]) == lower(
        #[trigger] c[j],
    ) by {
        assert(lower(a[i + (k + j)]) == lower(b[k + j]));
    }
    assert(matches_at(a, c, i + k));
    assert(matches_at(a, a, 0));
    assert(matches_at(a, Seq::empty(), 0));
}

/// Two trigrams are the same number exactly where their three bytes are the same,
/// but for case; every trigram is below 2 to the 24th.
pub proof fn trigrams_tell_bytes_apart(a: Seq<u8>, i: int, b: Seq<u8>, j: int)
    requires
        0 <= i,
        i + 3 <= a.len(),
        0 <= j,
        j + 3 <= b.len(),
    ensures
        gram_at(a, i) == gram_at(b, j) <==> same_but_for_case(a[i], b[j]) && same_but_for_case(
            a[i + 1],
            b[j + 1],
        ) && same_but_for_case(a[i + 2], b[j + 2]),
        0 <= gram_at(a, i) < 0x100_0000,
        has_gram(a, gram_at(a, i)),
{
    bytes_fold_alike_in_either_case(a[i], b[j]);
    bytes_fold_alike_in_either_case(a[i + 1], b[j + 1]);
    bytes_fold_alike_in_either_case(a[i + 2], b[j + 2]);
}

/// Three bytes have one trigram, made of what they fold to, and fewer have none.
pub proof fn three_bytes_have_one_trigram(s: Seq<u8>, gram: int)
    requires
        s.len() <= 3,
    ensures
        has_gram(s, gram) <==> s.len() == 3 && gram == lower(s[0]) * 65536 + lower(s[1]) * 256
            + lower(s[2]),
{
    if s.len() == 3 {
        assert(gram_at(s, 0) == lower(s[0]) * 65536 + lower(s[1]) * 256 + lower(s[2]));
    }
}

/// The run of three bytes at `i` has the trigram.
pub open spec fn run_has_gram(s: Seq<u8>, i: int, gram: int) -> bool {
    0 <= i <= s.len() - 3 && has_gram(s.subrange(i, i + 3), gram)
}

/// The trigrams of a string are those of its runs of three bytes, from the first to
/// the last.
pub proof fn trigrams_are_those_of_the_runs(s: Seq<u8>, gram: int)
    ensures
        has_gram(s, gram) <==> exists|i: int| #[trigger] run_has_gram(s, i, gram),
{
    if has_gram(s, gram) {
        let i = choose|i: int| 0 <= i && i + 3 <= s.len() && #[trigger] gram_at(s, i) == gram;
        assert(gram_at(s.subrange(i, i + 3), 0) == gram);
        assert(run_has_gram(s, i, gram));
    }
    if exists|i: int| #[trigger] run_has_gram(s, i, gram) {
        let i = choose|i: int| #[trigger] run_has_gram(s, i, gram);
        three_bytes_have_one_trigram(s.subrange(i, i + 3), gram);
        assert(gram_at(s, i) == gram);
    }
}

} // verus!
