//! Strings of a flatdata string table and their order.

use vstd::prelude::*;

verus! {

/// Where the string that starts at `start` ends: at the next NUL byte, or at
/// the end of the table.
pub open spec fn string_end(table: Seq<u8>, start: int) -> int
    decreases table.len() - start,
{
    if start < 0 || start >= table.len() || table[start] == 0 {
        start
    } else {
        string_end(table, start + 1)
    }
}

/// The NUL-terminated string at `start`, without its terminator.
pub open spec fn string_at(table: Seq<u8>, start: int) -> Seq<u8> {
    if 0 <= start <= table.len() {
        table.subrange(start, string_end(table, start))
    } else {
        Seq::empty()
    }
}

/// A string ends at the first NUL byte from its start.
pub proof fn lemma_string_end(table: Seq<u8>, start: int, end: int)
    requires
        0 <= start <= end < table.len(),
        table[end] == 0,
        forall|i: int| start <= i < end ==> table[i] != 0,
    ensures
        string_end(table, start) == end,
    decreases end - start,
{
    if start < end {
        assert(table[start] != 0);
        lemma_string_end(table, start + 1, end);
    }
}

/// [`flatdata::RawData::substring_raw`]: the bytes of `table` from `start` up to
/// the next NUL byte, or up to the end where there is none. It slices the table
/// from `start`, so `start` may be at most the table's length.
#[verifier::external_body]
pub(crate) fn substring_raw(table: &[u8], start: usize) -> (out: &[u8])
    requires
        start <= table@.len(),
    ensures
        out@ == string_at(table@, start as int),
{
    flatdata::RawData::new(table).substring_raw(start)
}

/// `a` comes no later than `b` in byte order.
pub open spec fn lex_le(a: Seq<u8>, b: Seq<u8>) -> bool
    decreases a.len(),
{
    if a.len() == 0 {
        true
    } else if b.len() == 0 {
        false
    } else if a[0] != b[0] {
        a[0] < b[0]
    } else {
        lex_le(a.skip(1), b.skip(1))
    }
}

/// `a` comes before `b` in byte order.
pub open spec fn lex_lt(a: Seq<u8>, b: Seq<u8>) -> bool {
    lex_le(a, b) && a != b
}

pub proof fn lemma_lex_total(a: Seq<u8>, b: Seq<u8>)
    ensures
        lex_le(a, b) || lex_le(b, a),
        lex_le(a, b) && lex_le(b, a) ==> a == b,
        lex_le(a, a),
        lex_lt(a, b) <==> !lex_le(b, a),
    decreases a.len(),
{
    if a.len() > 0 && b.len() > 0 {
        lemma_lex_total(a.skip(1), b.skip(1));
        lemma_lex_total(a.skip(1), a.skip(1));
        if lex_le(a, b) && lex_le(b, a) {
            assert(a =~= seq![a[0]] + a.skip(1));
            assert(b =~= seq![b[0]] + b.skip(1));
        }
        if a[0] == b[0] && a.skip(1) == b.skip(1) {
            assert(a =~= seq![a[0]] + a.skip(1));
            assert(b =~= seq![b[0]] + b.skip(1));
        }
    } else if a.len() > 0 {
        lemma_lex_total(a.skip(1), a.skip(1));
    } else {
        if lex_le(b, a) {
            assert(a =~= b);
        }
    }
}

pub proof fn lemma_lex_chain(a: Seq<u8>, b: Seq<u8>, c: Seq<u8>)
    requires
        lex_le(a, b),
        lex_le(b, c),
    ensures
        lex_le(a, c),
    decreases a.len(),
{
    if a.len() > 0 {
        if a[0] == b[0] && b[0] == c[0] {
            lemma_lex_chain(a.skip(1), b.skip(1), c.skip(1));
        }
    }
}

/// What comes no later than an earlier string is earlier.
pub proof fn lemma_lex_lt_chain(a: Seq<u8>, b: Seq<u8>, c: Seq<u8>)
    requires
        lex_le(a, b),
        lex_lt(b, c),
    ensures
        lex_lt(a, c),
{
    lemma_lex_chain(a, b, c);
    lemma_lex_total(a, c);
    lemma_lex_total(b, c);
    if a == c {
        lemma_lex_total(b, a);
    }
}

/// Two byte strings, compared.
pub enum Compared {
    Less,
    Same,
    Greater,
}

/// Compare two byte strings in byte order.
pub fn compare(a: &[u8], b: &[u8]) -> (out: Compared)
    ensures
        out is Less <==> lex_lt(a@, b@),
        out is Same <==> a@ == b@,
        out is Greater <==> lex_lt(b@, a@),
{
    let mut i: usize = 0;
    proof {
        assert(a@.skip(0) =~= a@);
        assert(b@.skip(0) =~= b@);
        lemma_lex_total(a@, b@);
        lemma_lex_total(b@, a@);
    }
    while i < a.len() && i < b.len()
        invariant
            i <= a@.len(),
            i <= b@.len(),
            lex_le(a@, b@) == lex_le(a@.skip(i as int), b@.skip(i as int)),
            lex_le(b@, a@) == lex_le(b@.skip(i as int), a@.skip(i as int)),
            a@ == b@ <==> a@.skip(i as int) == b@.skip(i as int),
            lex_lt(a@, b@) <==> !lex_le(b@, a@),
            lex_lt(b@, a@) <==> !lex_le(a@, b@),
        decreases a@.len() - i,
    {
        let ghost (x, y) = (a@.skip(i as int), b@.skip(i as int));
        proof {
            assert(x[0] == a@[i as int]);
            assert(y[0] == b@[i as int]);
            assert(x.skip(1) =~= a@.skip(i + 1));
            assert(y.skip(1) =~= b@.skip(i + 1));
            assert(x =~= seq![x[0]] + x.skip(1));
            assert(y =~= seq![y[0]] + y.skip(1));
        }
        if a[i] < b[i] {
            return Compared::Less;
        }
        if a[i] > b[i] {
            return Compared::Greater;
        }
        i = i + 1;
    }
    proof {
        let (x, y) = (a@.skip(i as int), b@.skip(i as int));
        if x.len() == 0 && y.len() == 0 {
            assert(x =~= y);
        }
    }
    if i < b.len() {
        Compared::Less
    } else if i < a.len() {
        Compared::Greater
    } else {
        Compared::Same
    }
}

/// Whether two byte strings are equal.
pub fn same_bytes(a: &[u8], b: &[u8]) -> (out: bool)
    ensures
        out == (a@ == b@),
{
    match compare(a, b) {
        Compared::Same => true,
        _ => false,
    }
}

/// Whether `s` starts with `prefix`.
pub fn starts_with(s: &[u8], prefix: &[u8]) -> (out: bool)
    ensures
        out == prefix@.is_prefix_of(s@),
{
    if prefix.len() > s.len() {
        return false;
    }
    let mut i: usize = 0;
    while i < prefix.len()
        invariant
            i <= prefix@.len() <= s@.len(),
            forall|k: int| 0 <= k < i ==> prefix@[k] == s@[k],
        decreases prefix@.len() - i,
    {
        if prefix[i] != s[i] {
            proof {
                assert(s@.subrange(0, prefix@.len() as int)[i as int] == s@[i as int]);
            }
            return false;
        }
        i = i + 1;
    }
    proof {
        assert(prefix@ =~= s@.subrange(0, prefix@.len() as int));
    }
    true
}

/// By string, then by number.
pub open spec fn tie_le(x: Seq<u8>, i: u64, y: Seq<u8>, j: u64) -> bool {
    lex_lt(x, y) || (x == y && i <= j)
}

pub proof fn lemma_tie_le()
    ensures
        forall|x: Seq<u8>, i: u64, y: Seq<u8>, j: u64| #[trigger]
            tie_le(x, i, y, j) || tie_le(y, j, x, i),
        forall|x: Seq<u8>, i: u64, y: Seq<u8>, j: u64, z: Seq<u8>, k: u64| #[trigger]
            tie_le(x, i, y, j) && #[trigger] tie_le(y, j, z, k) ==> tie_le(x, i, z, k),
        forall|x: Seq<u8>, i: u64, y: Seq<u8>, j: u64| #[trigger]
            tie_le(x, i, y, j) && tie_le(y, j, x, i) ==> x == y && i == j,
{
    assert forall|x: Seq<u8>, i: u64, y: Seq<u8>, j: u64| #[trigger]
        tie_le(x, i, y, j) || tie_le(y, j, x, i) by {
        lemma_lex_total(x, y);
    }
    assert forall|x: Seq<u8>, i: u64, y: Seq<u8>, j: u64, z: Seq<u8>, k: u64| #[trigger]
        tie_le(x, i, y, j) && #[trigger] tie_le(y, j, z, k) implies tie_le(x, i, z, k) by {
        lemma_lex_total(x, y);
        lemma_lex_total(y, z);
        lemma_lex_chain(x, y, z);
        if x == z {
            lemma_lex_total(x, y);
        }
    }
    assert forall|x: Seq<u8>, i: u64, y: Seq<u8>, j: u64| #[trigger]
        tie_le(x, i, y, j) && tie_le(y, j, x, i) implies x == y && i == j by {
        lemma_lex_total(x, y);
        lemma_lex_total(y, x);
    }
}

/// Compare by string, then by number.
pub fn tie_leq(x: &[u8], i: u64, y: &[u8], j: u64) -> (out: bool)
    ensures
        out == tie_le(x@, i, y@, j),
{
    proof {
        lemma_lex_total(x@, y@);
    }
    match compare(x, y) {
        Compared::Less => true,
        Compared::Same => i <= j,
        Compared::Greater => false,
    }
}

/// A string comes no earlier than its prefixes.
pub proof fn lemma_prefix_le(prefix: Seq<u8>, s: Seq<u8>)
    requires
        prefix.is_prefix_of(s),
    ensures
        lex_le(prefix, s),
    decreases prefix.len(),
{
    if prefix.len() > 0 {
        let t = s.subrange(0, prefix.len() as int);
        assert(prefix[0] == t[0]);
        assert(prefix.skip(1) =~= s.skip(1).subrange(0, prefix.skip(1).len() as int)) by {
            assert forall|i: int| 0 <= i < prefix.skip(1).len() implies prefix.skip(1)[i]
                == s.skip(1)[i] by {
                assert(prefix[i + 1] == t[i + 1]);
            }
        }
        lemma_prefix_le(prefix.skip(1), s.skip(1));
    }
}

/// The strings with a prefix stand together: past one that comes after the
/// prefix without having it, none has it.
pub proof fn lemma_prefix_run(prefix: Seq<u8>, s: Seq<u8>, t: Seq<u8>)
    requires
        lex_le(prefix, s),
        !prefix.is_prefix_of(s),
        lex_le(s, t),
    ensures
        !prefix.is_prefix_of(t),
    decreases prefix.len(),
{
    if prefix.len() == 0 {
        assert(prefix =~= s.subrange(0, 0));
    } else if prefix.is_prefix_of(t) {
        let head = t.subrange(0, prefix.len() as int);
        assert(prefix[0] == head[0]);
        assert(prefix[0] == t[0]);
        // The first bytes agree, so the tails carry the argument.
        assert(s.len() > 0 && s[0] == prefix[0]);
        assert(prefix.skip(1) =~= t.skip(1).subrange(0, prefix.skip(1).len() as int)) by {
            assert forall|i: int| 0 <= i < prefix.skip(1).len() implies prefix.skip(1)[i]
                == t.skip(1)[i] by {
                assert(prefix[i + 1] == head[i + 1]);
            }
        }
        assert(!prefix.skip(1).is_prefix_of(s.skip(1))) by {
            if prefix.skip(1).is_prefix_of(s.skip(1)) {
                let tail = s.skip(1).subrange(0, prefix.skip(1).len() as int);
                assert(prefix =~= s.subrange(0, prefix.len() as int)) by {
                    assert forall|i: int| 0 <= i < prefix.len() implies prefix[i] == s[i] by {
                        if i > 0 {
                            assert(prefix.skip(1)[i - 1] == tail[i - 1]);
                        }
                    }
                }
            }
        }
        lemma_prefix_run(prefix.skip(1), s.skip(1), t.skip(1));
    }
}

} // verus!
