//! A relation as the geometry of its members, through the relations that it
//! contains.

use crate::geometry::{in_polygon, point_in_polygon, Point};
use crate::lines::{
    is_line_distance, line_touches, way_distance, way_in_polygon, way_points,
};
use crate::osm::{Member, Osm};
use crate::query::EntityType;
use crate::segments::point_distance;
use crate::spatial::{dist_sq, node_point};
use crate::wide::{lemma_ratio_chain, lemma_ratio_total, Ratio};
use vstd::prelude::*;

verus! {

/// The member names relation `c`.
pub open spec fn names_relation(member: Member, c: int) -> bool {
    member.kind == EntityType::Relation && match member.idx {
        Some(i) => i == c,
        None => false,
    }
}

/// Relation `c` is a member of relation `r`.
pub open spec fn contains_relation(parent: &Osm, r: int, c: int) -> bool {
    exists|m: int|
        0 <= m < parent.relation_members@[r]@.len() && names_relation(
            #[trigger] parent.relation_members@[r]@[m],
            c,
        )
}

/// Each relation of the path is a member of the one before it.
pub open spec fn is_path(parent: &Osm, path: Seq<int>) -> bool {
    &&& path.len() > 0
    &&& forall|i: int|
        0 <= i < path.len() - 1 ==> #[trigger] steps(parent, path, i)
}

/// The relation behind place `i` is a member of the one at it.
pub open spec fn steps(parent: &Osm, path: Seq<int>, i: int) -> bool {
    contains_relation(parent, path[i], path[i + 1])
}

/// Relation `c` is `r`, or is reached from it through relation members.
pub open spec fn reaches(parent: &Osm, r: int, c: int) -> bool {
    exists|path: Seq<int>| #[trigger]
        is_path(parent, path) && path.first() == r && path.last() == c
}

proof fn lemma_reaches_self(parent: &Osm, r: int)
    ensures
        reaches(parent, r, r),
{
    let path = seq![r];
    assert(is_path(parent, path));
}

proof fn lemma_reaches_step(parent: &Osm, r: int, c: int, d: int)
    requires
        reaches(parent, r, c),
        contains_relation(parent, c, d),
    ensures
        reaches(parent, r, d),
{
    let path = choose|path: Seq<int>| #[trigger]
        is_path(parent, path) && path.first() == r && path.last() == c;
    let longer = path.push(d);
    assert forall|i: int| 0 <= i < longer.len() - 1 implies #[trigger] steps(
        parent,
        longer,
        i,
    ) by {
        if i < path.len() - 1 {
            assert(steps(parent, path, i));
        }
    }
    assert(is_path(parent, longer));
    assert(longer.first() == r && longer.last() == d);
}

/// How many of the marks are set.
spec fn marked(seen: Seq<bool>) -> nat
    decreases seen.len(),
{
    if seen.len() == 0 {
        0
    } else {
        marked(seen.drop_last()) + if seen.last() {
            1nat
        } else {
            0
        }
    }
}

proof fn lemma_marked_bound(seen: Seq<bool>)
    ensures
        marked(seen) <= seen.len(),
    decreases seen.len(),
{
    if seen.len() > 0 {
        lemma_marked_bound(seen.drop_last());
    }
}

proof fn lemma_marked_set(seen: Seq<bool>, i: int)
    requires
        0 <= i < seen.len(),
        !seen[i],
    ensures
        marked(seen.update(i, true)) == marked(seen) + 1,
    decreases seen.len(),
{
    let next = seen.update(i, true);
    if i < seen.len() - 1 {
        lemma_marked_set(seen.drop_last(), i);
        assert(next.drop_last() =~= seen.drop_last().update(i, true));
    } else {
        assert(next.drop_last() =~= seen.drop_last());
    }
}

proof fn lemma_marked_none(seen: Seq<bool>)
    requires
        forall|i: int| 0 <= i < seen.len() ==> !seen[i],
    ensures
        marked(seen) == 0,
    decreases seen.len(),
{
    if seen.len() > 0 {
        lemma_marked_none(seen.drop_last());
    }
}

/// What was found, and what of it is marked.
spec fn found_ok(parent: &Osm, r: int, found: Seq<usize>, seen: Seq<bool>) -> bool {
    &&& seen.len() == parent.relations.len()
    &&& found.len() == marked(seen)
    &&& found.len() > 0
    &&& found[0] == r
    &&& forall|i: int|
        0 <= i < found.len() ==> (#[trigger] found[i]) < seen.len() && seen[found[i] as int]
            && reaches(parent, r, found[i] as int)
    &&& forall|c: usize| c < seen.len() && #[trigger] seen[c as int] ==> found.contains(c)
}

/// The relation members among the first `n` members of `c` are marked.
spec fn members_seen(parent: &Osm, c: int, n: int, seen: Seq<bool>) -> bool {
    forall|m: int|
        0 <= m < n ==> member_seen(#[trigger] parent.relation_members@[c]@[m], seen)
}

spec fn member_seen(member: Member, seen: Seq<bool>) -> bool {
    member.kind == EntityType::Relation ==> match member.idx {
        Some(i) => seen[i as int],
        None => true,
    }
}

/// Marks are only ever set.
spec fn only_set(before: Seq<bool>, after: Seq<bool>) -> bool {
    &&& before.len() == after.len()
    &&& forall|i: int| 0 <= i < before.len() && before[i] ==> #[trigger] after[i]
}

/// Every relation that `r` reaches, itself among them.
pub fn reachable(parent: &Osm, r: usize) -> (out: Vec<usize>)
    requires
        parent.wf(),
        r < parent.relations.len(),
    ensures
        forall|c: usize| #[trigger]
            out@.contains(c) <==> c < parent.relations.len() && reaches(
                parent,
                r as int,
                c as int,
            ),
{
    let n: usize = parent.relations.len();
    let mut seen: Vec<bool> = Vec::new();
    let mut k: usize = 0;
    while k < n
        invariant
            k <= n,
            seen@.len() == k,
            forall|i: int| 0 <= i < k ==> !seen@[i],
        decreases n - k,
    {
        seen.push(false);
        k = k + 1;
    }
    let mut found: Vec<usize> = Vec::new();
    found.push(r);
    proof {
        lemma_marked_none(seen@);
        lemma_marked_set(seen@, r as int);
        lemma_reaches_self(parent, r as int);
    }
    seen.set(r, true);
    proof {
        assert(found@[0] == r);
        assert(found_ok(parent, r as int, found@, seen@));
    }
    let mut i: usize = 0;
    while i < found.len()
        invariant
            parent.wf(),
            n == parent.relations.len(),
            r < n,
            i <= found@.len() <= n,
            found_ok(parent, r as int, found@, seen@),
            forall|j: int|
                0 <= j < i ==> members_seen(
                    parent,
                    (#[trigger] found@[j]) as int,
                    parent.relation_members@[found@[j] as int]@.len() as int,
                    seen@,
                ),
        decreases n - i,
    {
        let c: usize = found[i];
        let members = &parent.relation_members[c];
        let ghost found_before = found@;
        let ghost seen_before = seen@;
        let mut m: usize = 0;
        while m < members.len()
            invariant
                parent.wf(),
                n == parent.relations.len(),
                c < n,
                r < n,
                members@ == parent.relation_members@[c as int]@,
                m <= members@.len(),
                found@.len() <= n,
                found_ok(parent, r as int, found@, seen@),
                only_set(seen_before, seen@),
                found_before.len() <= found@.len(),
                forall|j: int| 0 <= j < found_before.len() ==> found@[j] == found_before[j],
                members_seen(parent, c as int, m as int, seen@),
                reaches(parent, r as int, c as int),
            decreases members@.len() - m,
        {
            let member = members[m];
            let ghost (found_now, seen_now) = (found@, seen@);
            proof {
                assert(parent.member_ok(parent.relation_members@[c as int]@[m as int]));
            }
            if let EntityType::Relation = member.kind {
                if let Some(idx) = member.idx {
                    if !seen[idx as usize] {
                        seen.set(idx as usize, true);
                        found.push(idx as usize);
                        proof {
                            lemma_marked_set(seen_now, idx as int);
                            lemma_marked_bound(seen@);
                            assert(names_relation(
                                parent.relation_members@[c as int]@[m as int],
                                idx as int,
                            ));
                            lemma_reaches_step(parent, r as int, c as int, idx as int);
                            assert(found@[found_now.len() as int] == idx as usize);
                            assert forall|d: usize|
                                d < seen@.len() && #[trigger] seen@[d as int] implies found@.contains(
                                d,
                            ) by {
                                if d != idx as usize {
                                    assert(seen_now[d as int]);
                                    let j = choose|j: int|
                                        0 <= j < found_now.len() && found_now[j] == d;
                                    assert(found@[j] == d);
                                }
                            }
                        }
                    }
                }
            }
            proof {
                lemma_members_seen_stay(parent, c as int, m as int, seen_now, seen@);
                assert(only_set(seen_before, seen@)) by {
                    assert forall|x: int| 0 <= x < seen_before.len() && seen_before[x] implies
                        #[trigger] seen@[x] by {
                        assert(seen_now[x]);
                    }
                }
            }
            m = m + 1;
        }
        proof {
            assert forall|j: int| 0 <= j < i + 1 implies members_seen(
                parent,
                (#[trigger] found@[j]) as int,
                parent.relation_members@[found@[j] as int]@.len() as int,
                seen@,
            ) by {
                assert(found@[j] == found_before[j]);
                if j < i {
                    lemma_members_seen_stay(
                        parent,
                        found_before[j] as int,
                        parent.relation_members@[found_before[j] as int]@.len() as int,
                        seen_before,
                        seen@,
                    );
                }
            }
        }
        i = i + 1;
    }
    proof {
        assert forall|c: usize| #[trigger] found@.contains(c) <==> c < parent.relations.len()
            && reaches(parent, r as int, c as int) by {
            if found@.contains(c) {
                let j = choose|j: int| 0 <= j < found@.len() && found@[j] == c;
            }
            if c < parent.relations.len() && reaches(parent, r as int, c as int) {
                let path = choose|path: Seq<int>| #[trigger]
                    is_path(parent, path) && path.first() == r && path.last() == c;
                lemma_path_seen(parent, r as int, found@, seen@, path, path.len() - 1);
            }
        }
    }
    found
}

proof fn lemma_members_seen_stay(
    parent: &Osm,
    c: int,
    n: int,
    before: Seq<bool>,
    after: Seq<bool>,
)
    requires
        parent.wf(),
        before.len() == parent.relations.len(),
        0 <= c < parent.relation_members@.len(),
        0 <= n <= parent.relation_members@[c]@.len(),
        members_seen(parent, c, n, before),
        only_set(before, after),
    ensures
        members_seen(parent, c, n, after),
{
    assert forall|m: int| 0 <= m < n implies member_seen(
        #[trigger] parent.relation_members@[c]@[m],
        after,
    ) by {
        assert(member_seen(parent.relation_members@[c]@[m], before));
        assert(parent.member_ok(parent.relation_members@[c]@[m]));
    }
}

/// Whatever a path from `r` comes to was found.
proof fn lemma_path_seen(
    parent: &Osm,
    r: int,
    found: Seq<usize>,
    seen: Seq<bool>,
    path: Seq<int>,
    i: int,
)
    requires
        parent.wf(),
        found_ok(parent, r, found, seen),
        forall|j: int|
            0 <= j < found.len() ==> members_seen(
                parent,
                (#[trigger] found[j]) as int,
                parent.relation_members@[found[j] as int]@.len() as int,
                seen,
            ),
        is_path(parent, path),
        path.first() == r,
        0 <= i < path.len(),
    ensures
        0 <= path[i] < seen.len(),
        seen[path[i]],
        found.contains(path[i] as usize),
    decreases i,
{
    if i == 0 {
        assert(seen[found[0] as int]);
    } else {
        lemma_path_seen(parent, r, found, seen, path, i - 1);
        assert(steps(parent, path, i - 1));
        let c = path[i - 1];
        let j = choose|j: int| 0 <= j < found.len() && found[j] == c as usize;
        assert(found[j] as int == c);
        let m = choose|m: int|
            0 <= m < parent.relation_members@[c]@.len() && names_relation(
                #[trigger] parent.relation_members@[c]@[m],
                path[i],
            );
        assert(member_seen(parent.relation_members@[c]@[m], seen));
        assert(parent.member_ok(parent.relation_members@[c]@[m]));
    }
}

/// `d` is the squared distance from `p` to the member node or way.
pub open spec fn member_distance(parent: &Osm, member: Member, p: Point, d: Ratio) -> bool {
    match (member.kind, member.idx) {
        (EntityType::Node, Some(n)) => d.wf() && d.num.val() == dist_sq(
            p,
            node_point(parent.nodes@[n as int]),
        ) && d.den == 1,
        (EntityType::Way, Some(w)) => is_line_distance(way_points(parent, w as int), p, d),
        _ => false,
    }
}

/// `d` is the squared distance from `p` to one of the first `n` members of `c`.
pub open spec fn members_have(parent: &Osm, c: int, n: int, p: Point, d: Ratio) -> bool {
    exists|m: int|
        0 <= m < n && member_distance(parent, #[trigger] parent.relation_members@[c]@[m], p, d)
}

/// `d` is the squared distance from `p` to some member node or way of a relation
/// that `r` reaches.
pub open spec fn relation_has(parent: &Osm, r: int, p: Point, d: Ratio) -> bool {
    exists|c: int|
        0 <= c < parent.relations.len() && #[trigger] reaches(parent, r, c) && members_have(
            parent,
            c,
            parent.relation_members@[c]@.len() as int,
            p,
            d,
        )
}

/// `d` is the squared distance from `p` to the relation: that to its nearest
/// member geometry.
pub open spec fn is_relation_distance(parent: &Osm, r: int, p: Point, d: Ratio) -> bool {
    &&& relation_has(parent, r, p, d)
    &&& forall|e: Ratio| #[trigger] relation_has(parent, r, p, e) ==> d.at_most(e)
}

/// `out` is the least of what `has` holds of, or nothing where it holds of none.
spec fn is_least(out: Option<Ratio>, has: spec_fn(Ratio) -> bool) -> bool {
    match out {
        Some(d) => d.wf() && has(d) && forall|e: Ratio| #[trigger] has(e) ==> d.at_most(e),
        None => forall|e: Ratio| !#[trigger] has(e),
    }
}

/// The nearer of two, where there are any.
fn nearer_of(a: Option<Ratio>, b: Option<Ratio>) -> (out: Option<Ratio>)
    requires
        a matches Some(d) ==> d.wf(),
        b matches Some(d) ==> d.wf(),
    ensures
        out is Some <==> a is Some || b is Some,
        out matches Some(d) ==> d.wf() && (a == Some(d) || b == Some(d)),
        out matches Some(d) ==> (a matches Some(x) ==> d.at_most(x)),
        out matches Some(d) ==> (b matches Some(x) ==> d.at_most(x)),
{
    match (a, b) {
        (Some(x), Some(y)) => Some(x.least(y)),
        (Some(x), None) => {
            proof {
                lemma_ratio_total(x, x);
            }
            Some(x)
        },
        (None, Some(y)) => {
            proof {
                lemma_ratio_total(y, y);
            }
            Some(y)
        },
        (None, None) => None,
    }
}

/// The least of two collections is the nearer of their leasts.
proof fn lemma_least_of_both(
    a: Option<Ratio>,
    b: Option<Ratio>,
    out: Option<Ratio>,
    has_a: spec_fn(Ratio) -> bool,
    has_b: spec_fn(Ratio) -> bool,
    has: spec_fn(Ratio) -> bool,
)
    requires
        is_least(a, has_a),
        is_least(b, has_b),
        forall|e: Ratio| #[trigger] has(e) <==> has_a(e) || has_b(e),
        forall|e: Ratio| #[trigger] has(e) ==> e.wf(),
        out is Some <==> a is Some || b is Some,
        out matches Some(d) ==> d.wf() && (a == Some(d) || b == Some(d)),
        out matches Some(d) ==> (a matches Some(x) ==> d.at_most(x)),
        out matches Some(d) ==> (b matches Some(x) ==> d.at_most(x)),
    ensures
        is_least(out, has),
{
    match out {
        Some(d) => {
            if a == Some(d) {
                assert(has_a(d));
            } else {
                assert(has_b(d));
            }
            assert(has(d));
            assert forall|e: Ratio| #[trigger] has(e) implies d.at_most(e) by {
                if has_a(e) {
                    lemma_ratio_chain(d, a->0, e);
                } else {
                    lemma_ratio_chain(d, b->0, e);
                }
            }
        },
        None => {
            assert forall|e: Ratio| !#[trigger] has(e) by {
                assert(!has_a(e) && !has_b(e));
            }
        },
    }
}

/// The squared distance from `p` to a member node or way.
fn distance_to_member(parent: &Osm, member: Member, p: Point) -> (out: Option<Ratio>)
    requires
        parent.wf(),
        parent.member_ok(member),
    ensures
        is_least(out, |d: Ratio| member_distance(parent, member, p, d)),
{
    let ghost has = |d: Ratio| member_distance(parent, member, p, d);
    let idx: u64 = match member.idx {
        Some(idx) => idx,
        None => {
            return None;
        },
    };
    match member.kind {
        EntityType::Node => {
            let node = parent.nodes[idx as usize];
            let d = point_distance(p, Point { lon: node.lon, lat: node.lat });
            proof {
                assert(has(d));
                assert forall|e: Ratio| #[trigger] has(e) implies d.at_most(e) by {
                    lemma_ratio_total(d, e);
                    assert(d.num.val() == e.num.val() && d.den == e.den);
                }
            }
            Some(d)
        },
        EntityType::Way => {
            let out = way_distance(parent, idx as usize, p);
            proof {
                let line = way_points(parent, idx as int);
                if out is Some {
                    assert(has(out->0));
                    assert forall|e: Ratio| #[trigger] has(e) implies (out->0).at_most(e) by {
                        assert(crate::lines::line_has(line, p, e));
                    }
                } else {
                    assert forall|e: Ratio| !#[trigger] has(e) by {
                    }
                }
            }
            out
        },
        EntityType::Relation => None,
    }
}

/// The squared distance from `p` to the nearest member node or way of `c`.
fn distance_to_members(parent: &Osm, c: usize, p: Point) -> (out: Option<Ratio>)
    requires
        parent.wf(),
        c < parent.relations.len(),
    ensures
        is_least(
            out,
            |d: Ratio|
                members_have(
                    parent,
                    c as int,
                    parent.relation_members@[c as int]@.len() as int,
                    p,
                    d,
                ),
        ),
{
    let members = &parent.relation_members[c];
    let mut best: Option<Ratio> = None;
    let mut m: usize = 0;
    proof {
        assert(is_least(best, |d: Ratio| members_have(parent, c as int, 0, p, d)));
    }
    while m < members.len()
        invariant
            parent.wf(),
            c < parent.relations.len(),
            members@ == parent.relation_members@[c as int]@,
            m <= members@.len(),
            is_least(best, |d: Ratio| members_have(parent, c as int, m as int, p, d)),
        decreases members@.len() - m,
    {
        let ghost member = parent.relation_members@[c as int]@[m as int];
        proof {
            assert(parent.member_ok(member));
        }
        let ghost before = best;
        let next = distance_to_member(parent, members[m], p);
        best = nearer_of(best, next);
        proof {
            let has_a = |d: Ratio| members_have(parent, c as int, m as int, p, d);
            let has_b = |d: Ratio| member_distance(parent, member, p, d);
            let has = |d: Ratio| members_have(parent, c as int, m + 1, p, d);
            assert forall|e: Ratio| #[trigger] has(e) <==> has_a(e) || has_b(e) by {
                lemma_members_have_step(parent, c as int, m as int, p, e);
            }
            assert forall|e: Ratio| #[trigger] has(e) implies e.wf() by {
                lemma_members_have_wf(parent, c as int, m + 1, p, e);
            }
            lemma_least_of_both(before, next, best, has_a, has_b, has);
        }
        m = m + 1;
    }
    best
}

proof fn lemma_members_have_step(parent: &Osm, c: int, m: int, p: Point, d: Ratio)
    requires
        0 <= m,
    ensures
        members_have(parent, c, m + 1, p, d) <==> members_have(parent, c, m, p, d)
            || member_distance(parent, parent.relation_members@[c]@[m], p, d),
{
    if members_have(parent, c, m, p, d) {
        let k = choose|k: int|
            0 <= k < m && member_distance(parent, #[trigger] parent.relation_members@[c]@[k], p, d);
        assert(0 <= k < m + 1 && member_distance(
            parent,
            parent.relation_members@[c]@[k],
            p,
            d,
        ));
    }
}

proof fn lemma_members_have_wf(parent: &Osm, c: int, n: int, p: Point, d: Ratio)
    requires
        members_have(parent, c, n, p, d),
    ensures
        d.wf(),
{
}

/// `d` is the squared distance from `p` to a member of one of `found`.
spec fn found_have(parent: &Osm, found: Seq<usize>, p: Point, d: Ratio) -> bool {
    exists|i: int|
        0 <= i < found.len() && members_have(
            parent,
            (#[trigger] found[i]) as int,
            parent.relation_members@[found[i] as int]@.len() as int,
            p,
            d,
        )
}

/// The squared distance from `p` to a relation; `None` where none of its members
/// has a place.
pub fn relation_distance(parent: &Osm, r: usize, p: Point) -> (out: Option<Ratio>)
    requires
        parent.wf(),
        r < parent.relations.len(),
    ensures
        match out {
            Some(d) => d.wf() && is_relation_distance(parent, r as int, p, d),
            None => forall|d: Ratio| !#[trigger] relation_has(parent, r as int, p, d),
        },
{
    let found = reachable(parent, r);
    let mut best: Option<Ratio> = None;
    let mut i: usize = 0;
    proof {
        assert(is_least(best, |d: Ratio| found_have(parent, found@.take(0), p, d)));
        assert forall|k: int| 0 <= k < found@.len() implies (#[trigger] found@[k])
            < parent.relations.len() by {
            assert(found@.contains(found@[k]));
        }
    }
    while i < found.len()
        invariant
            parent.wf(),
            i <= found@.len(),
            forall|k: int| 0 <= k < found@.len() ==> (#[trigger] found@[k]) < parent.relations.len(),
            is_least(best, |d: Ratio| found_have(parent, found@.take(i as int), p, d)),
        decreases found@.len() - i,
    {
        let ghost before = best;
        let c: usize = found[i];
        let next = distance_to_members(parent, c, p);
        best = nearer_of(best, next);
        proof {
            let n = parent.relation_members@[c as int]@.len() as int;
            let has_a = |d: Ratio| found_have(parent, found@.take(i as int), p, d);
            let has_b = |d: Ratio| members_have(parent, c as int, n, p, d);
            let has = |d: Ratio| found_have(parent, found@.take(i + 1), p, d);
            assert forall|e: Ratio| #[trigger] has(e) <==> has_a(e) || has_b(e) by {
                lemma_found_have_step(parent, found@, i as int, p, e);
            }
            assert forall|e: Ratio| #[trigger] has(e) implies e.wf() by {
            }
            lemma_least_of_both(before, next, best, has_a, has_b, has);
        }
        i = i + 1;
    }
    proof {
        assert(found@.take(i as int) =~= found@);
        let has = |d: Ratio| found_have(parent, found@, p, d);
        assert forall|d: Ratio| #[trigger] relation_has(parent, r as int, p, d) <==> has(d) by {
            if relation_has(parent, r as int, p, d) {
                let c = choose|c: int|
                    0 <= c < parent.relations.len() && #[trigger] reaches(parent, r as int, c)
                        && members_have(
                        parent,
                        c,
                        parent.relation_members@[c]@.len() as int,
                        p,
                        d,
                    );
                assert(found@.contains(c as usize));
                let k = choose|k: int| 0 <= k < found@.len() && found@[k] == c as usize;
                assert(found@[k] as int == c);
            }
            if found_have(parent, found@, p, d) {
                let k = choose|k: int|
                    0 <= k < found@.len() && members_have(
                        parent,
                        (#[trigger] found@[k]) as int,
                        parent.relation_members@[found@[k] as int]@.len() as int,
                        p,
                        d,
                    );
                assert(found@.contains(found@[k]));
                assert(reaches(parent, r as int, found@[k] as int));
            }
        }
        if best is Some {
            assert(has(best->0));
            assert forall|e: Ratio| #[trigger] relation_has(parent, r as int, p, e) implies (
            best->0).at_most(e) by {
                assert(has(e));
            }
        }
    }
    best
}

proof fn lemma_found_have_step(parent: &Osm, found: Seq<usize>, i: int, p: Point, d: Ratio)
    requires
        0 <= i < found.len(),
    ensures
        found_have(parent, found.take(i + 1), p, d) <==> found_have(parent, found.take(i), p, d)
            || members_have(
            parent,
            found[i] as int,
            parent.relation_members@[found[i] as int]@.len() as int,
            p,
            d,
        ),
{
    let (fewer, more) = (found.take(i), found.take(i + 1));
    if found_have(parent, fewer, p, d) {
        let k = choose|k: int|
            0 <= k < fewer.len() && members_have(
                parent,
                (#[trigger] fewer[k]) as int,
                parent.relation_members@[fewer[k] as int]@.len() as int,
                p,
                d,
            );
        assert(more[k] == fewer[k]);
    }
    if found_have(parent, more, p, d) {
        let k = choose|k: int|
            0 <= k < more.len() && members_have(
                parent,
                (#[trigger] more[k]) as int,
                parent.relation_members@[more[k] as int]@.len() as int,
                p,
                d,
            );
        if k < i {
            assert(fewer[k] == more[k]);
        }
    }
    if members_have(
        parent,
        found[i] as int,
        parent.relation_members@[found[i] as int]@.len() as int,
        p,
        d,
    ) {
        assert(more[i] == found[i]);
    }
}

/// The member node lies in the polygon, or the member way touches it.
pub open spec fn member_touches(parent: &Osm, member: Member, ring: Seq<Point>) -> bool {
    match (member.kind, member.idx) {
        (EntityType::Node, Some(n)) => in_polygon(node_point(parent.nodes@[n as int]), ring),
        (EntityType::Way, Some(w)) => line_touches(way_points(parent, w as int), ring),
        _ => false,
    }
}

/// A member of `c` touches the polygon.
pub open spec fn members_touch(parent: &Osm, c: int, ring: Seq<Point>) -> bool {
    exists|m: int|
        0 <= m < parent.relation_members@[c]@.len() && member_touches(
            parent,
            #[trigger] parent.relation_members@[c]@[m],
            ring,
        )
}

/// A member of a relation that `r` reaches touches the polygon.
pub open spec fn relation_touches(parent: &Osm, r: int, ring: Seq<Point>) -> bool {
    exists|c: int|
        0 <= c < parent.relations.len() && #[trigger] reaches(parent, r, c) && members_touch(
            parent,
            c,
            ring,
        )
}

/// Whether a member of `c` touches the polygon.
fn members_in_polygon(parent: &Osm, c: usize, ring: &[Point]) -> (out: bool)
    requires
        parent.wf(),
        c < parent.relations.len(),
    ensures
        out == members_touch(parent, c as int, ring@),
{
    let members = &parent.relation_members[c];
    let mut m: usize = 0;
    while m < members.len()
        invariant
            parent.wf(),
            c < parent.relations.len(),
            members@ == parent.relation_members@[c as int]@,
            m <= members@.len(),
            forall|k: int|
                0 <= k < m ==> !member_touches(
                    parent,
                    #[trigger] parent.relation_members@[c as int]@[k],
                    ring@,
                ),
        decreases members@.len() - m,
    {
        let member = members[m];
        proof {
            assert(parent.member_ok(parent.relation_members@[c as int]@[m as int]));
        }
        let touches = match (member.kind, member.idx) {
            (EntityType::Node, Some(n)) => {
                let node = parent.nodes[n as usize];
                point_in_polygon(Point { lon: node.lon, lat: node.lat }, ring)
            },
            (EntityType::Way, Some(w)) => way_in_polygon(parent, w as usize, ring),
            _ => false,
        };
        if touches {
            proof {
                assert(member_touches(
                    parent,
                    parent.relation_members@[c as int]@[m as int],
                    ring@,
                ));
            }
            return true;
        }
        m = m + 1;
    }
    false
}

/// Whether a part of the relation touches the polygon.
pub fn relation_in_polygon(parent: &Osm, r: usize, ring: &[Point]) -> (out: bool)
    requires
        parent.wf(),
        r < parent.relations.len(),
    ensures
        out == relation_touches(parent, r as int, ring@),
{
    let found = reachable(parent, r);
    let mut i: usize = 0;
    while i < found.len()
        invariant
            parent.wf(),
            i <= found@.len(),
            forall|c: usize| #[trigger]
                found@.contains(c) <==> c < parent.relations.len() && reaches(
                    parent,
                    r as int,
                    c as int,
                ),
            forall|k: int|
                0 <= k < i ==> !members_touch(parent, (#[trigger] found@[k]) as int, ring@),
        decreases found@.len() - i,
    {
        proof {
            assert(found@.contains(found@[i as int]));
        }
        if members_in_polygon(parent, found[i], ring) {
            proof {
                assert(reaches(parent, r as int, found@[i as int] as int));
            }
            return true;
        }
        i = i + 1;
    }
    proof {
        if relation_touches(parent, r as int, ring@) {
            let c = choose|c: int|
                0 <= c < parent.relations.len() && #[trigger] reaches(parent, r as int, c)
                    && members_touch(parent, c, ring@);
            assert(found@.contains(c as usize));
            let k = choose|k: int| 0 <= k < found@.len() && found@[k] == c as usize;
            assert(!members_touch(parent, found@[k] as int, ring@));
        }
    }
    false
}

} // verus!
