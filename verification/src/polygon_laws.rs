//! Which segments, exteriors and holes make up the polygons of a relation.

use crate::geometry::inside_ring;
use crate::multipolygon::{
    assembled_relation, gives_segment, hole_of, inner_role, named_nodes, polygon, polygons,
    positions, role_segments, vertices, way_nodes,
};
use crate::osm::{Member, Osm};
use crate::query::{lemma_filter_member, EntityType};
use crate::ring_laws::{
    all_keep_to_edges, assembly_makes_up_no_edge, keeps_to_edges, shares_end_nodes,
};
use crate::rings::{all_nonempty, assembled, split_all, Vertex};
use crate::strings::string_at;
use vstd::prelude::*;

verus! {

proof fn lemma_filter_keeps<T>(s: Seq<T>, p: spec_fn(T) -> bool, i: int)
    requires
        0 <= i < s.len(),
        p(s[i]),
    ensures
        s.filter(p).contains(s[i]),
    decreases s.len(),
{
    reveal(Seq::filter);
    let t = s.drop_last();
    if i < t.len() {
        lemma_filter_keeps(t, p, i);
        let k = choose|k: int| 0 <= k < t.filter(p).len() && t.filter(p)[k] == t[i];
        assert(s.filter(p)[k] == s[i]);
    } else {
        assert(s.filter(p).last() == s[i]);
        assert(s.filter(p)[s.filter(p).len() - 1] == s[i]);
    }
}

/// There is one polygon for each exterior, which comes first in it. A hole is in
/// the polygon of the first exterior that contains its first vertex, and in no
/// other.
pub proof fn a_hole_is_placed_in_the_first_exterior_around_it(
    outers: Seq<Seq<Vertex>>,
    holes: Seq<Seq<Vertex>>,
    i: int,
    hole: Seq<Vertex>,
)
    requires
        0 <= i < outers.len(),
    ensures
        polygons(outers, holes).len() == outers.len(),
        polygons(outers, holes)[i].first() == outers[i],
        polygons(outers, holes)[i].skip(1).contains(hole) <==> holes.contains(hole) && hole.len()
            > 0 && inside_ring(hole[0].at(), positions(outers[i])) && forall|j: int|
            0 <= j < i ==> !inside_ring(hole[0].at(), positions(#[trigger] outers[j])),
{
    let own = holes.filter(hole_of(outers, i));
    let list = polygon(outers, holes, i);
    assert(polygons(outers, holes)[i] == list);
    assert(list.skip(1) =~= own);
    assert(list.first() == outers[i]);
    if own.contains(hole) {
        let k = choose|k: int| 0 <= k < own.len() && own[k] == hole;
        lemma_filter_member(holes, hole_of(outers, i), k);
    }
    if holes.contains(hole) && hole_of(outers, i)(hole) {
        let k = choose|k: int| 0 <= k < holes.len() && holes[k] == hole;
        lemma_filter_keeps(holes, hole_of(outers, i), k);
    }
}

/// A hole that some exterior contains is in one polygon.
pub proof fn a_contained_hole_is_kept(
    outers: Seq<Seq<Vertex>>,
    holes: Seq<Seq<Vertex>>,
    hole: Seq<Vertex>,
    j: int,
)
    requires
        holes.contains(hole),
        hole.len() > 0,
        0 <= j < outers.len(),
        inside_ring(hole[0].at(), positions(outers[j])),
    ensures
        exists|i: int|
            0 <= i <= j && (#[trigger] polygons(outers, holes)[i]).skip(1).contains(hole),
    decreases j,
{
    if forall|m: int| 0 <= m < j ==> !inside_ring(hole[0].at(), positions(#[trigger] outers[m])) {
        a_hole_is_placed_in_the_first_exterior_around_it(outers, holes, j, hole);
        assert(polygons(outers, holes)[j].skip(1).contains(hole));
    } else {
        let m = choose|m: int|
            0 <= m < j && inside_ring(hole[0].at(), positions(#[trigger] outers[m]));
        a_contained_hole_is_kept(outers, holes, hole, m);
        let i = choose|i: int|
            0 <= i <= m && (#[trigger] polygons(outers, holes)[i]).skip(1).contains(hole);
        assert(polygons(outers, holes)[i].skip(1).contains(hole));
    }
}

/// A relation has one polygon for each piece of its assembled outer rings, which is
/// its exterior, and the open chains of its outer segments. A piece of an inner ring
/// is a hole of the first exterior that contains its first vertex.
pub proof fn a_relation_keeps_its_exteriors_and_holes<F: Fn(Vertex, Vertex) -> u64>(
    parent: &Osm,
    dist: F,
    rel_idx: int,
    i: int,
    hole: Seq<Vertex>,
)
    requires
        0 <= i < assembled_relation(parent, dist, rel_idx).0.len(),
    ensures
        ({
            let members = parent.relation_members@[rel_idx]@;
            let outer = assembled(dist, role_segments(parent, members, false));
            let inner = assembled(dist, role_segments(parent, members, true));
            let (list, open) = assembled_relation(parent, dist, rel_idx);
            &&& open == outer.1
            &&& list.len() == split_all(outer.0).len()
            &&& list[i].first() == split_all(outer.0)[i]
            &&& list[i].skip(1).contains(hole) <==> split_all(inner.0).contains(hole) && hole.len()
                > 0 && inside_ring(hole[0].at(), positions(list[i].first())) && forall|j: int|
                0 <= j < i ==> !inside_ring(
                    hole[0].at(),
                    positions(#[trigger] split_all(outer.0)[j]),
                )
        }),
{
    let members = parent.relation_members@[rel_idx]@;
    let outers = split_all(assembled(dist, role_segments(parent, members, false)).0);
    let holes = split_all(assembled(dist, role_segments(parent, members, true)).0);
    a_hole_is_placed_in_the_first_exterior_around_it(outers, holes, i, hole);
}

/// The segment is the nodes of way member `i` of the relation, which has at least
/// two, and has the role `inner` or not as `inner` says.
pub open spec fn is_members_way(
    parent: &Osm,
    members: Seq<Member>,
    i: int,
    inner: bool,
    seg: Seq<Vertex>,
) -> bool {
    &&& 0 <= i < members.len()
    &&& members[i].kind == EntityType::Way
    &&& members[i].idx is Some
    &&& seg == vertices(parent, way_nodes(parent, parent.ways@[members[i].idx->0 as int]))
    &&& seg.len() >= 2
    &&& inner == (string_at(parent.stringtable@, members[i].role_idx as int) == inner_role())
}

proof fn lemma_one_more_member(
    parent: &Osm,
    members: Seq<Member>,
    inner: bool,
    seg: Seq<Vertex>,
    i: int,
)
    requires
        0 <= i < members.len() - 1,
    ensures
        is_members_way(parent, members, i, inner, seg) == is_members_way(
            parent,
            members.drop_last(),
            i,
            inner,
            seg,
        ),
{
}

/// A relation's segments for a role are those of its way members with that role and
/// at least two nodes: all of them and no others.
pub proof fn segments_are_the_member_ways(
    parent: &Osm,
    members: Seq<Member>,
    inner: bool,
    seg: Seq<Vertex>,
)
    ensures
        role_segments(parent, members, inner).contains(seg) <==> exists|i: int| #[trigger]
            is_members_way(parent, members, i, inner, seg),
    decreases members.len(),
{
    if members.len() > 0 {
        let front = members.drop_last();
        let n = members.len() - 1;
        segments_are_the_member_ways(parent, front, inner, seg);
        let (all, rest) = (
            role_segments(parent, members, inner),
            role_segments(parent, front, inner),
        );
        if exists|i: int| #[trigger] is_members_way(parent, members, i, inner, seg) {
            let i = choose|i: int| #[trigger] is_members_way(parent, members, i, inner, seg);
            if i < n {
                lemma_one_more_member(parent, members, inner, seg, i);
                let k = choose|k: int| 0 <= k < rest.len() && rest[k] == seg;
                assert(all[k] == seg);
            } else {
                assert(all[all.len() - 1] == seg);
            }
        }
        if all.contains(seg) {
            let k = choose|k: int| 0 <= k < all.len() && all[k] == seg;
            if k < rest.len() {
                assert(rest[k] == seg);
                let i = choose|i: int| #[trigger] is_members_way(parent, front, i, inner, seg);
                lemma_one_more_member(parent, members, inner, seg, i);
                assert(is_members_way(parent, members, i, inner, seg));
            } else {
                assert(gives_segment(parent, members.last(), inner));
                assert(is_members_way(parent, members, n, inner, seg));
            }
        }
    }
}

/// Every edge of a relation's polygons and of its open chains is an edge of a
/// member way, where the ways share their end nodes.
pub proof fn a_relation_keeps_to_its_ways<F: Fn(Vertex, Vertex) -> u64>(
    parent: &Osm,
    dist: F,
    rel_idx: int,
)
    requires
        shares_end_nodes(dist, role_segments(parent, parent.relation_members@[rel_idx]@, false)),
        shares_end_nodes(dist, role_segments(parent, parent.relation_members@[rel_idx]@, true)),
    ensures
        ({
            let members = parent.relation_members@[rel_idx]@;
            let outer = role_segments(parent, members, false);
            let inner = role_segments(parent, members, true);
            let (list, open) = assembled_relation(parent, dist, rel_idx);
            &&& all_keep_to_edges(outer, open)
            &&& forall|i: int|
                0 <= i < list.len() ==> all_keep_to_edges(outer, seq![(#[trigger] list[i]).first()])
            &&& forall|i: int|
                0 <= i < list.len() ==> all_keep_to_edges(inner, (#[trigger] list[i]).skip(1))
        }),
{
    let members = parent.relation_members@[rel_idx]@;
    let outer = role_segments(parent, members, false);
    let inner = role_segments(parent, members, true);
    lemma_role_nonempty(parent, members, false);
    lemma_role_nonempty(parent, members, true);
    assembly_makes_up_no_edge(dist, outer);
    assembly_makes_up_no_edge(dist, inner);
    let outers = split_all(assembled(dist, outer).0);
    let holes = split_all(assembled(dist, inner).0);
    let list = polygons(outers, holes);
    assert forall|i: int| 0 <= i < list.len() implies all_keep_to_edges(
        outer,
        seq![(#[trigger] list[i]).first()],
    ) && all_keep_to_edges(inner, list[i].skip(1)) by {
        let own = holes.filter(hole_of(outers, i));
        assert(list[i] == polygon(outers, holes, i));
        assert(list[i].first() == outers[i]);
        assert(list[i].skip(1) =~= own);
        assert forall|k: int| 0 <= k < own.len() implies keeps_to_edges(
            inner,
            #[trigger] own[k],
        ) by {
            lemma_filter_member(holes, hole_of(outers, i), k);
            let m = choose|m: int| 0 <= m < holes.len() && holes[m] == own[k];
            assert(holes[m] == own[k]);
        }
    }
}

proof fn lemma_role_nonempty(parent: &Osm, members: Seq<Member>, inner: bool)
    ensures
        all_nonempty(role_segments(parent, members, inner)),
{
    let list = role_segments(parent, members, inner);
    assert forall|k: int| 0 <= k < list.len() implies (#[trigger] list[k]).len() > 0 by {
        assert(list.contains(list[k]));
        segments_are_the_member_ways(parent, members, inner, list[k]);
        let i = choose|i: int| #[trigger] is_members_way(parent, members, i, inner, list[k]);
        assert(is_members_way(parent, members, i, inner, list[k]));
    }
}

/// The nodes of a way are its references that name one, in order: those of a run of
/// references are those of its parts, one after the other.
pub proof fn references_resolve_one_by_one(a: Seq<Option<u64>>, b: Seq<Option<u64>>, n: u64)
    ensures
        named_nodes(a + b) == named_nodes(a) + named_nodes(b),
        named_nodes(seq![Some(n)]) == seq![n],
        named_nodes(seq![None]) == Seq::<u64>::empty(),
    decreases b.len(),
{
    reveal_with_fuel(named_nodes, 2);
    let (one, none) = (seq![Some(n)], seq![None::<u64>]);
    assert(one.drop_last() =~= Seq::<Option<u64>>::empty());
    assert(none.drop_last() =~= Seq::<Option<u64>>::empty());
    assert(Seq::<u64>::empty().push(n) =~= seq![n]);
    if b.len() == 0 {
        assert(a + b =~= a);
        assert(named_nodes(a) + named_nodes(b) =~= named_nodes(a));
    } else {
        references_resolve_one_by_one(a, b.drop_last(), n);
        assert((a + b).drop_last() =~= a + b.drop_last());
        assert((a + b).last() == b.last());
        assert(named_nodes(a + b) =~= named_nodes(a) + named_nodes(b));
    }
}

} // verus!
