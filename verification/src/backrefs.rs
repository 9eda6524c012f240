//! Reverse-reference queries.
//!
//! Answers "which ways use node X" and "which relations contain X" for every
//! member type. Postings are ascending parent indices, so results compose with
//! bounding box and tag selections through [`crate::query`].

use crate::build_backrefs::{has_member, is_rels_of, is_ways_of_node, uses_node};
use crate::ext::{run, slice_range, sliced, Backrefs};
use crate::osm::Osm;
use crate::query::EntityType;
use crate::Ref;
use vstd::prelude::*;

verus! {

/// Entry point for reverse-reference queries.
#[derive(Clone, Copy)]
pub struct BackrefsQuery<'a> {
    pub parent: &'a Osm,
    pub backrefs: &'a Backrefs,
}

impl<'a> BackrefsQuery<'a> {
    /// Wrap a parent archive and its `Backrefs` index.
    pub fn new(parent: &'a Osm, backrefs: &'a Backrefs) -> (out: Self)
        ensures
            out.parent == parent,
            out.backrefs == backrefs,
    {
        BackrefsQuery { parent, backrefs }
    }

    /// Ways that reference the node at parent index `node_idx` (ascending);
    /// none where there is no such node.
    pub fn ways_using_node(&self, node_idx: usize) -> (out: &'a [Ref])
        ensures
            out@ == sliced(
                self.backrefs.node_ways_range@,
                self.backrefs.ways_of_node@,
                node_idx as int,
            ),
            self.backrefs.describes(self.parent) && node_idx < self.parent.nodes.len()
                ==> is_ways_of_node(self.parent, node_idx as int, out@),
    {
        proof {
            if self.backrefs.describes(self.parent) && node_idx < self.parent.nodes.len() {
                let first = self.backrefs.node_ways_range@;
                let n = self.parent.nodes.len() as int;
                assert(first[node_idx as int] <= first[node_idx + 1]);
                assert(first[node_idx + 1] <= first[n]);
                assert(is_ways_of_node(
                    self.parent,
                    node_idx as int,
                    run(self.backrefs.ways_of_node@, first, node_idx as int),
                ));
            }
        }
        slice_range(
            self.backrefs.node_ways_range.as_slice(),
            self.backrefs.ways_of_node.as_slice(),
            node_idx,
        )
    }

    /// A run of the relations of an entity, where the index has one.
    proof fn lemma_rels(self, kind: EntityType, i: int)
        requires
            self.backrefs.describes(self.parent),
            0 <= i < self.parent.len_of(kind),
        ensures
            is_rels_of(
                self.parent,
                kind,
                i,
                sliced(self.backrefs.rels_range(kind), self.backrefs.rels(kind), i),
            ),
    {
        let first = self.backrefs.rels_range(kind);
        assert(first[i] <= first[i + 1]);
        assert(first[i + 1] <= first[self.parent.len_of(kind) as int]);
        assert(is_rels_of(self.parent, kind, i, run(self.backrefs.rels(kind), first, i)));
    }

    /// Relations whose members include the node at `node_idx` (ascending).
    pub fn relations_with_node(&self, node_idx: usize) -> (out: &'a [Ref])
        ensures
            out@ == sliced(
                self.backrefs.node_rels_range@,
                self.backrefs.rels_of_node@,
                node_idx as int,
            ),
            self.backrefs.describes(self.parent) && node_idx < self.parent.nodes.len()
                ==> is_rels_of(self.parent, EntityType::Node, node_idx as int, out@),
    {
        proof {
            if self.backrefs.describes(self.parent) && node_idx < self.parent.nodes.len() {
                self.lemma_rels(EntityType::Node, node_idx as int);
            }
        }
        slice_range(
            self.backrefs.node_rels_range.as_slice(),
            self.backrefs.rels_of_node.as_slice(),
            node_idx,
        )
    }

    /// Relations whose members include the way at `way_idx` (ascending).
    pub fn relations_with_way(&self, way_idx: usize) -> (out: &'a [Ref])
        ensures
            out@ == sliced(
                self.backrefs.way_rels_range@,
                self.backrefs.rels_of_way@,
                way_idx as int,
            ),
            self.backrefs.describes(self.parent) && way_idx < self.parent.ways.len() ==> is_rels_of(
                self.parent,
                EntityType::Way,
                way_idx as int,
                out@,
            ),
    {
        proof {
            if self.backrefs.describes(self.parent) && way_idx < self.parent.ways.len() {
                self.lemma_rels(EntityType::Way, way_idx as int);
            }
        }
        slice_range(
            self.backrefs.way_rels_range.as_slice(),
            self.backrefs.rels_of_way.as_slice(),
            way_idx,
        )
    }

    /// Relations whose members include the relation at `relation_idx`
    /// (ascending).
    pub fn relations_with_relation(&self, relation_idx: usize) -> (out: &'a [Ref])
        ensures
            out@ == sliced(
                self.backrefs.rel_rels_range@,
                self.backrefs.rels_of_rel@,
                relation_idx as int,
            ),
            self.backrefs.describes(self.parent) && relation_idx < self.parent.relations.len()
                ==> is_rels_of(self.parent, EntityType::Relation, relation_idx as int, out@),
    {
        proof {
            if self.backrefs.describes(self.parent) && relation_idx < self.parent.relations.len() {
                self.lemma_rels(EntityType::Relation, relation_idx as int);
            }
        }
        slice_range(
            self.backrefs.rel_rels_range.as_slice(),
            self.backrefs.rels_of_rel.as_slice(),
            relation_idx,
        )
    }
}

/// A reverse reference undoes a reference: way `w` is among the ways of node `n`
/// exactly when `w` uses `n`, and relation `r` among the relations of an entity
/// exactly when `r` has it as a member.
pub proof fn backrefs_undo_references(
    parent: &Osm,
    backrefs: &Backrefs,
    kind: EntityType,
    i: u64,
    n: u64,
    w: u64,
    r: u64,
)
    requires
        parent.wf(),
        backrefs.describes(parent),
        i < parent.len_of(kind),
        n < parent.nodes.len(),
        w < parent.ways.len(),
        r < parent.relations.len(),
    ensures
        run(backrefs.ways_of_node@, backrefs.node_ways_range@, n as int).contains(w) <==> uses_node(
            parent,
            w as int,
            n,
        ),
        run(backrefs.rels(kind), backrefs.rels_range(kind), i as int).contains(r) <==> has_member(
            parent,
            r as int,
            kind,
            i,
        ),
{
    assert(is_ways_of_node(
        parent,
        n as int,
        run(backrefs.ways_of_node@, backrefs.node_ways_range@, n as int),
    ));
    assert(is_rels_of(
        parent,
        kind,
        i as int,
        run(backrefs.rels(kind), backrefs.rels_range(kind), i as int),
    ));
}

} // verus!
