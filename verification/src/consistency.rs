//! Whether an archive that was read from outside is consistent.

use crate::osm::{Member, Osm, Span};
use vstd::prelude::*;

verus! {

fn span_within(span: Span, len: usize) -> (out: bool)
    ensures
        out == span.within(len as nat),
{
    span.start <= span.end && span.end <= len as u64
}

impl Osm {
    /// Whether every position that the archive stores is a position of the vector
    /// that it points into.
    pub fn is_consistent(&self) -> (out: bool)
        ensures
            out == self.wf(),
    {
        let total: u128 = self.nodes.len() as u128 + self.ways.len() as u128
            + self.relations.len() as u128;
        total <= u64::MAX as u128 && self.nodes_consistent() && self.ways_consistent()
            && self.relations_consistent() && self.tags_consistent() && self.refs_consistent()
            && self.members_consistent()
    }

    fn nodes_consistent(&self) -> (out: bool)
        ensures
            out == forall|i: int|
                0 <= i < self.nodes.len() ==> (#[trigger] self.nodes@[i]).tags.within(
                    self.tags_index.len() as nat,
                ),
    {
        let mut i: usize = 0;
        while i < self.nodes.len()
            invariant
                i <= self.nodes.len(),
                forall|k: int|
                    0 <= k < i ==> (#[trigger] self.nodes@[k]).tags.within(
                        self.tags_index.len() as nat,
                    ),
            decreases self.nodes.len() - i,
        {
            if !span_within(self.nodes[i].tags, self.tags_index.len()) {
                return false;
            }
            i = i + 1;
        }
        true
    }

    fn ways_consistent(&self) -> (out: bool)
        ensures
            out == ((forall|i: int|
                0 <= i < self.ways.len() ==> (#[trigger] self.ways@[i]).tags.within(
                    self.tags_index.len() as nat,
                )) && (forall|i: int|
                0 <= i < self.ways.len() ==> (#[trigger] self.ways@[i]).refs.within(
                    self.nodes_index.len() as nat,
                ))),
    {
        let mut i: usize = 0;
        while i < self.ways.len()
            invariant
                i <= self.ways.len(),
                forall|k: int|
                    0 <= k < i ==> (#[trigger] self.ways@[k]).tags.within(
                        self.tags_index.len() as nat,
                    ),
                forall|k: int|
                    0 <= k < i ==> (#[trigger] self.ways@[k]).refs.within(
                        self.nodes_index.len() as nat,
                    ),
            decreases self.ways.len() - i,
        {
            if !span_within(self.ways[i].tags, self.tags_index.len()) || !span_within(
                self.ways[i].refs,
                self.nodes_index.len(),
            ) {
                return false;
            }
            i = i + 1;
        }
        true
    }

    fn relations_consistent(&self) -> (out: bool)
        ensures
            out == forall|i: int|
                0 <= i < self.relations.len() ==> (#[trigger] self.relations@[i]).tags.within(
                    self.tags_index.len() as nat,
                ),
    {
        let mut i: usize = 0;
        while i < self.relations.len()
            invariant
                i <= self.relations.len(),
                forall|k: int|
                    0 <= k < i ==> (#[trigger] self.relations@[k]).tags.within(
                        self.tags_index.len() as nat,
                    ),
            decreases self.relations.len() - i,
        {
            if !span_within(self.relations[i].tags, self.tags_index.len()) {
                return false;
            }
            i = i + 1;
        }
        true
    }

    fn tags_consistent(&self) -> (out: bool)
        ensures
            out == ((forall|i: int|
                0 <= i < self.tags_index.len() ==> (#[trigger] self.tags_index@[i])
                    < self.tags.len()) && (forall|i: int|
                0 <= i < self.tags.len() ==> (#[trigger] self.tags@[i]).key_idx
                    <= self.stringtable.len() && self.tags@[i].value_idx
                    <= self.stringtable.len())),
    {
        let mut i: usize = 0;
        while i < self.tags_index.len()
            invariant
                i <= self.tags_index.len(),
                forall|k: int|
                    0 <= k < i ==> (#[trigger] self.tags_index@[k]) < self.tags.len(),
            decreases self.tags_index.len() - i,
        {
            if self.tags_index[i] >= self.tags.len() as u64 {
                return false;
            }
            i = i + 1;
        }
        let end: u64 = self.stringtable.len() as u64;
        let mut t: usize = 0;
        while t < self.tags.len()
            invariant
                t <= self.tags.len(),
                end == self.stringtable.len(),
                forall|k: int|
                    0 <= k < t ==> (#[trigger] self.tags@[k]).key_idx <= self.stringtable.len()
                        && self.tags@[k].value_idx <= self.stringtable.len(),
            decreases self.tags.len() - t,
        {
            if self.tags[t].key_idx > end || self.tags[t].value_idx > end {
                return false;
            }
            t = t + 1;
        }
        true
    }

    fn refs_consistent(&self) -> (out: bool)
        ensures
            out == forall|i: int|
                0 <= i < self.nodes_index.len() ==> ((#[trigger] self.nodes_index@[i]) matches Some(
                    n,
                ) ==> n < self.nodes.len()),
    {
        let mut i: usize = 0;
        while i < self.nodes_index.len()
            invariant
                i <= self.nodes_index.len(),
                forall|k: int|
                    0 <= k < i ==> ((#[trigger] self.nodes_index@[k]) matches Some(n) ==> n
                        < self.nodes.len()),
            decreases self.nodes_index.len() - i,
        {
            if let Some(n) = self.nodes_index[i] {
                if n >= self.nodes.len() as u64 {
                    return false;
                }
            }
            i = i + 1;
        }
        true
    }

    fn members_consistent(&self) -> (out: bool)
        ensures
            out == (self.relation_members.len() == self.relations.len() && (forall|r: int, m: int|
                #![trigger self.relation_members@[r]@[m]]
                0 <= r < self.relation_members.len() && 0 <= m < self.relation_members@[r].len()
                    ==> self.member_ok(self.relation_members@[r]@[m]))),
    {
        if self.relation_members.len() != self.relations.len() {
            return false;
        }
        let mut r: usize = 0;
        while r < self.relation_members.len()
            invariant
                r <= self.relation_members.len(),
                forall|k: int, m: int|
                    #![trigger self.relation_members@[k]@[m]]
                    0 <= k < r && 0 <= m < self.relation_members@[k].len() ==> self.member_ok(
                        self.relation_members@[k]@[m],
                    ),
            decreases self.relation_members.len() - r,
        {
            let members = &self.relation_members[r];
            let mut m: usize = 0;
            while m < members.len()
                invariant
                    r < self.relation_members.len(),
                    members@ == self.relation_members@[r as int]@,
                    m <= members.len(),
                    forall|j: int|
                        0 <= j < m ==> self.member_ok(
                            #[trigger] self.relation_members@[r as int]@[j],
                        ),
                decreases members.len() - m,
            {
                if !self.member_consistent(members[m]) {
                    proof {
                        assert(!self.member_ok(self.relation_members@[r as int]@[m as int]));
                    }
                    return false;
                }
                m = m + 1;
            }
            r = r + 1;
        }
        true
    }

    fn member_consistent(&self, member: Member) -> (out: bool)
        ensures
            out == self.member_ok(member),
    {
        member.role_idx <= self.stringtable.len() as u64 && match member.idx {
            Some(i) => i < self.entity_count(member.kind) as u64,
            None => true,
        }
    }
}

} // verus!
