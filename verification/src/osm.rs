//! The parent archive, as the plain values that the indexes read.

use crate::query::EntityType;
use crate::strings::{same_bytes, string_at, substring_raw};
use vstd::prelude::*;

verus! {

/// A half-open run of positions in another vector.
#[derive(Clone, Copy, Debug, PartialEq, Eq, Structural)]
pub struct Span {
    pub start: u64,
    pub end: u64,
}

impl Span {
    /// The span lies within a vector of `len` items.
    pub open spec fn within(self, len: nat) -> bool {
        self.start <= self.end <= len
    }
}

/// The extent of an entity or of the whole archive, in archive units.
#[derive(Clone, Copy, Debug, PartialEq, Eq, Structural)]
pub struct Extent {
    pub min_lon: i32,
    pub min_lat: i32,
    pub max_lon: i32,
    pub max_lat: i32,
}

/// What the archive says of itself.
#[derive(Clone, Copy, Debug, PartialEq, Eq, Structural)]
pub struct Header {
    /// Archive units per degree.
    pub coord_scale: i32,
    pub bbox: Extent,
    pub replication_sequence_number: i64,
}

/// A node: its position in archive units and its run in `tags_index`.
#[derive(Clone, Copy, Debug, PartialEq, Eq, Structural)]
pub struct Node {
    pub lon: i32,
    pub lat: i32,
    pub tags: Span,
}

/// A way: its runs in `tags_index` and in `nodes_index`.
#[derive(Clone, Copy, Debug, PartialEq, Eq, Structural)]
pub struct Way {
    pub tags: Span,
    pub refs: Span,
}

/// A relation: its run in `tags_index` and its stored extent, if it has one.
#[derive(Clone, Copy, Debug, PartialEq, Eq, Structural)]
pub struct Relation {
    pub tags: Span,
    pub extent: Option<Extent>,
}

/// A relation member: which entity it names, where that entity is in the
/// archive, and where its role is in the string table.
#[derive(Clone, Copy, Debug, PartialEq, Eq, Structural)]
pub struct Member {
    pub kind: EntityType,
    pub idx: Option<u64>,
    pub role_idx: u64,
}

/// A distinct `(key, value)` pair, as positions in the string table.
#[derive(Clone, Copy, Debug, PartialEq, Eq, Structural)]
pub struct Tag {
    pub key_idx: u64,
    pub value_idx: u64,
}

/// A parent archive.
pub struct Osm {
    pub header: Header,
    pub nodes: Vec<Node>,
    pub ways: Vec<Way>,
    pub relations: Vec<Relation>,
    /// The members of each relation, parallel to `relations`.
    pub relation_members: Vec<Vec<Member>>,
    pub tags: Vec<Tag>,
    /// Positions in `tags`.
    pub tags_index: Vec<u64>,
    /// Positions in `nodes`; `None` where a way names a node that the archive
    /// does not hold.
    pub nodes_index: Vec<Option<u64>>,
    /// NUL-terminated strings.
    pub stringtable: Vec<u8>,
    /// The schema text that the archive was written with.
    pub schema: Vec<u8>,
}

impl Osm {
    /// Every position that the archive stores is a position of the vector it
    /// points into, and the entities can be counted.
    pub open spec fn wf(&self) -> bool {
        &&& self.nodes.len() + self.ways.len() + self.relations.len() <= u64::MAX
        &&& forall|i: int|
            0 <= i < self.nodes.len() ==> (#[trigger] self.nodes@[i]).tags.within(self.tags_index.len() as nat)
        &&& forall|i: int|
            0 <= i < self.ways.len() ==> (#[trigger] self.ways@[i]).tags.within(self.tags_index.len() as nat)
        &&& forall|i: int|
            0 <= i < self.relations.len() ==> (#[trigger] self.relations@[i]).tags.within(self.tags_index.len() as nat)
        &&& forall|i: int|
            0 <= i < self.ways.len() ==> (#[trigger] self.ways@[i]).refs.within(self.nodes_index.len() as nat)
        &&& forall|i: int|
            0 <= i < self.tags_index.len() ==> (#[trigger] self.tags_index@[i]) < self.tags.len()
        &&& forall|i: int|
            0 <= i < self.tags.len() ==> (#[trigger] self.tags@[i]).key_idx
                <= self.stringtable.len() && self.tags@[i].value_idx <= self.stringtable.len()
        &&& forall|i: int|
            0 <= i < self.nodes_index.len() ==> ((#[trigger] self.nodes_index@[i]) matches Some(n)
                ==> n < self.nodes.len())
        &&& self.relation_members.len() == self.relations.len()
        &&& forall|r: int, m: int|
            #![trigger self.relation_members@[r]@[m]]
            0 <= r < self.relation_members.len() && 0 <= m < self.relation_members@[r].len()
                ==> self.member_ok(self.relation_members@[r]@[m])
    }

    /// The member names an entity of the archive, and its role a string.
    pub open spec fn member_ok(&self, m: Member) -> bool {
        &&& m.role_idx <= self.stringtable.len()
        &&& m.idx matches Some(i) ==> i < self.len_of(m.kind)
    }

    /// How many entities of a type there are.
    pub open spec fn len_of(&self, entity: EntityType) -> nat {
        match entity {
            EntityType::Node => self.nodes.len() as nat,
            EntityType::Way => self.ways.len() as nat,
            EntityType::Relation => self.relations.len() as nat,
        }
    }

    /// The run of an entity in `tags_index`.
    pub open spec fn tag_span(&self, entity: EntityType, i: int) -> Span {
        match entity {
            EntityType::Node => self.nodes@[i].tags,
            EntityType::Way => self.ways@[i].tags,
            EntityType::Relation => self.relations@[i].tags,
        }
    }

    /// The tag slots of an entity, as stored.
    pub open spec fn slots_of(&self, entity: EntityType, i: int) -> Seq<u64> {
        self.tags_index@.subrange(
            self.tag_span(entity, i).start as int,
            self.tag_span(entity, i).end as int,
        )
    }

    /// The key string of a tag slot.
    pub open spec fn key_string(&self, slot: int) -> Seq<u8> {
        string_at(self.stringtable@, self.tags@[slot].key_idx as int)
    }

    /// The value string of a tag slot.
    pub open spec fn value_string(&self, slot: int) -> Seq<u8> {
        string_at(self.stringtable@, self.tags@[slot].value_idx as int)
    }

    /// The tags are deduplicated, and so are the key strings: a key string is
    /// stored in one place, and no two slots of a key have the same value.
    pub open spec fn deduplicated(&self) -> bool {
        &&& forall|s: int, t: int|
            0 <= s < self.tags.len() && 0 <= t < self.tags.len() && #[trigger] self.key_string(s)
                == #[trigger] self.key_string(t) ==> self.tags@[s].key_idx == self.tags@[t].key_idx
        &&& forall|s: int, t: int|
            0 <= s < self.tags.len() && 0 <= t < self.tags.len() && self.tags@[s].key_idx
                == self.tags@[t].key_idx && #[trigger] self.value_string(s)
                == #[trigger] self.value_string(t) ==> s == t
    }

    /// No entity carries a tag slot twice.
    pub open spec fn distinct_slots(&self) -> bool {
        forall|entity: EntityType, i: int|
            0 <= i < self.len_of(entity) ==> (#[trigger] self.slots_of(entity, i)).no_duplicates()
    }

    /// How many entities of a type there are.
    pub fn entity_count(&self, entity: EntityType) -> (out: usize)
        ensures
            out == self.len_of(entity),
    {
        match entity {
            EntityType::Node => self.nodes.len(),
            EntityType::Way => self.ways.len(),
            EntityType::Relation => self.relations.len(),
        }
    }

    /// The run of an entity in `tags_index`.
    pub fn entity_tags(&self, entity: EntityType, i: usize) -> (out: Span)
        requires
            self.wf(),
            i < self.len_of(entity),
        ensures
            out == self.tag_span(entity, i as int),
            out.within(self.tags_index.len() as nat),
    {
        match entity {
            EntityType::Node => self.nodes[i].tags,
            EntityType::Way => self.ways[i].tags,
            EntityType::Relation => self.relations[i].tags,
        }
    }

    /// The string at `idx` of the string table.
    pub fn string(&self, idx: u64) -> (out: &[u8])
        requires
            idx <= self.stringtable.len(),
        ensures
            out@ == string_at(self.stringtable@, idx as int),
    {
        substring_raw(self.stringtable.as_slice(), idx as usize)
    }

    /// The position in `tags` of the first tag in `slots` with the given key.
    pub open spec fn first_with_key(&self, slots: Seq<u64>, key: Seq<u8>) -> Option<u64>
        decreases slots.len(),
    {
        if slots.len() == 0 {
            None
        } else if self.key_string(slots[0] as int) == key {
            Some(slots[0])
        } else {
            self.first_with_key(slots.skip(1), key)
        }
    }

    /// The value of the first tag in `slots` with the given key.
    pub open spec fn value_for(&self, slots: Seq<u64>, key: Seq<u8>) -> Option<Seq<u8>> {
        match self.first_with_key(slots, key) {
            Some(t) => Some(self.value_string(t as int)),
            None => None,
        }
    }

    /// Find a tag by its key in a run of `tags_index` and return its value.
    pub fn find_tag(&self, span: Span, key: &[u8]) -> (out: Option<&[u8]>)
        requires
            self.wf(),
            span.within(self.tags_index.len() as nat),
        ensures
            match out {
                Some(value) => self.value_for(
                    self.tags_index@.subrange(span.start as int, span.end as int),
                    key@,
                ) == Some(value@),
                None => self.value_for(
                    self.tags_index@.subrange(span.start as int, span.end as int),
                    key@,
                ) is None,
            },
    {
        let mut ti: u64 = span.start;
        let ghost slots = self.tags_index@.subrange(span.start as int, span.end as int);
        proof {
            assert(slots.skip(0) =~= slots);
        }
        while ti < span.end
            invariant
                self.wf(),
                span.within(self.tags_index.len() as nat),
                span.start <= ti <= span.end,
                slots == self.tags_index@.subrange(span.start as int, span.end as int),
                self.first_with_key(slots, key@) == self.first_with_key(
                    slots.skip(ti - span.start),
                    key@,
                ),
            decreases span.end - ti,
        {
            let slot: u64 = self.tags_index[ti as usize];
            let tag = self.tags[slot as usize];
            proof {
                let rest = slots.skip(ti - span.start);
                assert(rest[0] == slot);
                assert(rest.skip(1) =~= slots.skip(ti + 1 - span.start));
            }
            if same_bytes(self.string(tag.key_idx), key) {
                return Some(self.string(tag.value_idx));
            }
            ti = ti + 1;
        }
        None
    }
}

} // verus!
