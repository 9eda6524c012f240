//! Staleness guard binding an extension archive to one exact parent build.
//!
//! An extension archive hard-codes parent **entity indices** and parent
//! **stringtable indices**; both change whenever the parent is recompiled or
//! reordered. The [`ExtHeader`] records a fingerprint of the parent at build
//! time, and [`verify`] compares it against a live parent before any query is
//! served.

use crate::ext::{Ext, ExtHeader};
use crate::osm::Osm;
use std::collections::hash_map::DefaultHasher;
use std::hash::Hasher;
use vstd::prelude::*;
use vstd::std_specs::hash::DefaultHasherAdditionalSpecFns;

verus! {

/// Why an extension archive does not match a parent archive.
#[allow(inconsistent_fields)]
#[derive(Debug, Clone, PartialEq, Eq)]
pub enum Mismatch {
    /// The parent's schema hash differs (a structural change).
    SchemaHash { expected: u64, actual: u64 },
    /// A parent vector length differs (a rebuild or reorder).
    Count { what: &'static str, expected: u64, actual: u64 },
    /// The parent's replication sequence number differs.
    ReplicationSequence { expected: i64, actual: i64 },
}

/// The hash of a schema text: the default hasher over its bytes and a closing
/// byte, as for any string.
pub open spec fn schema_hash(schema: Seq<u8>) -> u64 {
    DefaultHasher::spec_finish(seq![schema, seq![0xffu8]])
}

/// Hash identifying the parent schema. Building a header and [`verify`] both go
/// by it, so build and check cannot drift.
pub fn parent_schema_hash(parent: &Osm) -> (out: u64)
    ensures
        out == schema_hash(parent.schema@),
{
    let close: [u8; 1] = [0xff];
    let mut h = DefaultHasher::new();
    h.write(parent.schema.as_slice());
    h.write(close.as_slice());
    proof {
        assert(close@ =~= seq![0xffu8]);
        assert(h@ =~= seq![parent.schema@, seq![0xffu8]]);
    }
    h.finish()
}

/// The header says what the live parent says.
pub open spec fn fits(parent: &Osm, h: ExtHeader) -> bool {
    &&& h.parent_schema_hash == schema_hash(parent.schema@)
    &&& h.parent_node_count == parent.nodes.len()
    &&& h.parent_way_count == parent.ways.len()
    &&& h.parent_relation_count == parent.relations.len()
    &&& h.parent_tags_count == parent.tags.len()
    &&& h.parent_stringtable_len == parent.stringtable.len()
    &&& h.parent_replication_sequence_number == parent.header.replication_sequence_number
}

/// Parent vector lengths used as a data fingerprint: nodes, ways, relations,
/// tags and string table bytes.
fn parent_counts(parent: &Osm) -> (out: (u64, u64, u64, u64, u64))
    ensures
        out.0 == parent.nodes.len(),
        out.1 == parent.ways.len(),
        out.2 == parent.relations.len(),
        out.3 == parent.tags.len(),
        out.4 == parent.stringtable.len(),
{
    (
        parent.nodes.len() as u64,
        parent.ways.len() as u64,
        parent.relations.len() as u64,
        parent.tags.len() as u64,
        parent.stringtable.len() as u64,
    )
}

/// Compute the fingerprint for a freshly-built extension archive of `parent`.
pub fn build_header(parent: &Osm, builder_idx: u64) -> (out: ExtHeader)
    ensures
        fits(parent, out),
        out.builder_idx == builder_idx,
{
    let (nodes, ways, relations, tags, stringtable_len) = parent_counts(parent);
    ExtHeader {
        parent_schema_hash: parent_schema_hash(parent),
        parent_node_count: nodes,
        parent_way_count: ways,
        parent_relation_count: relations,
        parent_tags_count: tags,
        parent_stringtable_len: stringtable_len,
        parent_replication_sequence_number: parent.header.replication_sequence_number,
        builder_idx,
    }
}

/// The answer is that the count of `what` differs.
pub open spec fn count_differs(
    out: Result<(), Mismatch>,
    what: Seq<char>,
    expected: u64,
    actual: u64,
) -> bool {
    match out {
        Err(Mismatch::Count { what: w, expected: e, actual: a }) => w@ == what && e == expected && a
            == actual,
        _ => false,
    }
}

/// What [`verify`] answers: the first of the compared values that differs, in a
/// fixed order, or that all agree.
pub open spec fn answers(parent: &Osm, h: ExtHeader, out: Result<(), Mismatch>) -> bool {
    if h.parent_schema_hash != schema_hash(parent.schema@) {
        out == Err::<(), Mismatch>(
            Mismatch::SchemaHash {
                expected: schema_hash(parent.schema@),
                actual: h.parent_schema_hash,
            },
        )
    } else if h.parent_node_count != parent.nodes.len() {
        count_differs(out, "nodes"@, parent.nodes.len() as u64, h.parent_node_count)
    } else if h.parent_way_count != parent.ways.len() {
        count_differs(out, "ways"@, parent.ways.len() as u64, h.parent_way_count)
    } else if h.parent_relation_count != parent.relations.len() {
        count_differs(out, "relations"@, parent.relations.len() as u64, h.parent_relation_count)
    } else if h.parent_tags_count != parent.tags.len() {
        count_differs(out, "tags"@, parent.tags.len() as u64, h.parent_tags_count)
    } else if h.parent_stringtable_len != parent.stringtable.len() {
        count_differs(
            out,
            "stringtable"@,
            parent.stringtable.len() as u64,
            h.parent_stringtable_len,
        )
    } else if h.parent_replication_sequence_number != parent.header.replication_sequence_number {
        out == Err::<(), Mismatch>(
            Mismatch::ReplicationSequence {
                expected: parent.header.replication_sequence_number,
                actual: h.parent_replication_sequence_number,
            },
        )
    } else {
        out == Ok::<(), Mismatch>(())
    }
}

/// Verify that `ext` was built against `parent`. Returns the first mismatch
/// found, or `Ok(())` when the extension archive is valid for this parent.
pub fn verify(parent: &Osm, ext: &Ext) -> (out: Result<(), Mismatch>)
    ensures
        answers(parent, ext.header, out),
        out is Ok <==> fits(parent, ext.header),
{
    let h = ext.header;
    let expected: u64 = parent_schema_hash(parent);
    if h.parent_schema_hash != expected {
        return Err(Mismatch::SchemaHash { expected, actual: h.parent_schema_hash });
    }
    let (nodes, ways, relations, tags, stringtable_len) = parent_counts(parent);
    if nodes != h.parent_node_count {
        return Err(
            Mismatch::Count { what: "nodes", expected: nodes, actual: h.parent_node_count },
        );
    }
    if ways != h.parent_way_count {
        return Err(Mismatch::Count { what: "ways", expected: ways, actual: h.parent_way_count });
    }
    if relations != h.parent_relation_count {
        return Err(
            Mismatch::Count {
                what: "relations",
                expected: relations,
                actual: h.parent_relation_count,
            },
        );
    }
    if tags != h.parent_tags_count {
        return Err(Mismatch::Count { what: "tags", expected: tags, actual: h.parent_tags_count });
    }
    if stringtable_len != h.parent_stringtable_len {
        return Err(
            Mismatch::Count {
                what: "stringtable",
                expected: stringtable_len,
                actual: h.parent_stringtable_len,
            },
        );
    }
    let expected_seq: i64 = parent.header.replication_sequence_number;
    if h.parent_replication_sequence_number != expected_seq {
        return Err(
            Mismatch::ReplicationSequence {
                expected: expected_seq,
                actual: h.parent_replication_sequence_number,
            },
        );
    }
    Ok(())
}

/// A header built for one parent fits another exactly where the two agree in
/// everything that is compared.
pub proof fn a_header_fits_the_parents_that_agree(a: &Osm, b: &Osm, h: ExtHeader)
    requires
        fits(a, h),
    ensures
        fits(b, h) <==> schema_hash(a.schema@) == schema_hash(b.schema@) && a.nodes.len()
            == b.nodes.len() && a.ways.len() == b.ways.len() && a.relations.len()
            == b.relations.len() && a.tags.len() == b.tags.len() && a.stringtable.len()
            == b.stringtable.len() && a.header.replication_sequence_number
            == b.header.replication_sequence_number,
{
}

} // verus!
