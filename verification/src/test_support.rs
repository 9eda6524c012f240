//! Small synthetic parent archives and their extension archives, for tests.

use crate::archive::ExtArchive;
use crate::build_ext::{build_into, own_strings, tool_name};
use crate::build_land_polygons::{converts, Degrees, ImportedRing};
use crate::coastline::measures_area;
use crate::cooccurrences::carries;
use crate::ext::Ext;
use crate::fingerprint::fits;
use crate::geometry::Point;
use crate::order::{is_ranking, lemma_ranking_unique, rank_descending, ranking};
use crate::osm::{Extent, Header, Member, Node, Osm, Relation, Span, Tag, Way};
use crate::query::EntityType;
use crate::rings::{measures, Vertex};
use crate::strings::{lemma_string_end, same_bytes, string_at};
use crate::BuildOptions;
use vstd::prelude::*;

verus! {

/// Archive units per degree of a synthetic archive.
pub const COORD_SCALE: i32 = 10_000_000;

/// A synthetic parent archive fixture.
#[derive(Debug, Default)]
pub struct Fixture {
    pub nodes: Vec<NodeSpec>,
    pub ways: Vec<WaySpec>,
    pub relations: Vec<RelationSpec>,
}

/// A node in a synthetic parent archive, in archive units.
#[derive(Debug)]
pub struct NodeSpec {
    pub lon: i32,
    pub lat: i32,
    pub tags: Vec<TagSpec>,
}

/// A way in a synthetic parent archive.
#[derive(Debug, Default)]
pub struct WaySpec {
    /// Indices into [`Fixture::nodes`].
    pub refs: Vec<usize>,
    pub tags: Vec<TagSpec>,
}

/// A relation in a synthetic parent archive.
#[derive(Debug, Default)]
pub struct RelationSpec {
    pub bbox: Option<Extent>,
    pub members: Vec<MemberSpec>,
    pub tags: Vec<TagSpec>,
}

/// A relation member, addressed by indices into the unsorted [`Fixture`].
#[derive(Clone, Copy, Debug, PartialEq, Eq, Structural)]
pub enum MemberSpec {
    Node(usize),
    Way(usize),
    Relation(usize),
}

/// A key/value tag.
#[derive(Debug, PartialEq, Eq)]
pub struct TagSpec {
    pub key: Vec<u8>,
    pub value: Vec<u8>,
}

impl TagSpec {
    /// The tag `key=value`.
    pub fn new(key: &[u8], value: &[u8]) -> (out: Self)
        ensures
            out.key@ == key@,
            out.value@ == value@,
    {
        TagSpec { key: vstd::slice::slice_to_vec(key), value: vstd::slice::slice_to_vec(value) }
    }

    /// The strings can stand in a table of NUL-terminated strings.
    pub open spec fn clean(self) -> bool {
        !self.key@.contains(0u8) && !self.value@.contains(0u8)
    }

    /// The two are the same tag.
    pub open spec fn same(self, other: TagSpec) -> bool {
        self.key@ == other.key@ && self.value@ == other.value@
    }
}

/// Each tag can stand in the string table.
pub open spec fn clean_tags(tags: Seq<TagSpec>) -> bool {
    forall|i: int| 0 <= i < tags.len() ==> (#[trigger] tags[i]).clean()
}

impl Fixture {
    /// The indices are in range, and the entities can be counted.
    pub open spec fn wf(&self) -> bool {
        &&& self.nodes.len() + self.ways.len() + self.relations.len() <= u64::MAX
        &&& forall|w: int|
            0 <= w < self.ways@.len() ==> refs_ok((#[trigger] self.ways@[w]).refs@, self.nodes.len())
        &&& forall|r: int|
            0 <= r < self.relations@.len() ==> self.members_ok(
                (#[trigger] self.relations@[r]).members@,
            )
    }

    /// The members name entities of the fixture.
    pub open spec fn members_ok(&self, members: Seq<MemberSpec>) -> bool {
        forall|m: int| 0 <= m < members.len() ==> self.member_ok(#[trigger] members[m])
    }

    /// The member names an entity of the fixture.
    pub open spec fn member_ok(&self, member: MemberSpec) -> bool {
        match member {
            MemberSpec::Node(i) => i < self.nodes.len(),
            MemberSpec::Way(i) => i < self.ways.len(),
            MemberSpec::Relation(i) => i < self.relations.len(),
        }
    }

    /// Every tag can stand in the string table.
    pub open spec fn clean(&self) -> bool {
        &&& forall|i: int| 0 <= i < self.nodes@.len() ==> clean_tags((#[trigger] self.nodes@[i]).tags@)
        &&& forall|i: int| 0 <= i < self.ways@.len() ==> clean_tags((#[trigger] self.ways@[i]).tags@)
        &&& forall|i: int|
            0 <= i < self.relations@.len() ==> clean_tags((#[trigger] self.relations@[i]).tags@)
    }
}

/// The references are indices below `n`.
pub open spec fn refs_ok(refs: Seq<usize>, n: usize) -> bool {
    forall|i: int| 0 <= i < refs.len() ==> (#[trigger] refs[i]) < n
}

/// Where `key` puts a point on a space-filling curve.
pub open spec fn point_key<N: Fn(i32, i32) -> u64>(key: N, lon: i32, lat: i32) -> u64 {
    choose|r: u64| call_ensures(key, (lon, lat), r)
}

/// `key` puts any point somewhere, and always in the same place.
pub open spec fn keys_points<N: Fn(i32, i32) -> u64>(key: N) -> bool {
    &&& forall|lon: i32, lat: i32| #[trigger] call_requires(key, (lon, lat))
    &&& forall|lon: i32, lat: i32, r: u64| #[trigger]
        call_ensures(key, (lon, lat), r) ==> r == point_key(key, lon, lat)
}

/// Where `key` puts an extent on a space-filling curve.
pub open spec fn extent_key<B: Fn(Extent) -> u64>(key: B, extent: Extent) -> u64 {
    choose|r: u64| call_ensures(key, (extent,), r)
}

/// `key` puts any extent somewhere, and always in the same place.
pub open spec fn keys_extents<B: Fn(Extent) -> u64>(key: B) -> bool {
    &&& forall|e: Extent| #[trigger] call_requires(key, (e,))
    &&& forall|e: Extent, r: u64| #[trigger]
        call_ensures(key, (e,), r) ==> r == extent_key(key, e)
}

/// The smaller of two coordinates.
pub open spec fn lesser(a: i32, b: i32) -> i32 {
    if b < a {
        b
    } else {
        a
    }
}

/// The greater of two coordinates.
pub open spec fn greater(a: i32, b: i32) -> i32 {
    if b > a {
        b
    } else {
        a
    }
}

/// The extent of the first `n` nodes of a way, if there are any.
pub open spec fn refs_extent(nodes: Seq<NodeSpec>, refs: Seq<usize>, n: int) -> Option<Extent>
    decreases n,
{
    if n <= 0 {
        None
    } else {
        let node = nodes[refs[n - 1] as int];
        match refs_extent(nodes, refs, n - 1) {
            None => Some(
                Extent {
                    min_lon: node.lon,
                    min_lat: node.lat,
                    max_lon: node.lon,
                    max_lat: node.lat,
                },
            ),
            Some(e) => Some(
                Extent {
                    min_lon: lesser(e.min_lon, node.lon),
                    min_lat: lesser(e.min_lat, node.lat),
                    max_lon: greater(e.max_lon, node.lon),
                    max_lat: greater(e.max_lat, node.lat),
                },
            ),
        }
    }
}

/// The extent of a way's nodes, if it has any.
pub fn way_bbox(fixture: &Fixture, way: &WaySpec) -> (out: Option<Extent>)
    requires
        refs_ok(way.refs@, fixture.nodes.len()),
    ensures
        out == refs_extent(fixture.nodes@, way.refs@, way.refs@.len() as int),
{
    let mut bbox: Option<Extent> = None;
    let mut i: usize = 0;
    while i < way.refs.len()
        invariant
            i <= way.refs@.len(),
            refs_ok(way.refs@, fixture.nodes.len()),
            bbox == refs_extent(fixture.nodes@, way.refs@, i as int),
        decreases way.refs@.len() - i,
    {
        let node = &fixture.nodes[way.refs[i]];
        bbox =
        match bbox {
            None => Some(
                Extent {
                    min_lon: node.lon,
                    min_lat: node.lat,
                    max_lon: node.lon,
                    max_lat: node.lat,
                },
            ),
            Some(e) => Some(
                Extent {
                    min_lon: if node.lon < e.min_lon {
                        node.lon
                    } else {
                        e.min_lon
                    },
                    min_lat: if node.lat < e.min_lat {
                        node.lat
                    } else {
                        e.min_lat
                    },
                    max_lon: if node.lon > e.max_lon {
                        node.lon
                    } else {
                        e.max_lon
                    },
                    max_lat: if node.lat > e.max_lat {
                        node.lat
                    } else {
                        e.max_lat
                    },
                },
            ),
        };
        i = i + 1;
    }
    bbox
}

/// Where each node is on the curve.
pub open spec fn node_keys<N: Fn(i32, i32) -> u64>(fixture: &Fixture, key: N) -> Seq<u64> {
    Seq::new(
        fixture.nodes@.len(),
        |i: int| point_key(key, fixture.nodes@[i].lon, fixture.nodes@[i].lat),
    )
}

/// Where each way is on the curve; a way without nodes comes first.
pub open spec fn way_keys<B: Fn(Extent) -> u64>(fixture: &Fixture, key: B) -> Seq<u64> {
    Seq::new(
        fixture.ways@.len(),
        |i: int|
            match refs_extent(
                fixture.nodes@,
                fixture.ways@[i].refs@,
                fixture.ways@[i].refs@.len() as int,
            ) {
                Some(e) => extent_key(key, e),
                None => 0,
            },
    )
}

/// Where each relation is on the curve; a relation without an extent comes last.
pub open spec fn relation_keys<B: Fn(Extent) -> u64>(fixture: &Fixture, key: B) -> Seq<u64> {
    Seq::new(
        fixture.relations@.len(),
        |i: int|
            match fixture.relations@[i].bbox {
                Some(e) => extent_key(key, e),
                None => u64::MAX,
            },
    )
}

/// How far each key is from the greatest one.
pub open spec fn flipped(keys: Seq<u64>) -> Seq<u64> {
    keys.map_values(|k: u64| (u64::MAX - k) as u64)
}

/// The positions of `keys` by ascending key; equal keys keep their order.
pub open spec fn ordering(keys: Seq<u64>) -> Seq<usize> {
    ranking(flipped(keys))
}

/// The positions of `keys` by ascending key.
fn order_by(keys: &Vec<u64>) -> (out: Vec<usize>)
    ensures
        out@ == ordering(keys@),
        is_ranking(flipped(keys@), out@),
{
    let mut rest: Vec<u64> = Vec::new();
    let mut i: usize = 0;
    while i < keys.len()
        invariant
            i <= keys@.len(),
            rest@.len() == i,
            forall|k: int| 0 <= k < i ==> #[trigger] rest@[k] == flipped(keys@)[k],
        decreases keys@.len() - i,
    {
        rest.push(u64::MAX - keys[i]);
        i = i + 1;
    }
    let out = rank_descending(&rest);
    proof {
        assert(rest@ =~= flipped(keys@));
        lemma_ranking_unique(rest@, out@, ranking(rest@));
    }
    out
}

/// The nodes in curve order.
pub fn node_order<N: Fn(i32, i32) -> u64>(fixture: &Fixture, key: &N) -> (out: Vec<usize>)
    requires
        keys_points(*key),
    ensures
        out@ == ordering(node_keys(fixture, *key)),
        is_ranking(flipped(node_keys(fixture, *key)), out@),
{
    let mut keys: Vec<u64> = Vec::new();
    let mut i: usize = 0;
    while i < fixture.nodes.len()
        invariant
            i <= fixture.nodes@.len(),
            keys_points(*key),
            keys@.len() == i,
            forall|k: int| 0 <= k < i ==> #[trigger] keys@[k] == node_keys(fixture, *key)[k],
        decreases fixture.nodes@.len() - i,
    {
        let node = &fixture.nodes[i];
        let at: u64 = key(node.lon, node.lat);
        keys.push(at);
        i = i + 1;
    }
    proof {
        assert(keys@ =~= node_keys(fixture, *key));
    }
    order_by(&keys)
}

/// The ways in curve order.
pub fn way_order<B: Fn(Extent) -> u64>(fixture: &Fixture, key: &B) -> (out: Vec<usize>)
    requires
        fixture.wf(),
        keys_extents(*key),
    ensures
        out@ == ordering(way_keys(fixture, *key)),
        is_ranking(flipped(way_keys(fixture, *key)), out@),
{
    let mut keys: Vec<u64> = Vec::new();
    let mut i: usize = 0;
    while i < fixture.ways.len()
        invariant
            fixture.wf(),
            i <= fixture.ways@.len(),
            keys_extents(*key),
            keys@.len() == i,
            forall|k: int| 0 <= k < i ==> #[trigger] keys@[k] == way_keys(fixture, *key)[k],
        decreases fixture.ways@.len() - i,
    {
        let at: u64 = match way_bbox(fixture, &fixture.ways[i]) {
            Some(extent) => key(extent),
            None => 0,
        };
        keys.push(at);
        i = i + 1;
    }
    proof {
        assert(keys@ =~= way_keys(fixture, *key));
    }
    order_by(&keys)
}

/// The relations in curve order.
pub fn relation_order<B: Fn(Extent) -> u64>(fixture: &Fixture, key: &B) -> (out: Vec<usize>)
    requires
        keys_extents(*key),
    ensures
        out@ == ordering(relation_keys(fixture, *key)),
        is_ranking(flipped(relation_keys(fixture, *key)), out@),
{
    let mut keys: Vec<u64> = Vec::new();
    let mut i: usize = 0;
    while i < fixture.relations.len()
        invariant
            i <= fixture.relations@.len(),
            keys_extents(*key),
            keys@.len() == i,
            forall|k: int| 0 <= k < i ==> #[trigger] keys@[k] == relation_keys(fixture, *key)[k],
        decreases fixture.relations@.len() - i,
    {
        let at: u64 = match fixture.relations[i].bbox {
            Some(extent) => key(extent),
            None => u64::MAX,
        };
        keys.push(at);
        i = i + 1;
    }
    proof {
        assert(keys@ =~= relation_keys(fixture, *key));
    }
    order_by(&keys)
}

/// `order` lists the indices below `len`, each once.
pub open spec fn permutes(order: Seq<usize>, len: nat) -> bool {
    &&& order.len() == len
    &&& order.no_duplicates()
    &&& forall|k: int| 0 <= k < order.len() ==> (#[trigger] order[k]) < len
    &&& forall|i: usize| i < len ==> #[trigger] order.contains(i)
}

/// `inverse` says of each index where `order` lists it.
pub open spec fn inverts(order: Seq<usize>, inverse: Seq<u64>) -> bool {
    &&& inverse.len() == order.len()
    &&& forall|i: int|
        0 <= i < inverse.len() ==> (#[trigger] inverse[i]) < order.len() && order[inverse[i] as int]
            == i
}

/// Where `order` lists each index.
pub fn inverse_order(len: usize, order: &[usize]) -> (out: Vec<u64>)
    requires
        permutes(order@, len as nat),
    ensures
        inverts(order@, out@),
{
    let mut inverse: Vec<u64> = Vec::new();
    let mut i: usize = 0;
    while i < len
        invariant
            i <= len,
            inverse@.len() == i,
        decreases len - i,
    {
        inverse.push(0);
        i = i + 1;
    }
    let mut k: usize = 0;
    while k < order.len()
        invariant
            k <= order@.len(),
            inverse@.len() == len,
            permutes(order@, len as nat),
            forall|j: int| 0 <= j < k ==> inverse@[(#[trigger] order@[j]) as int] == j,
        decreases order@.len() - k,
    {
        inverse.set(order[k], k as u64);
        k = k + 1;
    }
    proof {
        assert forall|i: int| 0 <= i < inverse@.len() implies (#[trigger] inverse@[i])
            < order@.len() && order@[inverse@[i] as int] == i by {
            assert(order@.contains(i as usize));
            let j = choose|j: int| 0 <= j < order@.len() && order@[j] == i as usize;
            assert(inverse@[order@[j] as int] == j);
        }
    }
    inverse
}

/// A tag's key and value, as they are written.
pub type TagText = (Seq<u8>, Seq<u8>);

/// The key and value of a tag.
pub open spec fn text_of(tag: TagSpec) -> TagText {
    (tag.key@, tag.value@)
}

/// The keys and values of tags.
pub open spec fn texts(tags: Seq<TagSpec>) -> Seq<TagText> {
    tags.map_values(|t: TagSpec| text_of(t))
}

/// The list with `x`, which is added where it is new.
pub open spec fn with_new<T>(list: Seq<T>, x: T) -> Seq<T> {
    if list.contains(x) {
        list
    } else {
        list.push(x)
    }
}

/// The list with each of `more`, in order, added where it is new.
pub open spec fn with_all_new<T>(list: Seq<T>, more: Seq<T>) -> Seq<T>
    decreases more.len(),
{
    if more.len() == 0 {
        list
    } else {
        with_new(with_all_new(list, more.drop_last()), more.last())
    }
}

/// The strings that the tags need, in the order in which they are first needed:
/// the empty string, then the key and the value of each tag.
pub open spec fn strings_of(slots: Seq<TagText>) -> Seq<Seq<u8>>
    decreases slots.len(),
{
    if slots.len() == 0 {
        seq![Seq::<u8>::empty()]
    } else {
        with_new(with_new(strings_of(slots.drop_last()), slots.last().0), slots.last().1)
    }
}

/// The strings, one behind the other, each with its terminator.
pub open spec fn table_of(strings: Seq<Seq<u8>>) -> Seq<u8>
    decreases strings.len(),
{
    if strings.len() == 0 {
        Seq::empty()
    } else {
        table_of(strings.drop_last()) + strings.last() + seq![0u8]
    }
}

/// `text` is one of the strings, and starts at `idx` in their table.
pub open spec fn starts_at(strings: Seq<Seq<u8>>, text: Seq<u8>, idx: u64) -> bool {
    exists|i: int|
        0 <= i < strings.len() && #[trigger] strings[i] == text && idx == table_of(
            strings.take(i),
        ).len()
}

/// The tags of the first `n` nodes in order.
pub open spec fn node_tags(fixture: &Fixture, order: Seq<usize>, n: int) -> Seq<TagText>
    decreases n,
{
    if n <= 0 {
        Seq::empty()
    } else {
        node_tags(fixture, order, n - 1) + texts(fixture.nodes@[order[n - 1] as int].tags@)
    }
}

/// The tags of the first `n` ways in order.
pub open spec fn way_tags(fixture: &Fixture, order: Seq<usize>, n: int) -> Seq<TagText>
    decreases n,
{
    if n <= 0 {
        Seq::empty()
    } else {
        way_tags(fixture, order, n - 1) + texts(fixture.ways@[order[n - 1] as int].tags@)
    }
}

/// The tags of the first `n` relations in order.
pub open spec fn relation_tags(fixture: &Fixture, order: Seq<usize>, n: int) -> Seq<TagText>
    decreases n,
{
    if n <= 0 {
        Seq::empty()
    } else {
        relation_tags(fixture, order, n - 1) + texts(
            fixture.relations@[order[n - 1] as int].tags@,
        )
    }
}

/// How many references the first `n` ways in order have.
pub open spec fn refs_before(fixture: &Fixture, order: Seq<usize>, n: int) -> nat
    decreases n,
{
    if n <= 0 {
        0
    } else {
        refs_before(fixture, order, n - 1) + fixture.ways@[order[n - 1] as int].refs@.len()
    }
}

/// A string of the table and where it starts.
struct Interned {
    text: Vec<u8>,
    idx: u64,
}

/// The tables that tags go to: each distinct string and each distinct tag once.
struct TagContext {
    stringtable: Vec<u8>,
    strings: Vec<Interned>,
    /// The tag in each slot, parallel to `tags`.
    slots: Vec<TagSpec>,
    tags: Vec<Tag>,
}

/// `text` stands in the table at `idx`, NUL-terminated.
spec fn stored(table: Seq<u8>, idx: int, text: Seq<u8>) -> bool {
    &&& 0 <= idx
    &&& idx + text.len() < table.len()
    &&& table.subrange(idx, idx + text.len()) == text
    &&& table[idx + text.len() as int] == 0
}

proof fn lemma_stored_string(table: Seq<u8>, idx: int, text: Seq<u8>)
    requires
        stored(table, idx, text),
        !text.contains(0u8),
    ensures
        string_at(table, idx) == text,
{
    assert forall|i: int| idx <= i < idx + text.len() implies table[i] != 0 by {
        assert(text[i - idx] == table[i]);
        assert(text.contains(text[i - idx]));
    }
    lemma_string_end(table, idx, idx + text.len());
}

proof fn lemma_stored_grows(table: Seq<u8>, longer: Seq<u8>, idx: int, text: Seq<u8>)
    requires
        stored(table, idx, text),
        table.is_prefix_of(longer),
    ensures
        stored(longer, idx, text),
{
    assert(longer.subrange(0, table.len() as int) =~= table);
    assert forall|i: int| 0 <= i < table.len() implies table[i] == longer[i] by {
        assert(longer.subrange(0, table.len() as int)[i] == longer[i]);
    }
    assert(longer.subrange(idx, idx + text.len()) =~= text);
}

/// One of the strings is `text`, and it starts at `idx`.
spec fn interned(strings: Seq<Interned>, text: Seq<u8>, idx: u64) -> bool {
    exists|i: int|
        0 <= i < strings.len() && (#[trigger] strings[i]).text@ == text && strings[i].idx == idx
}

/// The slot is that of the tag.
spec fn in_slot(strings: Seq<Interned>, spec_: TagSpec, tag: Tag) -> bool {
    interned(strings, spec_.key@, tag.key_idx) && interned(strings, spec_.value@, tag.value_idx)
}

/// `a` begins as `b` does, and `b` may go on.
spec fn begins<T>(a: Seq<T>, b: Seq<T>) -> bool {
    a.len() <= b.len() && forall|i: int| 0 <= i < a.len() ==> #[trigger] b[i] == a[i]
}

/// The texts of the strings.
spec fn interned_texts(strings: Seq<Interned>) -> Seq<Seq<u8>> {
    strings.map_values(|s: Interned| s.text@)
}

/// The table is that of the strings, each of which knows where it starts.
#[verifier::opaque]
spec fn tabled(table: Seq<u8>, strings: Seq<Interned>) -> bool {
    &&& table == table_of(interned_texts(strings))
    &&& forall|i: int|
        0 <= i < strings.len() ==> (#[trigger] strings[i]).idx == table_of(
            interned_texts(strings).take(i),
        ).len()
}

proof fn lemma_tabled_start(strings: Seq<Interned>)
    requires
        strings.len() == 1,
        strings[0].text@.len() == 0,
        strings[0].idx == 0,
    ensures
        tabled(seq![0u8], strings),
        interned_texts(strings) == seq![Seq::<u8>::empty()],
{
    reveal(tabled);
    let one = interned_texts(strings);
    assert(strings[0].text@ =~= Seq::<u8>::empty());
    assert(one =~= seq![Seq::<u8>::empty()]);
    assert(one.drop_last() =~= Seq::<Seq<u8>>::empty());
    assert(table_of(one) =~= seq![0u8]) by {
        reveal_with_fuel(table_of, 2);
    }
    assert(one.take(0) =~= Seq::<Seq<u8>>::empty());
}

proof fn lemma_tabled_push(table: Seq<u8>, strings: Seq<Interned>, next: Interned)
    requires
        tabled(table, strings),
        next.idx == table.len(),
    ensures
        tabled(table + next.text@ + seq![0u8], strings.push(next)),
        interned_texts(strings.push(next)) == interned_texts(strings).push(next.text@),
{
    reveal(tabled);
    let longer = strings.push(next);
    let (known, more) = (interned_texts(strings), interned_texts(longer));
    assert(more =~= known.push(next.text@));
    assert(more.drop_last() =~= known);
    assert forall|i: int| 0 <= i < longer.len() implies (#[trigger] longer[i]).idx == table_of(
        more.take(i),
    ).len() by {
        assert(more.take(i) =~= known.take(i));
        if i < strings.len() {
            assert(longer[i] == strings[i]);
        } else {
            assert(known.take(i) =~= known);
        }
    }
}

impl TagContext {
    /// The strings of the table, in order.
    spec fn string_texts(self) -> Seq<Seq<u8>> {
        interned_texts(self.strings@)
    }

    /// The strings of the table, once it is started.
    spec fn known(self) -> Seq<Seq<u8>> {
        if self.stringtable@.len() == 0 {
            seq![Seq::<u8>::empty()]
        } else {
            self.string_texts()
        }
    }

    /// The table holds what the slots need, and nothing else.
    #[verifier::opaque]
    spec fn exact(self) -> bool {
        self.known() == strings_of(texts(self.slots@))
    }

    /// `done` was written: the slots are its distinct tags, and `tag_index` names
    /// the slot of each.
    #[verifier::opaque]
    spec fn holds(self, tag_index: Seq<u64>, done: Seq<TagText>) -> bool {
        &&& self.exact()
        &&& texts(self.slots@) == with_all_new(Seq::<TagText>::empty(), done)
        &&& names_slots(texts(self.slots@), tag_index, done)
    }

    spec fn wf(self) -> bool {
        &&& self.stringtable@.len() == 0 ==> self.strings@.len() == 0
        &&& tabled(self.stringtable@, self.strings@)
        &&& forall|i: int|
            0 <= i < self.strings@.len() ==> stored(
                self.stringtable@,
                (#[trigger] self.strings@[i]).idx as int,
                self.strings@[i].text@,
            )
        &&& forall|i: int, j: int|
            0 <= i < self.strings@.len() && 0 <= j < self.strings@.len() && (
            #[trigger] self.strings@[i]).text@ == (#[trigger] self.strings@[j]).text@ ==> i == j
        &&& self.slots@.len() == self.tags@.len()
        &&& forall|t: int|
            0 <= t < self.slots@.len() ==> in_slot(
                self.strings@,
                #[trigger] self.slots@[t],
                self.tags@[t],
            )
        &&& forall|s: int, t: int|
            0 <= s < self.slots@.len() && 0 <= t < self.slots@.len() && (
            #[trigger] self.slots@[s]).same(#[trigger] self.slots@[t]) ==> s == t
    }

    /// Nothing of `self` has changed in `later`.
    spec fn grows_to(self, later: TagContext) -> bool {
        &&& begins(self.stringtable@, later.stringtable@)
        &&& begins(self.strings@, later.strings@)
        &&& begins(self.slots@, later.slots@)
        &&& begins(self.tags@, later.tags@)
    }

    fn new() -> (out: Self)
        ensures
            out.wf(),
            out.stringtable@.len() == 0,
            out.strings@.len() == 0,
            out.slots@.len() == 0,
            out.tags@.len() == 0,
            out.holds(Seq::<u64>::empty(), Seq::<TagText>::empty()),
    {
        let out = TagContext {
            stringtable: Vec::new(),
            strings: Vec::new(),
            slots: Vec::new(),
            tags: Vec::new(),
        };
        proof {
            reveal(TagContext::exact);
            reveal(TagContext::holds);
            reveal(tabled);
            assert(texts(out.slots@) =~= Seq::<TagText>::empty());
            assert(interned_texts(out.strings@) =~= Seq::<Seq<u8>>::empty());
        }
        out
    }

    /// The table starts with the empty string.
    fn ensure_stringtable(&mut self)
        requires
            old(self).wf(),
        ensures
            final(self).wf(),
            old(self).grows_to(*final(self)),
            final(self).stringtable@.len() > 0,
            final(self).string_texts() == old(self).known(),
            final(self).slots == old(self).slots,
            final(self).tags == old(self).tags,
    {
        if self.stringtable.len() == 0 {
            self.stringtable.push(0);
            let empty: Vec<u8> = Vec::new();
            self.strings.push(Interned { text: empty, idx: 0 });
            proof {
                assert(self.stringtable@.subrange(0, 0) =~= Seq::<u8>::empty());
                assert(stored(self.stringtable@, 0, self.strings@[0].text@));
                assert(self.stringtable@ =~= seq![0u8]);
                lemma_tabled_start(self.strings@);
                assert forall|t: int| 0 <= t < self.slots@.len() implies in_slot(
                    self.strings@,
                    #[trigger] self.slots@[t],
                    self.tags@[t],
                ) by {
                    assert(in_slot(old(self).strings@, old(self).slots@[t], old(self).tags@[t]));
                }
            }
        }
    }

    /// Where `text` starts in the table; it is added where it is new.
    fn intern(&mut self, text: &[u8]) -> (out: u64)
        requires
            old(self).wf(),
        ensures
            final(self).wf(),
            old(self).grows_to(*final(self)),
            final(self).slots == old(self).slots,
            final(self).tags == old(self).tags,
            interned(final(self).strings@, text@, out),
            final(self).stringtable@.len() > 0,
            final(self).string_texts() == with_new(old(self).known(), text@),
    {
        self.ensure_stringtable();
        let ghost started = *self;
        let mut i: usize = 0;
        while i < self.strings.len()
            invariant
                i <= self.strings@.len(),
                *self == started,
                started.wf(),
                old(self).grows_to(started),
                started.slots == old(self).slots,
                started.tags == old(self).tags,
                started.stringtable@.len() > 0,
                started.string_texts() == old(self).known(),
                forall|k: int| 0 <= k < i ==> (#[trigger] self.strings@[k]).text@ != text@,
            decreases self.strings@.len() - i,
        {
            if same_bytes(self.strings[i].text.as_slice(), text) {
                proof {
                    assert(started.string_texts()[i as int] == text@);
                }
                return self.strings[i].idx;
            }
            i = i + 1;
        }
        proof {
            let known = started.string_texts();
            if known.contains(text@) {
                let j = choose|j: int| 0 <= j < known.len() && known[j] == text@;
                assert(started.strings@[j].text@ == text@);
            }
        }
        let idx: u64 = self.stringtable.len() as u64;
        let ghost before = self.stringtable@;
        let mut k: usize = 0;
        while k < text.len()
            invariant
                k <= text@.len(),
                self.strings == started.strings,
                self.slots == started.slots,
                self.tags == started.tags,
                self.stringtable@ == before + text@.take(k as int),
            decreases text@.len() - k,
        {
            self.stringtable.push(text[k]);
            proof {
                assert(self.stringtable@ =~= before + text@.take(k + 1));
            }
            k = k + 1;
        }
        self.stringtable.push(0);
        self.strings.push(Interned { text: vstd::slice::slice_to_vec(text), idx });
        proof {
            let table = self.stringtable@;
            assert(table =~= before + text@ + seq![0u8]);
            assert(table.subrange(idx as int, idx + text@.len()) =~= text@);
            assert(before.is_prefix_of(table)) by {
                assert(table.subrange(0, before.len() as int) =~= before);
            }
            assert forall|i: int| 0 <= i < self.strings@.len() implies stored(
                table,
                (#[trigger] self.strings@[i]).idx as int,
                self.strings@[i].text@,
            ) by {
                if i < started.strings@.len() {
                    assert(self.strings@[i] == started.strings@[i]);
                    lemma_stored_grows(
                        before,
                        table,
                        started.strings@[i].idx as int,
                        started.strings@[i].text@,
                    );
                }
            }
            assert forall|t: int| 0 <= t < self.slots@.len() implies in_slot(
                self.strings@,
                #[trigger] self.slots@[t],
                self.tags@[t],
            ) by {
                lemma_in_slot_grows(
                    started.strings@,
                    self.strings@,
                    started.slots@[t],
                    started.tags@[t],
                );
            }
            assert(self.strings@[started.strings@.len() as int].text@ == text@);
            lemma_tabled_push(before, started.strings@, self.strings@.last());
            assert(self.strings@ =~= started.strings@.push(self.strings@.last()));
        }
        idx
    }

    /// The slot of the tag; it is added where it is new.
    fn slot(&mut self, spec_: &TagSpec) -> (out: u64)
        requires
            old(self).wf(),
        ensures
            final(self).wf(),
            old(self).grows_to(*final(self)),
            out < final(self).slots@.len(),
            final(self).slots@[out as int].same(*spec_),
            clean_tags(old(self).slots@) && spec_.clean() ==> clean_tags(final(self).slots@),
            texts(final(self).slots@) == with_new(texts(old(self).slots@), text_of(*spec_)),
            old(self).exact() ==> final(self).exact(),
    {
        let ghost started = *self;
        let mut i: usize = 0;
        while i < self.slots.len()
            invariant
                i <= self.slots@.len(),
                *self == started,
                started == *old(self),
                started.wf(),
                forall|k: int| 0 <= k < i ==> !(#[trigger] self.slots@[k]).same(*spec_),
            decreases self.slots@.len() - i,
        {
            if same_bytes(self.slots[i].key.as_slice(), spec_.key.as_slice()) && same_bytes(
                self.slots[i].value.as_slice(),
                spec_.value.as_slice(),
            ) {
                proof {
                    assert(texts(self.slots@)[i as int] == text_of(*spec_));
                }
                return i as u64;
            }
            i = i + 1;
        }
        proof {
            lemma_new_text(started.slots@, *spec_);
        }
        let key_idx: u64 = self.intern(spec_.key.as_slice());
        let ghost keyed = *self;
        let value_idx: u64 = self.intern(spec_.value.as_slice());
        let ghost valued = *self;
        let slot: u64 = self.tags.len() as u64;
        self.tags.push(Tag { key_idx, value_idx });
        self.slots.push(TagSpec::new(spec_.key.as_slice(), spec_.value.as_slice()));
        proof {
            let at = slot as int;
            lemma_exact_slot(started, keyed, *self, self.slots@.last());
            assert(self.slots@ =~= started.slots@.push(self.slots@.last()));
            lemma_interned_grows(keyed.strings@, valued.strings@, spec_.key@, key_idx);
            assert(in_slot(self.strings@, self.slots@[at], self.tags@[at]));
            assert forall|t: int| 0 <= t < self.slots@.len() implies in_slot(
                self.strings@,
                #[trigger] self.slots@[t],
                self.tags@[t],
            ) by {
                if t < at {
                    assert(in_slot(valued.strings@, valued.slots@[t], valued.tags@[t]));
                }
            }
            assert forall|s: int, t: int|
                0 <= s < self.slots@.len() && 0 <= t < self.slots@.len() && (
                #[trigger] self.slots@[s]).same(#[trigger] self.slots@[t]) implies s == t by {
                if s < at {
                    assert(self.slots@[s] == started.slots@[s]);
                }
                if t < at {
                    assert(self.slots@[t] == started.slots@[t]);
                }
            }
        }
        slot
    }

    /// Append an entity's tags; returns their run.
    fn append(
        &mut self,
        entity_tags: &Vec<TagSpec>,
        tag_index: &mut Vec<u64>,
        Ghost(done): Ghost<Seq<TagText>>,
    ) -> (out: Span)
        requires
            old(self).wf(),
            slots_ok(old(tag_index)@, old(self).slots@),
            old(self).holds(old(tag_index)@, done),
        ensures
            out.start == old(tag_index)@.len(),
            final(self).holds(final(tag_index)@, done + texts(entity_tags@)),
            final(self).wf(),
            old(self).grows_to(*final(self)),
            begins(old(tag_index)@, final(tag_index)@),
            slots_ok(final(tag_index)@, final(self).slots@),
            out.end == final(tag_index)@.len(),
            tags_at(final(self).slots@, final(tag_index)@, out, entity_tags@),
            clean_tags(old(self).slots@) && clean_tags(entity_tags@) ==> clean_tags(
                final(self).slots@,
            ),
    {
        let ghost started = *self;
        let ghost index = tag_index@;
        let first: u64 = tag_index.len() as u64;
        let ghost given = texts(entity_tags@);
        proof {
            assert(done + given.take(0) =~= done);
        }
        let mut k: usize = 0;
        while k < entity_tags.len()
            invariant
                k <= entity_tags@.len(),
                self.wf(),
                given == texts(entity_tags@),
                self.holds(tag_index@, done + given.take(k as int)),
                clean_tags(old(self).slots@) && clean_tags(entity_tags@) ==> clean_tags(self.slots@),
                started.grows_to(*self),
                index == old(tag_index)@,
                first == index.len(),
                begins(index, tag_index@),
                tag_index@.len() == first + k,
                slots_ok(tag_index@, self.slots@),
                forall|j: int|
                    0 <= j < k ==> holds_tag(
                        self.slots@,
                        tag_index@[first + j],
                        #[trigger] entity_tags@[j],
                    ),
            decreases entity_tags@.len() - k,
        {
            let ghost before = *self;
            let slot: u64 = self.slot(&entity_tags[k]);
            let ghost named = tag_index@;
            tag_index.push(slot);
            proof {
                assert(given[k as int] == text_of(entity_tags@[k as int]));
                lemma_one_more(
                    before,
                    *self,
                    named,
                    done + given.take(k as int),
                    slot,
                    given[k as int],
                );
                assert(done + given.take(k + 1) =~= (done + given.take(k as int)).push(
                    given[k as int],
                ));
                assert(begins(started.slots@, self.slots@)) by {
                    assert(begins(before.slots@, self.slots@));
                }
                assert forall|j: int| 0 <= j < k + 1 implies holds_tag(
                    self.slots@,
                    tag_index@[first + j],
                    #[trigger] entity_tags@[j],
                ) by {
                    if j < k {
                        assert(holds_tag(before.slots@, tag_index@[first + j], entity_tags@[j]));
                        assert(self.slots@[tag_index@[first + j] as int]
                            == before.slots@[tag_index@[first + j] as int]);
                    }
                }
            }
            k = k + 1;
        }
        proof {
            assert(given.take(k as int) =~= given);
        }
        Span { start: first, end: tag_index.len() as u64 }
    }
}

/// What no slot holds is new.
proof fn lemma_new_text(slots: Seq<TagSpec>, tag: TagSpec)
    requires
        forall|k: int| 0 <= k < slots.len() ==> !(#[trigger] slots[k]).same(tag),
    ensures
        !texts(slots).contains(text_of(tag)),
{
    let known = texts(slots);
    if known.contains(text_of(tag)) {
        let j = choose|j: int| 0 <= j < known.len() && known[j] == text_of(tag);
        assert(slots[j].same(tag));
    }
}

/// A slot that was added with its strings.
proof fn lemma_exact_slot(before: TagContext, keyed: TagContext, after: TagContext, tag: TagSpec)
    requires
        after.slots@ == before.slots@.push(tag),
        !texts(before.slots@).contains(text_of(tag)),
        keyed.stringtable@.len() > 0,
        after.stringtable@.len() > 0,
        keyed.string_texts() == with_new(before.known(), tag.key@),
        after.string_texts() == with_new(keyed.known(), tag.value@),
    ensures
        texts(after.slots@) == with_new(texts(before.slots@), text_of(tag)),
        before.exact() ==> after.exact(),
{
    reveal(TagContext::exact);
    let (fewer, more) = (texts(before.slots@), texts(after.slots@));
    assert(more =~= fewer.push(text_of(tag)));
    assert(more.drop_last() =~= fewer);
}

/// `tag_index` names the slot of each of `done`.
pub open spec fn names_slots(
    slots: Seq<TagText>,
    tag_index: Seq<u64>,
    done: Seq<TagText>,
) -> bool {
    &&& tag_index.len() == done.len()
    &&& forall|j: int|
        0 <= j < done.len() ==> names_slot(slots, tag_index[j], #[trigger] done[j])
}

/// The slot holds the tag.
pub open spec fn names_slot(slots: Seq<TagText>, slot: u64, tag: TagText) -> bool {
    slot < slots.len() && slots[slot as int] == tag
}

/// Each tag that was written is named once.
proof fn lemma_holds_len(tags: TagContext, tag_index: Seq<u64>, done: Seq<TagText>)
    requires
        tags.holds(tag_index, done),
    ensures
        tag_index.len() == done.len(),
{
    reveal(TagContext::holds);
}

/// Starting the table changes nothing that was written.
proof fn lemma_holds_started(
    before: TagContext,
    after: TagContext,
    tag_index: Seq<u64>,
    done: Seq<TagText>,
)
    requires
        before.holds(tag_index, done),
        after.slots == before.slots,
        after.stringtable@.len() > 0,
        after.string_texts() == before.known(),
    ensures
        after.holds(tag_index, done),
{
    reveal(TagContext::holds);
    reveal(TagContext::exact);
}

/// One more tag is written.
proof fn lemma_one_more(
    before: TagContext,
    after: TagContext,
    tag_index: Seq<u64>,
    done: Seq<TagText>,
    slot: u64,
    tag: TagText,
)
    requires
        before.holds(tag_index, done),
        before.exact() ==> after.exact(),
        texts(after.slots@) == with_new(texts(before.slots@), tag),
        names_slot(texts(after.slots@), slot, tag),
    ensures
        after.holds(tag_index.push(slot), done.push(tag)),
{
    reveal(TagContext::holds);
    assert(done.push(tag).drop_last() =~= done);
    lemma_named_slot(texts(before.slots@), texts(after.slots@), tag_index, done, slot, tag);
}

/// The slot of one more tag.
proof fn lemma_named_slot(
    slots: Seq<TagText>,
    more: Seq<TagText>,
    tag_index: Seq<u64>,
    done: Seq<TagText>,
    slot: u64,
    tag: TagText,
)
    requires
        names_slots(slots, tag_index, done),
        more == with_new(slots, tag),
        names_slot(more, slot, tag),
    ensures
        names_slots(more, tag_index.push(slot), done.push(tag)),
{
    assert forall|j: int| 0 <= j < done.push(tag).len() implies names_slot(
        more,
        tag_index.push(slot)[j],
        #[trigger] done.push(tag)[j],
    ) by {
        if j < done.len() {
            assert(names_slot(slots, tag_index[j], done[j]));
        }
    }
}

proof fn lemma_interned_grows(strings: Seq<Interned>, more: Seq<Interned>, text: Seq<u8>, idx: u64)
    requires
        interned(strings, text, idx),
        begins(strings, more),
    ensures
        interned(more, text, idx),
{
    let i = choose|i: int|
        0 <= i < strings.len() && (#[trigger] strings[i]).text@ == text && strings[i].idx == idx;
    assert(more[i] == strings[i]);
}

proof fn lemma_in_slot_grows(strings: Seq<Interned>, more: Seq<Interned>, spec_: TagSpec, tag: Tag)
    requires
        in_slot(strings, spec_, tag),
        begins(strings, more),
    ensures
        in_slot(more, spec_, tag),
{
    lemma_interned_grows(strings, more, spec_.key@, tag.key_idx);
    lemma_interned_grows(strings, more, spec_.value@, tag.value_idx);
}

/// Every position is a slot.
spec fn slots_ok(tag_index: Seq<u64>, slots: Seq<TagSpec>) -> bool {
    forall|i: int| 0 <= i < tag_index.len() ==> (#[trigger] tag_index[i]) < slots.len()
}

/// The slot holds the tag.
spec fn holds_tag(slots: Seq<TagSpec>, slot: u64, tag: TagSpec) -> bool {
    slot < slots.len() && slots[slot as int].same(tag)
}

/// The run holds the tags, in order.
spec fn tags_at(
    slots: Seq<TagSpec>,
    tag_index: Seq<u64>,
    span: Span,
    tags: Seq<TagSpec>,
) -> bool {
    &&& span.start + tags.len() == span.end
    &&& span.end <= tag_index.len()
    &&& forall|k: int|
        0 <= k < tags.len() ==> holds_tag(slots, tag_index[span.start + k], #[trigger] tags[k])
}

proof fn lemma_tags_at_grows(
    slots: Seq<TagSpec>,
    tag_index: Seq<u64>,
    more_slots: Seq<TagSpec>,
    more_index: Seq<u64>,
    span: Span,
    tags: Seq<TagSpec>,
)
    requires
        tags_at(slots, tag_index, span, tags),
        begins(slots, more_slots),
        begins(tag_index, more_index),
    ensures
        tags_at(more_slots, more_index, span, tags),
{
    assert forall|k: int| 0 <= k < tags.len() implies holds_tag(
        more_slots,
        more_index[span.start + k],
        #[trigger] tags[k],
    ) by {
        assert(holds_tag(slots, tag_index[span.start + k], tags[k]));
        assert(more_index[span.start + k] == tag_index[span.start + k]);
    }
}

/// The slot of the archive holds the tag.
pub open spec fn carries_spec(osm: &Osm, slot: u64, tag: TagSpec) -> bool {
    &&& slot < osm.tags.len()
    &&& osm.key_string(slot as int) == tag.key@
    &&& osm.value_string(slot as int) == tag.value@
}

/// The entity's tags in the archive are `tags`, in order.
pub open spec fn carries_specs(osm: &Osm, span: Span, tags: Seq<TagSpec>) -> bool {
    &&& span.start + tags.len() == span.end
    &&& span.end <= osm.tags_index.len()
    &&& forall|k: int|
        0 <= k < tags.len() ==> carries_spec(
            osm,
            osm.tags_index@[span.start + k],
            #[trigger] tags[k],
        )
}

/// `order` lists `orig` at `at`.
pub open spec fn listed_at(order: Seq<usize>, at: u64, orig: usize) -> bool {
    at < order.len() && order[at as int] == orig
}

/// The way's nodes in the archive are those of `refs`, in order.
pub open spec fn refs_at(
    nodes_index: Seq<Option<u64>>,
    order: Seq<usize>,
    span: Span,
    refs: Seq<usize>,
) -> bool {
    &&& span.start + refs.len() == span.end
    &&& span.end <= nodes_index.len()
    &&& forall|k: int|
        0 <= k < refs.len() ==> names_ref(
            nodes_index[span.start + k],
            order,
            #[trigger] refs[k],
        )
}

/// The reference names the node that was `orig`.
pub open spec fn names_ref(at: Option<u64>, order: Seq<usize>, orig: usize) -> bool {
    match at {
        Some(n) => listed_at(order, n, orig),
        None => false,
    }
}

/// The orders that the entities of a fixture are written in.
pub struct Orders {
    pub nodes: Seq<usize>,
    pub ways: Seq<usize>,
    pub relations: Seq<usize>,
}

/// The orders by position on the curves.
pub open spec fn curve_orders<N: Fn(i32, i32) -> u64, B: Fn(Extent) -> u64>(
    fixture: &Fixture,
    point: N,
    extent: B,
) -> Orders {
    Orders {
        nodes: ordering(node_keys(fixture, point)),
        ways: ordering(way_keys(fixture, extent)),
        relations: ordering(relation_keys(fixture, extent)),
    }
}

/// The member of the archive is that of the fixture.
pub open spec fn member_at(orders: Orders, member: Member, spec_: MemberSpec) -> bool {
    &&& member.role_idx == 0
    &&& match spec_ {
        MemberSpec::Node(i) => member.kind == EntityType::Node && names_ref(
            member.idx,
            orders.nodes,
            i,
        ),
        MemberSpec::Way(i) => member.kind == EntityType::Way && names_ref(
            member.idx,
            orders.ways,
            i,
        ),
        MemberSpec::Relation(i) => member.kind == EntityType::Relation && names_ref(
            member.idx,
            orders.relations,
            i,
        ),
    }
}

/// The members of the archive are those of the fixture, in order.
pub open spec fn members_at(
    orders: Orders,
    members: Seq<Member>,
    specs: Seq<MemberSpec>,
) -> bool {
    &&& members.len() == specs.len()
    &&& forall|k: int|
        0 <= k < specs.len() ==> member_at(orders, members[k], #[trigger] specs[k])
}

/// The archive holds the fixture's geometry and members, in the orders given.
pub open spec fn holds_geometry(osm: &Osm, fixture: &Fixture, orders: Orders) -> bool {
    &&& osm.nodes.len() == fixture.nodes.len()
    &&& forall|f: int|
        0 <= f < osm.nodes@.len() ==> (#[trigger] osm.nodes@[f]).lon
            == fixture.nodes@[orders.nodes[f] as int].lon && osm.nodes@[f].lat
            == fixture.nodes@[orders.nodes[f] as int].lat
    &&& osm.ways.len() == fixture.ways.len()
    &&& forall|f: int|
        0 <= f < osm.ways@.len() ==> refs_at(
            osm.nodes_index@,
            orders.nodes,
            (#[trigger] osm.ways@[f]).refs,
            fixture.ways@[orders.ways[f] as int].refs@,
        )
    &&& osm.relations.len() == fixture.relations.len()
    &&& forall|f: int|
        0 <= f < osm.relations@.len() ==> (#[trigger] osm.relations@[f]).extent
            == fixture.relations@[orders.relations[f] as int].bbox
    &&& osm.relation_members.len() == fixture.relations.len()
    &&& forall|f: int|
        0 <= f < osm.relation_members@.len() ==> members_at(
            orders,
            (#[trigger] osm.relation_members@[f])@,
            fixture.relations@[orders.relations[f] as int].members@,
        )
}

/// The archive holds the fixture's tags, in the orders given.
pub open spec fn holds_tags(osm: &Osm, fixture: &Fixture, orders: Orders) -> bool {
    &&& forall|f: int|
        0 <= f < osm.nodes@.len() ==> carries_specs(
            osm,
            (#[trigger] osm.nodes@[f]).tags,
            fixture.nodes@[orders.nodes[f] as int].tags@,
        )
    &&& forall|f: int|
        0 <= f < osm.ways@.len() ==> carries_specs(
            osm,
            (#[trigger] osm.ways@[f]).tags,
            fixture.ways@[orders.ways[f] as int].tags@,
        )
    &&& forall|f: int|
        0 <= f < osm.relations@.len() ==> carries_specs(
            osm,
            (#[trigger] osm.relations@[f]).tags,
            fixture.relations@[orders.relations[f] as int].tags@,
        )
}

/// The tags of the nodes, the ways and the relations, in the orders given.
pub open spec fn all_tags(fixture: &Fixture, orders: Orders) -> Seq<TagText> {
    node_tags(fixture, orders.nodes, orders.nodes.len() as int) + way_tags(
        fixture,
        orders.ways,
        orders.ways.len() as int,
    ) + relation_tags(fixture, orders.relations, orders.relations.len() as int)
}

/// The distinct tags of a fixture, in the order in which they first occur.
pub open spec fn distinct_tags(fixture: &Fixture, orders: Orders) -> Seq<TagText> {
    with_all_new(Seq::empty(), all_tags(fixture, orders))
}

/// Where each entity's tags and each way's references start: right behind those
/// of the one before it.
pub open spec fn runs_follow(osm: &Osm, fixture: &Fixture, orders: Orders) -> bool {
    let of_nodes = node_tags(fixture, orders.nodes, orders.nodes.len() as int).len();
    let of_ways = way_tags(fixture, orders.ways, orders.ways.len() as int).len();
    &&& forall|f: int|
        0 <= f < osm.nodes@.len() ==> (#[trigger] osm.nodes@[f]).tags.start == node_tags(
            fixture,
            orders.nodes,
            f,
        ).len()
    &&& forall|f: int|
        0 <= f < osm.ways@.len() ==> (#[trigger] osm.ways@[f]).tags.start == of_nodes + way_tags(
            fixture,
            orders.ways,
            f,
        ).len()
    &&& forall|f: int|
        0 <= f < osm.relations@.len() ==> (#[trigger] osm.relations@[f]).tags.start == of_nodes
            + of_ways + relation_tags(fixture, orders.relations, f).len()
    &&& forall|f: int|
        0 <= f < osm.ways@.len() ==> (#[trigger] osm.ways@[f]).refs.start == refs_before(
            fixture,
            orders.ways,
            f,
        )
}

/// Where each entity's tags end: as many behind their start as it has.
pub open spec fn runs_span(osm: &Osm, fixture: &Fixture, orders: Orders) -> bool {
    &&& forall|f: int|
        0 <= f < osm.nodes@.len() ==> (#[trigger] osm.nodes@[f]).tags.end
            == osm.nodes@[f].tags.start + fixture.nodes@[orders.nodes[f] as int].tags@.len()
    &&& forall|f: int|
        0 <= f < osm.ways@.len() ==> (#[trigger] osm.ways@[f]).tags.end == osm.ways@[f].tags.start
            + fixture.ways@[orders.ways[f] as int].tags@.len()
    &&& forall|f: int|
        0 <= f < osm.relations@.len() ==> (#[trigger] osm.relations@[f]).tags.end
            == osm.relations@[f].tags.start
            + fixture.relations@[orders.relations[f] as int].tags@.len()
}

/// The slot has its key and value in the string table.
pub open spec fn slot_stored(strings: Seq<Seq<u8>>, text: TagText, tag: Tag) -> bool {
    starts_at(strings, text.0, tag.key_idx) && starts_at(strings, text.1, tag.value_idx)
}

/// The tables of the archive: one slot for each distinct tag, the slot of each tag
/// of each entity, one string for each distinct one, the empty string first, and
/// nothing else.
pub open spec fn holds_tables(osm: &Osm, fixture: &Fixture, orders: Orders) -> bool {
    let slots = distinct_tags(fixture, orders);
    let strings = strings_of(slots);
    &&& osm.stringtable@ == table_of(strings)
    &&& osm.tags@.len() == slots.len()
    &&& forall|t: int|
        0 <= t < slots.len() ==> slot_stored(strings, #[trigger] slots[t], osm.tags@[t])
    &&& names_slots(slots, osm.tags_index@, all_tags(fixture, orders))
    &&& osm.nodes_index@.len() == refs_before(fixture, orders.ways, orders.ways.len() as int)
    &&& runs_follow(osm, fixture, orders)
    &&& runs_span(osm, fixture, orders)
}

/// Write the nodes in order.
fn write_nodes(
    fixture: &Fixture,
    order: &Vec<usize>,
    tags: &mut TagContext,
    tag_index: &mut Vec<u64>,
    Ghost(done): Ghost<Seq<TagText>>,
) -> (out: Vec<Node>)
    requires
        permutes(order@, fixture.nodes@.len()),
        old(tags).wf(),
        slots_ok(old(tag_index)@, old(tags).slots@),
        old(tags).holds(old(tag_index)@, done),
    ensures
        final(tags).holds(
            final(tag_index)@,
            done + node_tags(fixture, order@, order@.len() as int),
        ),
        forall|f: int|
            0 <= f < out@.len() ==> (#[trigger] out@[f]).tags.start == done.len() + node_tags(
                fixture,
                order@,
                f,
            ).len(),
        final(tags).wf(),
        old(tags).grows_to(*final(tags)),
        begins(old(tag_index)@, final(tag_index)@),
        slots_ok(final(tag_index)@, final(tags).slots@),
        clean_tags(old(tags).slots@) && fixture.clean() ==> clean_tags(final(tags).slots@),
        out@.len() == order@.len(),
        forall|f: int|
            0 <= f < out@.len() ==> node_written(
                fixture.nodes@[order@[f] as int],
                #[trigger] out@[f],
                final(tags).slots@,
                final(tag_index)@,
            ),
{
    let mut out: Vec<Node> = Vec::new();
    let mut f: usize = 0;
    proof {
        assert(done + node_tags(fixture, order@, 0) =~= done);
    }
    while f < order.len()
        invariant
            f <= order@.len(),
            permutes(order@, fixture.nodes@.len()),
            tags.wf(),
            old(tags).grows_to(*tags),
            begins(old(tag_index)@, tag_index@),
            slots_ok(tag_index@, tags.slots@),
            tags.holds(tag_index@, done + node_tags(fixture, order@, f as int)),
            forall|g: int|
                0 <= g < f ==> (#[trigger] out@[g]).tags.start == done.len() + node_tags(
                    fixture,
                    order@,
                    g,
                ).len(),
            clean_tags(old(tags).slots@) && fixture.clean() ==> clean_tags(tags.slots@),
            out@.len() == f,
            forall|g: int|
                0 <= g < f ==> node_written(
                    fixture.nodes@[order@[g] as int],
                    #[trigger] out@[g],
                    tags.slots@,
                    tag_index@,
                ),
        decreases order@.len() - f,
    {
        let ghost (slots, index) = (tags.slots@, tag_index@);
        let ghost written = out@;
        let spec_ = &fixture.nodes[order[f]];
        proof {
            lemma_holds_len(*tags, tag_index@, done + node_tags(fixture, order@, f as int));
        }
        let span = tags.append(
            &spec_.tags,
            tag_index,
            Ghost(done + node_tags(fixture, order@, f as int)),
        );
        out.push(Node { lon: spec_.lon, lat: spec_.lat, tags: span });
        proof {
            assert(done + node_tags(fixture, order@, f as int) + texts(spec_.tags@) =~= done + node_tags(
                fixture,
                order@,
                f + 1,
            ));
            assert forall|g: int| 0 <= g < f + 1 implies node_written(
                fixture.nodes@[order@[g] as int],
                #[trigger] out@[g],
                tags.slots@,
                tag_index@,
            ) by {
                if g < f {
                    assert(out@[g] == written[g]);
                    lemma_tags_at_grows(
                        slots,
                        index,
                        tags.slots@,
                        tag_index@,
                        written[g].tags,
                        fixture.nodes@[order@[g] as int].tags@,
                    );
                }
            }
        }
        f = f + 1;
    }
    out
}

/// The node is that of the fixture.
spec fn node_written(
    spec_: NodeSpec,
    node: Node,
    slots: Seq<TagSpec>,
    tag_index: Seq<u64>,
) -> bool {
    &&& node.lon == spec_.lon
    &&& node.lat == spec_.lat
    &&& tags_at(slots, tag_index, node.tags, spec_.tags@)
}

/// Write the ways in order.
fn write_ways(
    fixture: &Fixture,
    order: &Vec<usize>,
    node_at: &Vec<u64>,
    Ghost(nodes): Ghost<Seq<usize>>,
    tags: &mut TagContext,
    tag_index: &mut Vec<u64>,
    Ghost(done): Ghost<Seq<TagText>>,
) -> (out: (Vec<Way>, Vec<Option<u64>>))
    requires
        fixture.wf(),
        permutes(order@, fixture.ways@.len()),
        nodes.len() == fixture.nodes@.len(),
        inverts(nodes, node_at@),
        old(tags).wf(),
        slots_ok(old(tag_index)@, old(tags).slots@),
        old(tags).holds(old(tag_index)@, done),
    ensures
        final(tags).holds(
            final(tag_index)@,
            done + way_tags(fixture, order@, order@.len() as int),
        ),
        forall|f: int|
            0 <= f < out.0@.len() ==> (#[trigger] out.0@[f]).tags.start == done.len() + way_tags(
                fixture,
                order@,
                f,
            ).len(),
        final(tags).wf(),
        old(tags).grows_to(*final(tags)),
        begins(old(tag_index)@, final(tag_index)@),
        slots_ok(final(tag_index)@, final(tags).slots@),
        clean_tags(old(tags).slots@) && fixture.clean() ==> clean_tags(final(tags).slots@),
        out.0@.len() == order@.len(),
        nodes_ok(out.1@, fixture.nodes@.len()),
        out.1@.len() == refs_before(fixture, order@, order@.len() as int),
        forall|f: int|
            0 <= f < out.0@.len() ==> (#[trigger] out.0@[f]).refs.start == refs_before(
                fixture,
                order@,
                f,
            ),
        forall|f: int|
            0 <= f < out.0@.len() ==> way_written(
                fixture.ways@[order@[f] as int],
                #[trigger] out.0@[f],
                final(tags).slots@,
                final(tag_index)@,
            ) && refs_at(
                out.1@,
                nodes,
                out.0@[f].refs,
                fixture.ways@[order@[f] as int].refs@,
            ),
{
    let mut out: Vec<Way> = Vec::new();
    let mut nodes_index: Vec<Option<u64>> = Vec::new();
    let mut f: usize = 0;
    proof {
        assert(done + way_tags(fixture, order@, 0) =~= done);
    }
    while f < order.len()
        invariant
            f <= order@.len(),
            fixture.wf(),
            permutes(order@, fixture.ways@.len()),
            nodes.len() == fixture.nodes@.len(),
            inverts(nodes, node_at@),
            tags.wf(),
            old(tags).grows_to(*tags),
            begins(old(tag_index)@, tag_index@),
            slots_ok(tag_index@, tags.slots@),
            tags.holds(tag_index@, done + way_tags(fixture, order@, f as int)),
            forall|g: int|
                0 <= g < f ==> (#[trigger] out@[g]).tags.start == done.len() + way_tags(
                    fixture,
                    order@,
                    g,
                ).len(),
            clean_tags(old(tags).slots@) && fixture.clean() ==> clean_tags(tags.slots@),
            out@.len() == f,
            nodes_ok(nodes_index@, fixture.nodes@.len()),
            nodes_index@.len() == refs_before(fixture, order@, f as int),
            forall|g: int|
                0 <= g < f ==> (#[trigger] out@[g]).refs.start == refs_before(fixture, order@, g),
            forall|g: int|
                0 <= g < f ==> way_written(
                    fixture.ways@[order@[g] as int],
                    #[trigger] out@[g],
                    tags.slots@,
                    tag_index@,
                ) && refs_at(
                    nodes_index@,
                    nodes,
                    out@[g].refs,
                    fixture.ways@[order@[g] as int].refs@,
                ),
        decreases order@.len() - f,
    {
        let ghost (slots, index, refs_before) = (tags.slots@, tag_index@, nodes_index@);
        let ghost written = out@;
        let spec_ = &fixture.ways[order[f]];
        proof {
            lemma_holds_len(*tags, tag_index@, done + way_tags(fixture, order@, f as int));
        }
        let span = tags.append(
            &spec_.tags,
            tag_index,
            Ghost(done + way_tags(fixture, order@, f as int)),
        );
        let refs = append_refs(
            &spec_.refs,
            node_at,
            Ghost(nodes),
            &mut nodes_index,
        );
        out.push(Way { tags: span, refs });
        proof {
            assert(done + way_tags(fixture, order@, f as int) + texts(spec_.tags@) =~= done + way_tags(
                fixture,
                order@,
                f + 1,
            ));
            assert forall|g: int| 0 <= g < f + 1 implies way_written(
                fixture.ways@[order@[g] as int],
                #[trigger] out@[g],
                tags.slots@,
                tag_index@,
            ) && refs_at(
                nodes_index@,
                nodes,
                out@[g].refs,
                fixture.ways@[order@[g] as int].refs@,
            ) by {
                if g < f {
                    assert(out@[g] == written[g]);
                    lemma_tags_at_grows(
                        slots,
                        index,
                        tags.slots@,
                        tag_index@,
                        written[g].tags,
                        fixture.ways@[order@[g] as int].tags@,
                    );
                    lemma_refs_at_grows(
                        refs_before,
                        nodes_index@,
                        nodes,
                        written[g].refs,
                        fixture.ways@[order@[g] as int].refs@,
                    );
                }
            }
        }
        f = f + 1;
    }
    (out, nodes_index)
}

/// The way is that of the fixture.
spec fn way_written(spec_: WaySpec, way: Way, slots: Seq<TagSpec>, tag_index: Seq<u64>) -> bool {
    tags_at(slots, tag_index, way.tags, spec_.tags@)
}

/// Every reference names a node.
spec fn nodes_ok(nodes_index: Seq<Option<u64>>, n: nat) -> bool {
    forall|i: int| 0 <= i < nodes_index.len() ==> names_some(#[trigger] nodes_index[i], n)
}

spec fn names_some(at: Option<u64>, n: nat) -> bool {
    match at {
        Some(i) => i < n,
        None => false,
    }
}

/// Append a way's references; returns their run.
fn append_refs(
    refs: &Vec<usize>,
    node_at: &Vec<u64>,
    Ghost(nodes): Ghost<Seq<usize>>,
    nodes_index: &mut Vec<Option<u64>>,
) -> (out: Span)
    requires
        refs_ok(refs@, node_at.len()),
        inverts(nodes, node_at@),
        nodes_ok(old(nodes_index)@, nodes.len()),
    ensures
        begins(old(nodes_index)@, final(nodes_index)@),
        nodes_ok(final(nodes_index)@, nodes.len()),
        out.start == old(nodes_index)@.len(),
        out.end == final(nodes_index)@.len(),
        refs_at(final(nodes_index)@, nodes, out, refs@),
{
    let first: u64 = nodes_index.len() as u64;
    let mut k: usize = 0;
    while k < refs.len()
        invariant
            k <= refs@.len(),
            refs_ok(refs@, node_at.len()),
            inverts(nodes, node_at@),
            first == old(nodes_index)@.len(),
            nodes_index@.len() == first + k,
            begins(old(nodes_index)@, nodes_index@),
            nodes_ok(nodes_index@, nodes.len()),
            forall|j: int|
                0 <= j < k ==> names_ref(nodes_index@[first + j], nodes, #[trigger] refs@[j]),
        decreases refs@.len() - k,
    {
        let at: u64 = node_at[refs[k]];
        nodes_index.push(Some(at));
        k = k + 1;
    }
    Span { start: first, end: nodes_index.len() as u64 }
}

proof fn lemma_refs_at_grows(
    nodes_index: Seq<Option<u64>>,
    more: Seq<Option<u64>>,
    order: Seq<usize>,
    span: Span,
    refs: Seq<usize>,
)
    requires
        refs_at(nodes_index, order, span, refs),
        begins(nodes_index, more),
    ensures
        refs_at(more, order, span, refs),
{
    assert forall|k: int| 0 <= k < refs.len() implies names_ref(
        more[span.start + k],
        order,
        #[trigger] refs[k],
    ) by {
        assert(more[span.start + k] == nodes_index[span.start + k]);
    }
}

/// Write the relations in order.
fn write_relations(
    fixture: &Fixture,
    order: &Vec<usize>,
    tags: &mut TagContext,
    tag_index: &mut Vec<u64>,
    Ghost(done): Ghost<Seq<TagText>>,
) -> (out: Vec<Relation>)
    requires
        permutes(order@, fixture.relations@.len()),
        old(tags).wf(),
        slots_ok(old(tag_index)@, old(tags).slots@),
        old(tags).holds(old(tag_index)@, done),
    ensures
        final(tags).holds(
            final(tag_index)@,
            done + relation_tags(fixture, order@, order@.len() as int),
        ),
        forall|f: int|
            0 <= f < out@.len() ==> (#[trigger] out@[f]).tags.start == done.len() + relation_tags(
                fixture,
                order@,
                f,
            ).len(),
        final(tags).wf(),
        old(tags).grows_to(*final(tags)),
        begins(old(tag_index)@, final(tag_index)@),
        slots_ok(final(tag_index)@, final(tags).slots@),
        clean_tags(old(tags).slots@) && fixture.clean() ==> clean_tags(final(tags).slots@),
        out@.len() == order@.len(),
        forall|f: int|
            0 <= f < out@.len() ==> relation_written(
                fixture.relations@[order@[f] as int],
                #[trigger] out@[f],
                final(tags).slots@,
                final(tag_index)@,
            ),
{
    let mut out: Vec<Relation> = Vec::new();
    let mut f: usize = 0;
    proof {
        assert(done + relation_tags(fixture, order@, 0) =~= done);
    }
    while f < order.len()
        invariant
            f <= order@.len(),
            permutes(order@, fixture.relations@.len()),
            tags.wf(),
            old(tags).grows_to(*tags),
            begins(old(tag_index)@, tag_index@),
            slots_ok(tag_index@, tags.slots@),
            tags.holds(tag_index@, done + relation_tags(fixture, order@, f as int)),
            forall|g: int|
                0 <= g < f ==> (#[trigger] out@[g]).tags.start == done.len() + relation_tags(
                    fixture,
                    order@,
                    g,
                ).len(),
            clean_tags(old(tags).slots@) && fixture.clean() ==> clean_tags(tags.slots@),
            out@.len() == f,
            forall|g: int|
                0 <= g < f ==> relation_written(
                    fixture.relations@[order@[g] as int],
                    #[trigger] out@[g],
                    tags.slots@,
                    tag_index@,
                ),
        decreases order@.len() - f,
    {
        let ghost (slots, index) = (tags.slots@, tag_index@);
        let ghost written = out@;
        let spec_ = &fixture.relations[order[f]];
        proof {
            lemma_holds_len(*tags, tag_index@, done + relation_tags(fixture, order@, f as int));
        }
        let span = tags.append(
            &spec_.tags,
            tag_index,
            Ghost(done + relation_tags(fixture, order@, f as int)),
        );
        out.push(Relation { tags: span, extent: spec_.bbox });
        proof {
            assert(done + relation_tags(fixture, order@, f as int) + texts(spec_.tags@) =~= done + relation_tags(
                fixture,
                order@,
                f + 1,
            ));
            assert forall|g: int| 0 <= g < f + 1 implies relation_written(
                fixture.relations@[order@[g] as int],
                #[trigger] out@[g],
                tags.slots@,
                tag_index@,
            ) by {
                if g < f {
                    assert(out@[g] == written[g]);
                    lemma_tags_at_grows(
                        slots,
                        index,
                        tags.slots@,
                        tag_index@,
                        written[g].tags,
                        fixture.relations@[order@[g] as int].tags@,
                    );
                }
            }
        }
        f = f + 1;
    }
    out
}

/// The relation is that of the fixture.
spec fn relation_written(
    spec_: RelationSpec,
    relation: Relation,
    slots: Seq<TagSpec>,
    tag_index: Seq<u64>,
) -> bool {
    &&& relation.extent == spec_.bbox
    &&& tags_at(slots, tag_index, relation.tags, spec_.tags@)
}

/// Where each entity of the fixture is written.
struct Places {
    nodes: Vec<u64>,
    ways: Vec<u64>,
    relations: Vec<u64>,
}

impl Places {
    spec fn invert(self, orders: Orders) -> bool {
        &&& inverts(orders.nodes, self.nodes@)
        &&& inverts(orders.ways, self.ways@)
        &&& inverts(orders.relations, self.relations@)
    }
}

/// Write one relation's members.
fn write_members_of(
    fixture: &Fixture,
    specs: &Vec<MemberSpec>,
    places: &Places,
    Ghost(orders): Ghost<Orders>,
) -> (out: Vec<Member>)
    requires
        fixture.members_ok(specs@),
        places.invert(orders),
        orders.nodes.len() == fixture.nodes@.len(),
        orders.ways.len() == fixture.ways@.len(),
        orders.relations.len() == fixture.relations@.len(),
    ensures
        members_at(orders, out@, specs@),
{
    let mut out: Vec<Member> = Vec::new();
    let mut k: usize = 0;
    while k < specs.len()
        invariant
            k <= specs@.len(),
            fixture.members_ok(specs@),
            places.invert(orders),
            orders.nodes.len() == fixture.nodes@.len(),
            orders.ways.len() == fixture.ways@.len(),
            orders.relations.len() == fixture.relations@.len(),
            out@.len() == k,
            forall|j: int| 0 <= j < k ==> member_at(orders, out@[j], #[trigger] specs@[j]),
        decreases specs@.len() - k,
    {
        let (kind, at): (EntityType, u64) = match specs[k] {
            MemberSpec::Node(i) => (EntityType::Node, places.nodes[i]),
            MemberSpec::Way(i) => (EntityType::Way, places.ways[i]),
            MemberSpec::Relation(i) => (EntityType::Relation, places.relations[i]),
        };
        out.push(Member { kind, idx: Some(at), role_idx: 0 });
        k = k + 1;
    }
    out
}

/// Write the members of each relation in order.
fn write_members(
    fixture: &Fixture,
    order: &Vec<usize>,
    places: &Places,
    Ghost(orders): Ghost<Orders>,
) -> (out: Vec<Vec<Member>>)
    requires
        fixture.wf(),
        order@ == orders.relations,
        permutes(orders.nodes, fixture.nodes@.len()),
        permutes(orders.ways, fixture.ways@.len()),
        permutes(orders.relations, fixture.relations@.len()),
        places.invert(orders),
    ensures
        out@.len() == order@.len(),
        forall|f: int|
            0 <= f < out@.len() ==> members_at(
                orders,
                (#[trigger] out@[f])@,
                fixture.relations@[order@[f] as int].members@,
            ),
{
    let mut out: Vec<Vec<Member>> = Vec::new();
    let mut f: usize = 0;
    while f < order.len()
        invariant
            f <= order@.len(),
            fixture.wf(),
            order@ == orders.relations,
            permutes(orders.nodes, fixture.nodes@.len()),
            permutes(orders.ways, fixture.ways@.len()),
            permutes(orders.relations, fixture.relations@.len()),
            places.invert(orders),
            out@.len() == f,
            forall|g: int|
                0 <= g < f ==> members_at(
                    orders,
                    (#[trigger] out@[g])@,
                    fixture.relations@[order@[g] as int].members@,
                ),
        decreases order@.len() - f,
    {
        let members = write_members_of(
            fixture,
            &fixture.relations[order[f]].members,
            places,
            Ghost(orders),
        );
        out.push(members);
        f = f + 1;
    }
    out
}

/// A ranking lists each position once.
proof fn lemma_permutes(keys: Seq<u64>, order: Seq<usize>)
    requires
        is_ranking(flipped(keys), order),
    ensures
        permutes(order, keys.len()),
{
}

/// The strings of each slot stand in the table.
proof fn lemma_slot_strings(osm: &Osm, tags: TagContext, t: int)
    requires
        tags.wf(),
        osm.tags@ == tags.tags@,
        osm.stringtable@ == tags.stringtable@,
        0 <= t < tags.slots@.len(),
    ensures
        osm.tags@[t].key_idx <= osm.stringtable.len(),
        osm.tags@[t].value_idx <= osm.stringtable.len(),
        tags.slots@[t].clean() ==> osm.key_string(t) == tags.slots@[t].key@ && osm.value_string(t)
            == tags.slots@[t].value@,
{
    let slot = tags.slots@[t];
    assert(in_slot(tags.strings@, slot, tags.tags@[t]));
    let i = choose|i: int|
        0 <= i < tags.strings@.len() && (#[trigger] tags.strings@[i]).text@ == slot.key@
            && tags.strings@[i].idx == tags.tags@[t].key_idx;
    let j = choose|j: int|
        0 <= j < tags.strings@.len() && (#[trigger] tags.strings@[j]).text@ == slot.value@
            && tags.strings@[j].idx == tags.tags@[t].value_idx;
    assert(stored(tags.stringtable@, tags.strings@[i].idx as int, tags.strings@[i].text@));
    assert(stored(tags.stringtable@, tags.strings@[j].idx as int, tags.strings@[j].text@));
    if slot.clean() {
        lemma_stored_string(tags.stringtable@, tags.strings@[i].idx as int, slot.key@);
        lemma_stored_string(tags.stringtable@, tags.strings@[j].idx as int, slot.value@);
    }
}

/// A text is interned in one place.
proof fn lemma_interned_once(tags: TagContext, text: Seq<u8>, a: u64, b: u64)
    requires
        tags.wf(),
        interned(tags.strings@, text, a),
        interned(tags.strings@, text, b),
    ensures
        a == b,
{
    let i = choose|i: int|
        0 <= i < tags.strings@.len() && (#[trigger] tags.strings@[i]).text@ == text
            && tags.strings@[i].idx == a;
    let j = choose|j: int|
        0 <= j < tags.strings@.len() && (#[trigger] tags.strings@[j]).text@ == text
            && tags.strings@[j].idx == b;
    assert(tags.strings@[i].text@ == tags.strings@[j].text@);
}

/// The tags of the archive are deduplicated.
proof fn lemma_deduplicated(osm: &Osm, tags: TagContext)
    requires
        tags.wf(),
        clean_tags(tags.slots@),
        osm.tags@ == tags.tags@,
        osm.stringtable@ == tags.stringtable@,
    ensures
        osm.deduplicated(),
{
    assert forall|s: int, t: int|
        0 <= s < osm.tags.len() && 0 <= t < osm.tags.len() && #[trigger] osm.key_string(s)
            == #[trigger] osm.key_string(t) implies osm.tags@[s].key_idx
        == osm.tags@[t].key_idx by {
        lemma_slot_strings(osm, tags, s);
        lemma_slot_strings(osm, tags, t);
        assert(tags.slots@[s].clean() && tags.slots@[t].clean());
        assert(in_slot(tags.strings@, tags.slots@[s], tags.tags@[s]));
        assert(in_slot(tags.strings@, tags.slots@[t], tags.tags@[t]));
        lemma_interned_once(
            tags,
            tags.slots@[s].key@,
            tags.tags@[s].key_idx,
            tags.tags@[t].key_idx,
        );
    }
    assert forall|s: int, t: int|
        0 <= s < osm.tags.len() && 0 <= t < osm.tags.len() && osm.tags@[s].key_idx
            == osm.tags@[t].key_idx && #[trigger] osm.value_string(s)
            == #[trigger] osm.value_string(t) implies s == t by {
        lemma_slot_strings(osm, tags, s);
        lemma_slot_strings(osm, tags, t);
        assert(tags.slots@[s].clean() && tags.slots@[t].clean());
        assert(osm.key_string(s) == osm.key_string(t));
        assert(tags.slots@[s].same(tags.slots@[t]));
    }
}

/// The run of the archive holds the tags.
proof fn lemma_carries_specs(osm: &Osm, tags: TagContext, span: Span, specs: Seq<TagSpec>)
    requires
        tags.wf(),
        clean_tags(tags.slots@),
        osm.tags@ == tags.tags@,
        osm.stringtable@ == tags.stringtable@,
        tags_at(tags.slots@, osm.tags_index@, span, specs),
    ensures
        carries_specs(osm, span, specs),
{
    assert forall|k: int| 0 <= k < specs.len() implies carries_spec(
        osm,
        osm.tags_index@[span.start + k],
        #[trigger] specs[k],
    ) by {
        let slot = osm.tags_index@[span.start + k];
        assert(holds_tag(tags.slots@, slot, specs[k]));
        assert(tags.slots@[slot as int].clean());
        lemma_slot_strings(osm, tags, slot as int);
    }
}

/// Every member names an entity of the archive.
proof fn lemma_members_ok(osm: &Osm, fixture: &Fixture, orders: Orders, r: int, m: int)
    requires
        holds_geometry(osm, fixture, orders),
        orders.nodes.len() == fixture.nodes@.len(),
        orders.ways.len() == fixture.ways@.len(),
        orders.relations.len() == fixture.relations@.len(),
        0 <= r < osm.relation_members@.len(),
        0 <= m < osm.relation_members@[r]@.len(),
    ensures
        osm.member_ok(osm.relation_members@[r]@[m]),
{
    let specs = fixture.relations@[orders.relations[r] as int].members@;
    assert(members_at(orders, osm.relation_members@[r]@, specs));
    assert(member_at(orders, osm.relation_members@[r]@[m], specs[m]));
}

/// Build a parent archive from a fixture, its entities in curve order: `point`
/// and `extent` say where a node and an extent are on the curves. `schema` is the
/// schema text that the archive is written with.
pub fn build_parent_archive<N: Fn(i32, i32) -> u64, B: Fn(Extent) -> u64>(
    fixture: &Fixture,
    schema: &[u8],
    point: &N,
    extent: &B,
) -> (out: Osm)
    requires
        fixture.wf(),
        keys_points(*point),
        keys_extents(*extent),
    ensures
        out.wf(),
        out.header == (Header {
            coord_scale: COORD_SCALE,
            bbox: Extent { min_lon: 0, min_lat: 0, max_lon: 0, max_lat: 0 },
            replication_sequence_number: 0,
        }),
        out.schema@ == schema@,
        holds_geometry(&out, fixture, curve_orders(fixture, *point, *extent)),
        holds_tables(&out, fixture, curve_orders(fixture, *point, *extent)),
        out.stringtable@.len() > 0 && out.stringtable@[0] == 0,
        forall|t: u64| t < out.tags.len() ==> #[trigger] is_carried(&out, t),
        fixture.clean() ==> holds_tags(&out, fixture, curve_orders(fixture, *point, *extent)),
        fixture.clean() ==> out.deduplicated(),
{
    let node_order = node_order(fixture, point);
    let way_order = way_order(fixture, extent);
    let relation_order = relation_order(fixture, extent);
    proof {
        lemma_permutes(node_keys(fixture, *point), node_order@);
        lemma_permutes(way_keys(fixture, *extent), way_order@);
        lemma_permutes(relation_keys(fixture, *extent), relation_order@);
    }
    let ghost orders = curve_orders(fixture, *point, *extent);
    let places = Places {
        nodes: inverse_order(fixture.nodes.len(), node_order.as_slice()),
        ways: inverse_order(fixture.ways.len(), way_order.as_slice()),
        relations: inverse_order(fixture.relations.len(), relation_order.as_slice()),
    };
    let mut tags = TagContext::new();
    let mut tags_index: Vec<u64> = Vec::new();
    let nodes = write_nodes(
        fixture,
        &node_order,
        &mut tags,
        &mut tags_index,
        Ghost(Seq::empty()),
    );
    let ghost done_1 = Seq::<TagText>::empty() + node_tags(
        fixture,
        node_order@,
        node_order@.len() as int,
    );
    let ghost (slots_1, index_1) = (tags.slots@, tags_index@);
    let (ways, nodes_index) = write_ways(
        fixture,
        &way_order,
        &places.nodes,
        Ghost(orders.nodes),
        &mut tags,
        &mut tags_index,
        Ghost(done_1),
    );
    let ghost done_2 = done_1 + way_tags(fixture, way_order@, way_order@.len() as int);
    let ghost (slots_2, index_2) = (tags.slots@, tags_index@);
    let relations = write_relations(
        fixture,
        &relation_order,
        &mut tags,
        &mut tags_index,
        Ghost(done_2),
    );
    let relation_members = write_members(fixture, &relation_order, &places, Ghost(orders));
    let ghost unstarted = tags;
    tags.ensure_stringtable();
    let ghost done = tags;
    let TagContext { stringtable, strings: _, slots: _, tags } = tags;
    let out = Osm {
        header: Header {
            coord_scale: COORD_SCALE,
            bbox: Extent { min_lon: 0, min_lat: 0, max_lon: 0, max_lat: 0 },
            replication_sequence_number: 0,
        },
        nodes,
        ways,
        relations,
        relation_members,
        tags,
        tags_index,
        nodes_index,
        stringtable,
        schema: vstd::slice::slice_to_vec(schema),
    };
    proof {
        assert forall|f: int| 0 <= f < out.nodes@.len() implies node_written(
            fixture.nodes@[orders.nodes[f] as int],
            #[trigger] out.nodes@[f],
            done.slots@,
            out.tags_index@,
        ) by {
            lemma_tags_at_grows(
                slots_1,
                index_1,
                done.slots@,
                out.tags_index@,
                out.nodes@[f].tags,
                fixture.nodes@[orders.nodes[f] as int].tags@,
            );
        }
        assert forall|f: int| 0 <= f < out.ways@.len() implies way_written(
            fixture.ways@[orders.ways[f] as int],
            #[trigger] out.ways@[f],
            done.slots@,
            out.tags_index@,
        ) by {
            lemma_tags_at_grows(
                slots_2,
                index_2,
                done.slots@,
                out.tags_index@,
                out.ways@[f].tags,
                fixture.ways@[orders.ways[f] as int].tags@,
            );
        }
        assert forall|f: int| 0 <= f < out.relations@.len() implies relation_written(
            fixture.relations@[orders.relations[f] as int],
            #[trigger] out.relations@[f],
            done.slots@,
            out.tags_index@,
        ) by {
        }
        assert(holds_geometry(&out, fixture, orders));
        assert(done_2 + relation_tags(fixture, relation_order@, relation_order@.len() as int)
            =~= all_tags(fixture, orders));
        lemma_holds_started(unstarted, done, out.tags_index@, all_tags(fixture, orders));
        lemma_tables(&out, fixture, orders, done);
        lemma_parent_wf(&out, fixture, orders, done);
        lemma_strings_front(distinct_tags(fixture, orders));
        assert forall|t: u64| t < out.tags.len() implies #[trigger] is_carried(&out, t) by {
            every_slot_is_carried(&out, fixture, orders, t);
        }
        if fixture.clean() {
            assert(clean_tags(done.slots@));
            lemma_deduplicated(&out, done);
            lemma_holds_tags(&out, fixture, orders, done);
        }
    }
    out
}

/// The tables are those of the fixture.
proof fn lemma_tables(osm: &Osm, fixture: &Fixture, orders: Orders, tags: TagContext)
    requires
        tags.wf(),
        tags.stringtable@.len() > 0,
        tags.holds(osm.tags_index@, all_tags(fixture, orders)),
        osm.tags@ == tags.tags@,
        osm.stringtable@ == tags.stringtable@,
        osm.nodes_index@.len() == refs_before(fixture, orders.ways, orders.ways.len() as int),
        runs_follow(osm, fixture, orders),
        all_written(osm, fixture, orders, tags),
    ensures
        holds_tables(osm, fixture, orders),
{
    reveal(TagContext::holds);
    reveal(TagContext::exact);
    reveal(tabled);
    let slots = distinct_tags(fixture, orders);
    let strings = strings_of(slots);
    assert(tags.string_texts() == strings);
    assert forall|t: int| 0 <= t < slots.len() implies slot_stored(
        strings,
        #[trigger] slots[t],
        osm.tags@[t],
    ) by {
        assert(slots[t] == text_of(tags.slots@[t]));
        assert(in_slot(tags.strings@, tags.slots@[t], tags.tags@[t]));
        lemma_starts_at(tags, slots[t].0, osm.tags@[t].key_idx);
        lemma_starts_at(tags, slots[t].1, osm.tags@[t].value_idx);
    }
}

proof fn lemma_starts_at(tags: TagContext, text: Seq<u8>, idx: u64)
    requires
        tags.wf(),
        interned(tags.strings@, text, idx),
    ensures
        starts_at(tags.string_texts(), text, idx),
{
    reveal(tabled);
    let i = choose|i: int|
        0 <= i < tags.strings@.len() && (#[trigger] tags.strings@[i]).text@ == text
            && tags.strings@[i].idx == idx;
    assert(tags.string_texts()[i] == text);
}

/// Some entity carries the slot.
pub open spec fn is_carried(osm: &Osm, slot: u64) -> bool {
    exists|entity: EntityType, i: int|
        0 <= i < osm.len_of(entity) && #[trigger] carries(osm, entity, i, slot)
}

/// A list that starts with the empty string has a table that starts with its
/// terminator.
proof fn lemma_table_front(strings: Seq<Seq<u8>>)
    requires
        strings.len() > 0,
        strings[0].len() == 0,
    ensures
        table_of(strings).len() > 0,
        table_of(strings)[0] == 0,
    decreases strings.len(),
{
    if strings.len() > 1 {
        lemma_table_front(strings.drop_last());
    } else {
        assert(strings.drop_last() =~= Seq::<Seq<u8>>::empty());
        assert(table_of(strings.drop_last()).len() == 0);
        assert(strings.last() == strings[0]);
    }
}

/// The empty string is the first of the table.
proof fn lemma_strings_front(slots: Seq<TagText>)
    ensures
        strings_of(slots).len() > 0,
        strings_of(slots)[0].len() == 0,
        table_of(strings_of(slots)).len() > 0,
        table_of(strings_of(slots))[0] == 0,
    decreases slots.len(),
{
    if slots.len() > 0 {
        lemma_strings_front(slots.drop_last());
    }
    lemma_table_front(strings_of(slots));
}

/// What is added where it is new is added once, and comes from the list.
proof fn lemma_all_new<T>(more: Seq<T>)
    ensures
        with_all_new(Seq::<T>::empty(), more).no_duplicates(),
        forall|x: T| #[trigger]
            with_all_new(Seq::<T>::empty(), more).contains(x) <==> more.contains(x),
    decreases more.len(),
{
    let out = with_all_new(Seq::<T>::empty(), more);
    if more.len() > 0 {
        let (fewer, last) = (more.drop_last(), more.last());
        lemma_all_new(fewer);
        let before = with_all_new(Seq::<T>::empty(), fewer);
        assert(more =~= fewer.push(last));
        assert forall|x: T| #[trigger] out.contains(x) <==> more.contains(x) by {
            vstd::seq_lib::lemma_seq_contains_after_push(fewer, last, x);
            vstd::seq_lib::lemma_seq_contains_after_push(before, last, x);
            assert(before.contains(x) <==> fewer.contains(x));
            assert(before.contains(last) <==> fewer.contains(last));
        }
        if !before.contains(last) {
            assert forall|i: int, j: int| 0 <= i < j < out.len() implies out[i] != out[j] by {
                if j == before.len() {
                    assert(before.contains(before[i]));
                }
            }
        }
    }
}

/// The node that the tag at `j` belongs to.
proof fn lemma_node_of(fixture: &Fixture, order: Seq<usize>, n: int, j: int) -> (f: int)
    requires
        0 <= n,
        0 <= j < node_tags(fixture, order, n).len(),
    ensures
        0 <= f < n,
        node_tags(fixture, order, f).len() <= j < node_tags(fixture, order, f).len()
            + fixture.nodes@[order[f] as int].tags@.len(),
    decreases n,
{
    if j < node_tags(fixture, order, n - 1).len() {
        lemma_node_of(fixture, order, n - 1, j)
    } else {
        n - 1
    }
}

/// The way that the tag at `j` belongs to.
proof fn lemma_way_of(fixture: &Fixture, order: Seq<usize>, n: int, j: int) -> (f: int)
    requires
        0 <= n,
        0 <= j < way_tags(fixture, order, n).len(),
    ensures
        0 <= f < n,
        way_tags(fixture, order, f).len() <= j < way_tags(fixture, order, f).len()
            + fixture.ways@[order[f] as int].tags@.len(),
    decreases n,
{
    if j < way_tags(fixture, order, n - 1).len() {
        lemma_way_of(fixture, order, n - 1, j)
    } else {
        n - 1
    }
}

/// The relation that the tag at `j` belongs to.
proof fn lemma_relation_of(fixture: &Fixture, order: Seq<usize>, n: int, j: int) -> (f: int)
    requires
        0 <= n,
        0 <= j < relation_tags(fixture, order, n).len(),
    ensures
        0 <= f < n,
        relation_tags(fixture, order, f).len() <= j < relation_tags(fixture, order, f).len()
            + fixture.relations@[order[f] as int].tags@.len(),
    decreases n,
{
    if j < relation_tags(fixture, order, n - 1).len() {
        lemma_relation_of(fixture, order, n - 1, j)
    } else {
        n - 1
    }
}

/// An entity whose run holds position `j` carries the slot there.
proof fn lemma_run_carries(osm: &Osm, entity: EntityType, i: int, j: int)
    requires
        osm.wf(),
        0 <= i < osm.len_of(entity),
        osm.tag_span(entity, i).start <= j < osm.tag_span(entity, i).end,
    ensures
        is_carried(osm, osm.tags_index@[j]),
{
    let span = osm.tag_span(entity, i);
    assert(span.within(osm.tags_index.len() as nat)) by {
        match entity {
            EntityType::Node => {
                assert(osm.nodes@[i].tags == span);
            },
            EntityType::Way => {
                assert(osm.ways@[i].tags == span);
            },
            EntityType::Relation => {
                assert(osm.relations@[i].tags == span);
            },
        }
    }
    assert(osm.slots_of(entity, i)[j - span.start] == osm.tags_index@[j]);
    assert(carries(osm, entity, i, osm.tags_index@[j]));
}

/// Every slot of an archive that was built from a fixture is carried by one of
/// its entities: there are no tags besides those of the fixture.
pub proof fn every_slot_is_carried(osm: &Osm, fixture: &Fixture, orders: Orders, t: u64)
    requires
        osm.wf(),
        holds_tables(osm, fixture, orders),
        osm.nodes.len() == orders.nodes.len(),
        osm.ways.len() == orders.ways.len(),
        osm.relations.len() == orders.relations.len(),
        t < osm.tags.len(),
    ensures
        is_carried(osm, t),
{
    let all = all_tags(fixture, orders);
    let slots = distinct_tags(fixture, orders);
    lemma_all_new(all);
    assert(slots.contains(slots[t as int]));
    let j = choose|j: int| 0 <= j < all.len() && all[j] == slots[t as int];
    assert(names_slot(slots, osm.tags_index@[j], all[j]));
    assert(osm.tags_index@[j] == t);
    let (n, w, r) = (
        orders.nodes.len() as int,
        orders.ways.len() as int,
        orders.relations.len() as int,
    );
    let of_nodes = node_tags(fixture, orders.nodes, n).len() as int;
    let of_ways = way_tags(fixture, orders.ways, w).len() as int;
    if j < of_nodes {
        let f = lemma_node_of(fixture, orders.nodes, n, j);
        assert(osm.nodes@[f].tags == osm.tag_span(EntityType::Node, f));
        lemma_run_carries(osm, EntityType::Node, f, j);
    } else if j < of_nodes + of_ways {
        let f = lemma_way_of(fixture, orders.ways, w, j - of_nodes);
        assert(osm.ways@[f].tags == osm.tag_span(EntityType::Way, f));
        lemma_run_carries(osm, EntityType::Way, f, j);
    } else {
        let f = lemma_relation_of(fixture, orders.relations, r, j - of_nodes - of_ways);
        assert(osm.relations@[f].tags == osm.tag_span(EntityType::Relation, f));
        lemma_run_carries(osm, EntityType::Relation, f, j);
    }
}

/// Every entity is written.
spec fn all_written(osm: &Osm, fixture: &Fixture, orders: Orders, tags: TagContext) -> bool {
    &&& forall|f: int|
        0 <= f < osm.nodes@.len() ==> node_written(
            fixture.nodes@[orders.nodes[f] as int],
            #[trigger] osm.nodes@[f],
            tags.slots@,
            osm.tags_index@,
        )
    &&& forall|f: int|
        0 <= f < osm.ways@.len() ==> way_written(
            fixture.ways@[orders.ways[f] as int],
            #[trigger] osm.ways@[f],
            tags.slots@,
            osm.tags_index@,
        )
    &&& forall|f: int|
        0 <= f < osm.relations@.len() ==> relation_written(
            fixture.relations@[orders.relations[f] as int],
            #[trigger] osm.relations@[f],
            tags.slots@,
            osm.tags_index@,
        )
}

proof fn lemma_holds_tags(osm: &Osm, fixture: &Fixture, orders: Orders, tags: TagContext)
    requires
        all_written(osm, fixture, orders, tags),
        tags.wf(),
        clean_tags(tags.slots@),
        osm.tags@ == tags.tags@,
        osm.stringtable@ == tags.stringtable@,
    ensures
        holds_tags(osm, fixture, orders),
{
    assert forall|f: int| 0 <= f < osm.nodes@.len() implies carries_specs(
        osm,
        (#[trigger] osm.nodes@[f]).tags,
        fixture.nodes@[orders.nodes[f] as int].tags@,
    ) by {
        lemma_carries_specs(
            osm,
            tags,
            osm.nodes@[f].tags,
            fixture.nodes@[orders.nodes[f] as int].tags@,
        );
    }
    assert forall|f: int| 0 <= f < osm.ways@.len() implies carries_specs(
        osm,
        (#[trigger] osm.ways@[f]).tags,
        fixture.ways@[orders.ways[f] as int].tags@,
    ) by {
        lemma_carries_specs(
            osm,
            tags,
            osm.ways@[f].tags,
            fixture.ways@[orders.ways[f] as int].tags@,
        );
    }
    assert forall|f: int| 0 <= f < osm.relations@.len() implies carries_specs(
        osm,
        (#[trigger] osm.relations@[f]).tags,
        fixture.relations@[orders.relations[f] as int].tags@,
    ) by {
        lemma_carries_specs(
            osm,
            tags,
            osm.relations@[f].tags,
            fixture.relations@[orders.relations[f] as int].tags@,
        );
    }
}

proof fn lemma_parent_wf(osm: &Osm, fixture: &Fixture, orders: Orders, tags: TagContext)
    requires
        fixture.wf(),
        all_written(osm, fixture, orders, tags),
        holds_geometry(osm, fixture, orders),
        permutes(orders.nodes, fixture.nodes@.len()),
        permutes(orders.ways, fixture.ways@.len()),
        permutes(orders.relations, fixture.relations@.len()),
        tags.wf(),
        osm.tags@ == tags.tags@,
        osm.stringtable@ == tags.stringtable@,
        slots_ok(osm.tags_index@, tags.slots@),
        nodes_ok(osm.nodes_index@, fixture.nodes@.len()),
    ensures
        osm.wf(),
{
    assert forall|i: int| 0 <= i < osm.tags.len() implies (#[trigger] osm.tags@[i]).key_idx
        <= osm.stringtable.len() && osm.tags@[i].value_idx <= osm.stringtable.len() by {
        lemma_slot_strings(osm, tags, i);
    }
    assert forall|r: int, m: int|
        #![trigger osm.relation_members@[r]@[m]]
        0 <= r < osm.relation_members.len() && 0 <= m
            < osm.relation_members@[r].len() implies osm.member_ok(
        osm.relation_members@[r]@[m],
    ) by {
        lemma_members_ok(osm, fixture, orders, r, m);
    }
    assert forall|i: int| 0 <= i < osm.nodes_index.len() implies ((
    #[trigger] osm.nodes_index@[i]) matches Some(n) ==> n < osm.nodes.len()) by {
        assert(names_some(osm.nodes_index@[i], fixture.nodes@.len()));
    }
    assert forall|i: int| 0 <= i < osm.ways.len() implies (
    #[trigger] osm.ways@[i]).refs.within(osm.nodes_index.len() as nat) by {
        assert(refs_at(
            osm.nodes_index@,
            orders.nodes,
            osm.ways@[i].refs,
            fixture.ways@[orders.ways[i] as int].refs@,
        ));
    }
}

/// Build an extension archive for an already-open parent.
pub fn build_ext<
    F: Fn(Vertex, Vertex) -> u64,
    A: Fn(&Vec<Point>) -> u64,
    D: Fn(i32) -> Degrees,
>(
    parent: &Osm,
    opts: &BuildOptions,
    dist: &F,
    area: &A,
    degrees: &D,
    imported: Option<Vec<ImportedRing>>,
) -> (out: Ext)
    requires
        parent.wf(),
        measures(*dist),
        measures_area(*area),
        converts(*degrees),
    ensures
        out.covers(parent, opts, *dist, *area, *degrees, imported),
        out.stringtable@ == own_strings(tool_name()),
        out.header.builder_idx == 1,
{
    build_into(parent, opts, dist, area, degrees, imported)
}

/// Build and verify an extension archive for `parent`.
pub fn build_ext_archive<
    F: Fn(Vertex, Vertex) -> u64,
    A: Fn(&Vec<Point>) -> u64,
    D: Fn(i32) -> Degrees,
>(
    parent: Osm,
    opts: &BuildOptions,
    dist: &F,
    area: &A,
    degrees: &D,
    imported: Option<Vec<ImportedRing>>,
) -> (out: ExtArchive)
    requires
        parent.wf(),
        measures(*dist),
        measures_area(*area),
        converts(*degrees),
    ensures
        out.osm() == parent,
        out.extension().covers(&parent, opts, *dist, *area, *degrees, imported),
        out.extension().stringtable@ == own_strings(tool_name()),
        out.extension().header.builder_idx == 1,
        out.ready(),
{
    let ext = build_ext(&parent, opts, dist, area, degrees, imported);
    proof {
        assert(fits(&parent, ext.header));
    }
    match ExtArchive::open(parent, ext) {
        Ok(archive) => archive,
        Err(_) => vstd::pervasive::unreached(),
    }
}

} // verus!
