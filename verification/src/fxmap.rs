//! Hash maps with the Fx hasher.

use rustc_hash::FxHashMap;
use vstd::prelude::*;

verus! {

/// The state of [`rustc_hash::FxHashMap`]'s hasher.
#[verifier::external_type_specification]
#[verifier::external_body]
pub struct ExFxBuildHasher(rustc_hash::FxBuildHasher);

/// [`FxHashMap::default`]: a new map is empty.
#[verifier::external_body]
pub(crate) fn fx_new() -> (out: FxHashMap<u64, usize>)
    ensures
        forall|key: u64| !#[trigger] out@.contains_key(key),
{
    FxHashMap::default()
}

/// [`FxHashMap`]'s `get`: what the map holds for `key`.
#[verifier::external_body]
pub(crate) fn fx_get(map: &FxHashMap<u64, usize>, key: u64) -> (out: Option<usize>)
    ensures
        out == if map@.contains_key(key) {
            Some(map@[key])
        } else {
            None
        },
{
    map.get(&key).copied()
}

/// [`FxHashMap`]'s `insert`: the map then holds `value` for `key`, and for every
/// other key what it held before.
#[verifier::external_body]
pub(crate) fn fx_insert(map: &mut FxHashMap<u64, usize>, key: u64, value: usize)
    ensures
        final(map)@ == old(map)@.insert(key, value),
{
    map.insert(key, value);
}

/// What a map from key sets holds, by the contents of the sets.
pub uninterp spec fn by_set(map: FxHashMap<Vec<u64>, usize>) -> Map<Seq<u64>, usize>;

/// [`FxHashMap::default`]: a new map is empty.
#[verifier::external_body]
pub(crate) fn fx_sets_new() -> (out: FxHashMap<Vec<u64>, usize>)
    ensures
        forall|set: Seq<u64>| !#[trigger] by_set(out).contains_key(set),
{
    FxHashMap::default()
}

/// [`FxHashMap`]'s `get` with a borrowed slice: what the map holds for the set
/// with these contents.
#[verifier::external_body]
pub(crate) fn fx_sets_get(map: &FxHashMap<Vec<u64>, usize>, set: &[u64]) -> (out: Option<usize>)
    ensures
        out == if by_set(*map).contains_key(set@) {
            Some(by_set(*map)[set@])
        } else {
            None
        },
{
    map.get(set).copied()
}

/// [`FxHashMap`]'s `insert`: the map then holds `value` for the set with these
/// contents, and for every other set what it held before.
#[verifier::external_body]
pub(crate) fn fx_sets_insert(map: &mut FxHashMap<Vec<u64>, usize>, set: Vec<u64>, value: usize)
    ensures
        by_set(*final(map)) == by_set(*old(map)).insert(set@, value),
{
    map.insert(set, value);
}

} // verus!
