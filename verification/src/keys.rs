//! The ordered map of `indexmap` as an object's index from keys to slots,
//! behind functions whose contracts Verus takes on trust.

use indexmap::IndexMap;
use vstd::prelude::*;

verus! {

#[verifier::external_type_specification]
#[verifier::external_body]
#[verifier::reject_recursive_types(K)]
#[verifier::reject_recursive_types(V)]
#[verifier::reject_recursive_types(S)]
pub struct ExIndexMap<K, V, S>(IndexMap<K, V, S>);

/// The entries of a map from keys to slots, in the map's own order, each key
/// by its characters.
pub uninterp spec fn slots(map: IndexMap<&str, usize>) -> Seq<(Seq<char>, usize)>;

/// Calls `IndexMap::new`. Taken on trust: the map has no entries.
#[verifier::external_body]
pub(crate) fn no_slots<'a>() -> (map: IndexMap<&'a str, usize>)
    ensures
        slots(map) == Seq::<(Seq<char>, usize)>::empty(),
{
    IndexMap::new()
}

/// Calls `IndexMap::get`. Taken on trust: the result is the slot of an entry
/// of the map under `key`; there is none where no entry has that key.
#[verifier::external_body]
pub(crate) fn slot_of(map: &IndexMap<&str, usize>, key: &str) -> (r: Option<usize>)
    ensures
        match r {
            Some(slot) => exists|i: int|
                0 <= i < slots(*map).len() && #[trigger] slots(*map)[i] == (key@, slot),
            None => forall|i: int|
                0 <= i < slots(*map).len() ==> (#[trigger] slots(*map)[i]).0 != key@,
        },
{
    map.get(key).copied()
}

/// Calls `IndexMap::insert`. Taken on trust: under a key that an entry
/// already has, that entry keeps its place and takes the new slot, and the
/// slot it held is returned; under a new key, an entry is added at the end
/// and nothing is returned.
#[verifier::external_body]
pub(crate) fn set_slot<'a>(map: &mut IndexMap<&'a str, usize>, key: &'a str, slot: usize) -> (r:
    Option<usize>)
    ensures
        match r {
            Some(held) => exists|i: int|
                0 <= i < slots(*old(map)).len() && #[trigger] slots(*old(map))[i] == (key@, held)
                    && slots(*final(map)) == slots(*old(map)).update(i, (key@, slot)),
            None => {
                &&& forall|i: int|
                    0 <= i < slots(*old(map)).len() ==> (#[trigger] slots(*old(map))[i]).0 != key@
                &&& slots(*final(map)) == slots(*old(map)).push((key@, slot))
            },
        },
{
    map.insert(key, slot)
}

/// Calls `IndexMap::get_index`. Taken on trust: the result is the key of the
/// entry at position `i`; there is none where the map has no more than `i`
/// entries.
#[verifier::external_body]
pub(crate) fn key_at<'a>(map: &IndexMap<&'a str, usize>, i: usize) -> (r: Option<&'a str>)
    ensures
        match r {
            Some(key) => i < slots(*map).len() && key@ == slots(*map)[i as int].0,
            None => i >= slots(*map).len(),
        },
{
    match map.get_index(i) {
        Some((key, _)) => Some(*key),
        None => None,
    }
}

} // verus!
