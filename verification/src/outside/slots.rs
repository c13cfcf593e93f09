//! Concurrent hash maps from keys to slot numbers.

use dashmap::DashMap;
use vstd::prelude::*;

verus! {

/// `dashmap::DashMap`. Nothing is known of a value but what the functions below state.
#[verifier::external_type_specification]
#[verifier::external_body]
#[verifier::reject_recursive_types(K)]
#[verifier::reject_recursive_types(V)]
#[verifier::reject_recursive_types(S)]
pub struct ExDashMap<K, V, S>(dashmap::DashMap<K, V, S>);

/// The slot number that a map holds for each key.
pub uninterp spec fn slot_map(map: DashMap<[u8; 32], usize>) -> Map<Seq<u8>, usize>;

/// `dashmap::DashMap::new`: a map that holds nothing.
#[verifier::external_body]
pub(crate) fn new_slots() -> (fresh: DashMap<[u8; 32], usize>)
    ensures
        forall|key: Seq<u8>| !(#[trigger] slot_map(fresh).contains_key(key)),
{
    DashMap::new()
}

/// `dashmap::DashMap::get`, with a copy of the value: the slot of the key, if it has one.
#[verifier::external_body]
pub(crate) fn find_slot(map: &DashMap<[u8; 32], usize>, key: &[u8; 32]) -> (slot: Option<usize>)
    ensures
        slot == (if slot_map(*map).contains_key(key@) {
            Some(slot_map(*map)[key@])
        } else {
            None
        }),
{
    match map.get(key) {
        Some(slot) => Some(*slot),
        None => None,
    }
}

/// `dashmap::DashMap::insert`: the key has the slot afterwards, and all other keys what they
/// had. What it had before comes back.
#[verifier::external_body]
pub(crate) fn put_slot(map: &mut DashMap<[u8; 32], usize>, key: [u8; 32], slot: usize) -> (before:
    Option<usize>)
    ensures
        slot_map(*final(map)) == slot_map(*old(map)).insert(key@, slot),
        before == (if slot_map(*old(map)).contains_key(key@) {
            Some(slot_map(*old(map))[key@])
        } else {
            None
        }),
{
    map.insert(key, slot)
}

/// `dashmap::DashMap::remove`, without the key in the result: the key has no slot
/// afterwards, and all other keys what they had. What it had before comes back.
#[verifier::external_body]
pub(crate) fn drop_slot(map: &mut DashMap<[u8; 32], usize>, key: &[u8; 32]) -> (before: Option<
    usize,
>)
    ensures
        slot_map(*final(map)) == slot_map(*old(map)).remove(key@),
        before == (if slot_map(*old(map)).contains_key(key@) {
            Some(slot_map(*old(map))[key@])
        } else {
            None
        }),
{
    match map.remove(key) {
        Some((_, slot)) => Some(slot),
        None => None,
    }
}

}
