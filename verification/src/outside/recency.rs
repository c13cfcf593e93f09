//! Caches that forget what was not used for longest.

use lru::LruCache;
use std::num::NonZeroUsize;
use vstd::prelude::*;

verus! {

/// `lru::LruCache`. Nothing is known of a value but what the functions below state.
#[verifier::external_type_specification]
#[verifier::external_body]
#[verifier::reject_recursive_types(K)]
#[verifier::reject_recursive_types(V)]
#[verifier::reject_recursive_types(S)]
pub struct ExLruCache<K, V, S>(lru::LruCache<K, V, S>);

/// `lru::DefaultHasher`, which such a cache hashes its keys with.
#[verifier::external_type_specification]
#[verifier::external_body]
pub struct ExDefaultHasher(lru::DefaultHasher);

/// The keys and values of a cache, the last used first.
pub uninterp spec fn lru_entries(cache: LruCache<[u8; 32], Vec<u8>>) -> Seq<(Seq<u8>, Seq<u8>)>;

/// How many entries a cache holds at most.
pub uninterp spec fn lru_limit(cache: LruCache<[u8; 32], Vec<u8>>) -> nat;

/// The value of the first entry with the key.
pub open spec fn entry_value(entries: Seq<(Seq<u8>, Seq<u8>)>, key: Seq<u8>) -> Option<Seq<u8>>
    decreases entries.len(),
{
    if entries.len() == 0 {
        None
    } else if entries[0].0 == key {
        Some(entries[0].1)
    } else {
        entry_value(entries.drop_first(), key)
    }
}

/// The entries without the first one with the key.
pub open spec fn entries_without(entries: Seq<(Seq<u8>, Seq<u8>)>, key: Seq<u8>) -> Seq<
    (Seq<u8>, Seq<u8>),
>
    decreases entries.len(),
{
    if entries.len() == 0 {
        entries
    } else if entries[0].0 == key {
        entries.drop_first()
    } else {
        seq![entries[0]] + entries_without(entries.drop_first(), key)
    }
}

/// The entries after one more was put in front: a key that was there moves, and a full
/// cache drops its last entry for a new key.
pub open spec fn entries_with(
    entries: Seq<(Seq<u8>, Seq<u8>)>,
    limit: nat,
    key: Seq<u8>,
    value: Seq<u8>,
) -> Seq<(Seq<u8>, Seq<u8>)> {
    seq![(key, value)] + if entry_value(entries, key) is Some {
        entries_without(entries, key)
    } else if entries.len() == limit {
        entries.drop_last()
    } else {
        entries
    }
}

/// `lru::LruCache::new`: an empty cache for a number of entries. Zero is left out, and so
/// are numbers for which no table fits into the address space.
#[verifier::external_body]
pub(crate) fn new_cache(limit: usize) -> (cache: LruCache<[u8; 32], Vec<u8>>)
    requires
        0 < limit <= usize::MAX / 128,
    ensures
        lru_entries(cache).len() == 0,
        lru_limit(cache) == limit,
{
    LruCache::new(NonZeroUsize::new(limit).unwrap())
}

/// `lru::LruCache::get`, with a copy of the value: the value of the key, which counts as
/// the last used afterwards. Nothing changes where the key is absent.
#[verifier::external_body]
pub(crate) fn cache_get(cache: &mut LruCache<[u8; 32], Vec<u8>>, key: &[u8; 32]) -> (value: Option<
    Vec<u8>,
>)
    ensures
        lru_limit(*final(cache)) == lru_limit(*old(cache)),
        match value {
            Some(bytes) => entry_value(lru_entries(*old(cache)), key@) == Some(bytes@)
                && lru_entries(*final(cache)) == seq![(key@, bytes@)] + entries_without(
                lru_entries(*old(cache)),
                key@,
            ),
            None => entry_value(lru_entries(*old(cache)), key@) is None && lru_entries(
                *final(cache),
            ) == lru_entries(*old(cache)),
        },
{
    cache.get(key).cloned()
}

/// `lru::LruCache::peek`, with a copy of the value: the value of the key. Nothing changes.
#[verifier::external_body]
pub(crate) fn cache_peek(cache: &LruCache<[u8; 32], Vec<u8>>, key: &[u8; 32]) -> (value: Option<
    Vec<u8>,
>)
    ensures
        match value {
            Some(bytes) => entry_value(lru_entries(*cache), key@) == Some(bytes@),
            None => entry_value(lru_entries(*cache), key@) is None,
        },
{
    cache.peek(key).cloned()
}

/// `lru::LruCache::put`: the entry is the last used afterwards. A full cache drops the
/// entry that was unused for longest, unless the key was there. The value that the key had
/// before comes back.
#[verifier::external_body]
pub(crate) fn cache_put(
    cache: &mut LruCache<[u8; 32], Vec<u8>>,
    key: [u8; 32],
    value: Vec<u8>,
) -> (before: Option<Vec<u8>>)
    ensures
        lru_limit(*final(cache)) == lru_limit(*old(cache)),
        lru_entries(*final(cache)) == entries_with(
            lru_entries(*old(cache)),
            lru_limit(*old(cache)),
            key@,
            value@,
        ),
        match before {
            Some(bytes) => entry_value(lru_entries(*old(cache)), key@) == Some(bytes@),
            None => entry_value(lru_entries(*old(cache)), key@) is None,
        },
{
    cache.put(key, value)
}

/// `lru::LruCache::pop`: the key is absent afterwards, and all other entries keep their
/// order. The value that the key had comes back.
#[verifier::external_body]
pub(crate) fn cache_pop(cache: &mut LruCache<[u8; 32], Vec<u8>>, key: &[u8; 32]) -> (value: Option<
    Vec<u8>,
>)
    ensures
        lru_limit(*final(cache)) == lru_limit(*old(cache)),
        lru_entries(*final(cache)) == entries_without(lru_entries(*old(cache)), key@),
        match value {
            Some(bytes) => entry_value(lru_entries(*old(cache)), key@) == Some(bytes@),
            None => entry_value(lru_entries(*old(cache)), key@) is None,
        },
{
    cache.pop(key)
}

/// `lru::LruCache::len`: the number of entries.
#[verifier::external_body]
pub(crate) fn cache_len(cache: &LruCache<[u8; 32], Vec<u8>>) -> (n: usize)
    ensures
        n == lru_entries(*cache).len(),
{
    cache.len()
}

/// `lru::LruCache::contains`: whether there is an entry with the key. Nothing changes.
#[verifier::external_body]
pub(crate) fn cache_contains(cache: &LruCache<[u8; 32], Vec<u8>>, key: &[u8; 32]) -> (present: bool)
    ensures
        present == (entry_value(lru_entries(*cache), key@) is Some),
{
    cache.contains(key)
}

/// `lru::LruCache::clear`: no entry is left.
#[verifier::external_body]
pub(crate) fn cache_clear(cache: &mut LruCache<[u8; 32], Vec<u8>>)
    ensures
        lru_limit(*final(cache)) == lru_limit(*old(cache)),
        lru_entries(*final(cache)).len() == 0,
{
    cache.clear()
}

}
