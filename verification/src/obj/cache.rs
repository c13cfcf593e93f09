//! A cache of objects that were used lately.

use crate::outside::recency;
use crate::types::cid::Cid;
use lru::LruCache;
use vstd::prelude::*;

verus! {

/// Whether no key occurs twice.
pub open spec fn keys_distinct(entries: Seq<(Seq<u8>, Seq<u8>)>) -> bool {
    forall|i: int, j: int|
        0 <= i < entries.len() && 0 <= j < entries.len() && i != j ==> (#[trigger] entries[i]).0 != (
        #[trigger] entries[j]).0
}

/// Holds a fixed number of objects and forgets the one that was unused for longest.
pub struct ObjectCache {
    inner: LruCache<[u8; 32], Vec<u8>>,
    capacity: usize,
}

impl ObjectCache {
    /// The objects, the last used first.
    pub closed spec fn entries(&self) -> Seq<(Seq<u8>, Seq<u8>)> {
        recency::lru_entries(self.inner)
    }

    /// How many objects the cache holds at most.
    pub closed spec fn limit(&self) -> nat {
        self.capacity as nat
    }

    /// The bytes held for a content.
    pub open spec fn value(&self, cid: Seq<u8>) -> Option<Seq<u8>> {
        recency::entry_value(self.entries(), cid)
    }

    /// There are no more objects than fit, none of them twice.
    pub closed spec fn wf(&self) -> bool {
        &&& keys_distinct(self.entries())
        &&& self.entries().len() <= self.capacity
        &&& recency::lru_limit(self.inner) == self.capacity
        &&& self.capacity > 0
    }

    /// The bounds of a cache.
    pub proof fn lemma_bounds(&self)
        requires
            self.wf(),
        ensures
            self.entries().len() <= self.limit(),
            keys_distinct(self.entries()),
            self.limit() > 0,
    {
    }

    /// An empty cache.
    pub fn new(capacity: usize) -> (cache: ObjectCache)
        requires
            0 < capacity <= usize::MAX / 128,
        ensures
            cache.wf(),
            cache.entries() == Seq::<(Seq<u8>, Seq<u8>)>::empty(),
            cache.limit() == capacity,
    {
        let cache = ObjectCache { inner: recency::new_cache(capacity), capacity };
        assert(cache.entries() =~= Seq::<(Seq<u8>, Seq<u8>)>::empty());
        cache
    }

    /// The bytes held for a content, which counts as the last used afterwards.
    pub fn get(&mut self, cid: &Cid) -> (bytes: Option<Vec<u8>>)
        requires
            old(self).wf(),
        ensures
            final(self).wf(),
            final(self).limit() == old(self).limit(),
            match bytes {
                Some(b) => old(self).value(cid@) == Some(b@) && final(self).entries() == seq![
                    (cid@, b@),
                ] + recency::entries_without(old(self).entries(), cid@),
                None => old(self).value(cid@) is None && final(self).entries() == old(
                    self,
                ).entries(),
            },
    {
        proof {
            lemma_without(self.entries(), cid@);
        }
        recency::cache_get(&mut self.inner, cid.as_bytes())
    }

    /// The bytes held for a content. Nothing changes.
    pub fn peek(&self, cid: &Cid) -> (bytes: Option<Vec<u8>>)
        requires
            self.wf(),
        ensures
            match bytes {
                Some(b) => self.value(cid@) == Some(b@),
                None => self.value(cid@) is None,
            },
    {
        recency::cache_peek(&self.inner, cid.as_bytes())
    }

    /// Puts an object into the cache. A full cache forgets the object that was unused for
    /// longest, unless the content was there.
    pub fn put(&mut self, cid: Cid, data: Vec<u8>)
        requires
            old(self).wf(),
        ensures
            final(self).wf(),
            final(self).limit() == old(self).limit(),
            final(self).entries() == recency::entries_with(
                old(self).entries(),
                old(self).limit(),
                cid@,
                data@,
            ),
    {
        proof {
            lemma_without(self.entries(), cid@);
        }
        recency::cache_put(&mut self.inner, cid.bytes, data);
    }

    /// Takes an object out of the cache.
    pub fn remove(&mut self, cid: &Cid) -> (bytes: Option<Vec<u8>>)
        requires
            old(self).wf(),
        ensures
            final(self).wf(),
            final(self).limit() == old(self).limit(),
            final(self).entries() == recency::entries_without(old(self).entries(), cid@),
            match bytes {
                Some(b) => old(self).value(cid@) == Some(b@),
                None => old(self).value(cid@) is None,
            },
    {
        proof {
            lemma_without(self.entries(), cid@);
        }
        recency::cache_pop(&mut self.inner, cid.as_bytes())
    }

    /// The number of objects.
    pub fn len(&self) -> (n: usize)
        ensures
            n == self.entries().len(),
    {
        recency::cache_len(&self.inner)
    }

    /// Whether there is no object.
    pub fn is_empty(&self) -> (empty: bool)
        ensures
            empty == (self.entries().len() == 0),
    {
        recency::cache_len(&self.inner) == 0
    }

    /// How many objects fit.
    pub fn capacity(&self) -> (n: usize)
        ensures
            n == self.limit(),
    {
        self.capacity
    }

    /// Whether a content is held. Nothing changes.
    pub fn contains(&self, cid: &Cid) -> (present: bool)
        ensures
            present == (self.value(cid@) is Some),
    {
        recency::cache_contains(&self.inner, cid.as_bytes())
    }

    /// Forgets everything.
    pub fn clear(&mut self)
        requires
            old(self).wf(),
        ensures
            final(self).wf(),
            final(self).limit() == old(self).limit(),
            final(self).entries() == Seq::<(Seq<u8>, Seq<u8>)>::empty(),
    {
        recency::cache_clear(&mut self.inner);
        assert(self.entries() =~= Seq::<(Seq<u8>, Seq<u8>)>::empty());
    }
}

/// What taking a key out of a list of entries does.
pub proof fn lemma_without(entries: Seq<(Seq<u8>, Seq<u8>)>, key: Seq<u8>)
    requires
        keys_distinct(entries),
    ensures
        ({
            let rest = recency::entries_without(entries, key);
            &&& keys_distinct(rest)
            &&& forall|i: int| 0 <= i < rest.len() ==> (#[trigger] rest[i]).0 != key
            &&& forall|i: int|
                0 <= i < rest.len() ==> exists|j: int|
                    0 <= j < entries.len() && #[trigger] entries[j] == #[trigger] rest[i]
            &&& recency::entry_value(entries, key) is Some ==> rest.len() + 1 == entries.len()
            &&& recency::entry_value(entries, key) is None ==> rest == entries
        }),
    decreases entries.len(),
{
    if entries.len() > 0 {
        let tail = entries.drop_first();
        assert(keys_distinct(tail)) by {
            assert forall|i: int, j: int|
                0 <= i < tail.len() && 0 <= j < tail.len() && i != j implies (#[trigger] tail[i]).0 != (
            #[trigger] tail[j]).0 by {
                assert(tail[i] == entries[i + 1]);
                assert(tail[j] == entries[j + 1]);
            }
        }
        lemma_without(tail, key);
        let rest = recency::entries_without(entries, key);
        if entries[0].0 == key {
            assert forall|i: int| 0 <= i < rest.len() implies (#[trigger] rest[i]).0 != key by {
                assert(rest[i] == entries[i + 1]);
                assert(entries[0].0 != entries[i + 1].0);
            }
            assert forall|i: int| 0 <= i < rest.len() implies exists|j: int|
                0 <= j < entries.len() && #[trigger] entries[j] == #[trigger] rest[i] by {
                assert(entries[i + 1] == rest[i]);
            }
        } else {
            let less = recency::entries_without(tail, key);
            assert(rest =~= seq![entries[0]] + less);
            assert forall|i: int| 0 <= i < rest.len() implies (#[trigger] rest[i]).0 != key && exists|
                j: int,
            | 0 <= j < entries.len() && #[trigger] entries[j] == rest[i] by {
                if i == 0 {
                    assert(entries[0] == rest[0]);
                } else {
                    assert(rest[i] == less[i - 1]);
                    let j = choose|j: int|
                        0 <= j < tail.len() && #[trigger] tail[j] == less[i - 1];
                    assert(entries[j + 1] == rest[i]);
                }
            }
            assert forall|i: int, j: int|
                0 <= i < rest.len() && 0 <= j < rest.len() && i != j implies (#[trigger] rest[i]).0 != (
            #[trigger] rest[j]).0 by {
                if i > 0 && j > 0 {
                    assert(rest[i] == less[i - 1] && rest[j] == less[j - 1]);
                } else {
                    let m = if i == 0 { j } else { i };
                    assert(rest[m] == less[m - 1]);
                    let q = choose|q: int| 0 <= q < tail.len() && #[trigger] tail[q] == less[m - 1];
                    assert(entries[q + 1] == rest[m]);
                    assert(entries[0].0 != entries[q + 1].0);
                }
            }
            if recency::entry_value(entries, key) is None {
                assert(rest =~= entries);
            }
        }
    } else {
        assert(recency::entries_without(entries, key) =~= entries);
    }
}

/// After an object was put into a cache it is held, whatever is forgotten for it; and the
/// cache is not larger than its limit.
pub proof fn lemma_put_held(
    entries: Seq<(Seq<u8>, Seq<u8>)>,
    limit: nat,
    key: Seq<u8>,
    data: Seq<u8>,
)
    requires
        keys_distinct(entries),
        0 < limit,
        entries.len() <= limit,
    ensures
        recency::entry_value(recency::entries_with(entries, limit, key, data), key) == Some(data),
        recency::entries_with(entries, limit, key, data).len() <= limit,
{
    lemma_without(entries, key);
}

/// Only the entry that was unused for longest is forgotten: another content keeps its bytes
/// unless it was last in a full cache.
pub proof fn lemma_put_keeps(
    entries: Seq<(Seq<u8>, Seq<u8>)>,
    limit: nat,
    key: Seq<u8>,
    data: Seq<u8>,
    other: Seq<u8>,
)
    requires
        keys_distinct(entries),
        0 < limit,
        other != key,
        entries.len() > 0 ==> entries.last().0 != other || entries.len() < limit
            || recency::entry_value(entries, key) is Some,
    ensures
        recency::entry_value(recency::entries_with(entries, limit, key, data), other)
            == recency::entry_value(entries, other),
{
    let after = recency::entries_with(entries, limit, key, data);
    let kept = after.drop_first();
    if recency::entry_value(entries, key) is Some {
        assert(kept =~= recency::entries_without(entries, key));
        lemma_without_value(entries, key, other);
    } else if entries.len() == limit {
        assert(kept =~= entries.drop_last());
        lemma_drop_last_value(entries, other);
    } else {
        assert(kept =~= entries);
    }
}

proof fn lemma_without_value(entries: Seq<(Seq<u8>, Seq<u8>)>, key: Seq<u8>, other: Seq<u8>)
    requires
        other != key,
    ensures
        recency::entry_value(recency::entries_without(entries, key), other)
            == recency::entry_value(entries, other),
    decreases entries.len(),
{
    if entries.len() > 0 {
        let tail = entries.drop_first();
        lemma_without_value(tail, key, other);
        if entries[0].0 != key {
            let rest = recency::entries_without(entries, key);
            assert(rest[0] == entries[0]);
            assert(rest.drop_first() =~= recency::entries_without(tail, key));
        }
    }
}

proof fn lemma_drop_last_value(entries: Seq<(Seq<u8>, Seq<u8>)>, other: Seq<u8>)
    requires
        entries.len() > 0,
        entries.last().0 != other,
    ensures
        recency::entry_value(entries.drop_last(), other) == recency::entry_value(entries, other),
    decreases entries.len(),
{
    if entries.len() > 1 {
        let tail = entries.drop_first();
        assert(entries.drop_last().drop_first() =~= tail.drop_last());
        assert(entries.drop_last()[0] == entries[0]);
        lemma_drop_last_value(tail, other);
    } else {
        assert(recency::entry_value(entries.drop_first(), other) is None);
    }
}

/// After an object was taken out of a cache it is not held, and every other content is as
/// before.
pub proof fn lemma_removed(entries: Seq<(Seq<u8>, Seq<u8>)>, key: Seq<u8>, other: Seq<u8>)
    requires
        keys_distinct(entries),
    ensures
        recency::entry_value(recency::entries_without(entries, key), key) is None,
        other != key ==> recency::entry_value(recency::entries_without(entries, key), other)
            == recency::entry_value(entries, other),
{
    lemma_without(entries, key);
    lemma_absent(recency::entries_without(entries, key), key);
    if other != key {
        lemma_without_value(entries, key, other);
    }
}

proof fn lemma_absent(entries: Seq<(Seq<u8>, Seq<u8>)>, key: Seq<u8>)
    requires
        forall|i: int| 0 <= i < entries.len() ==> (#[trigger] entries[i]).0 != key,
    ensures
        recency::entry_value(entries, key) is None,
    decreases entries.len(),
{
    if entries.len() > 0 {
        assert(entries[0].0 != key);
        let tail = entries.drop_first();
        assert forall|i: int| 0 <= i < tail.len() implies (#[trigger] tail[i]).0 != key by {
            assert(tail[i] == entries[i + 1]);
        }
        lemma_absent(tail, key);
    }
}

}
