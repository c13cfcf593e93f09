//! The object store: what is looked up where, what is cached, and what is counted.
//!
//! Files are read and written by whoever runs the store. An operation begins here, says
//! what to do on disk, and is finished here with what came of it.

use crate::obj::bloom::CidBloomFilter;
use crate::obj::cache;
use crate::obj::cache::ObjectCache;
use crate::obj::error::ObjError;
use crate::obj::shard;
use crate::outside::digest;
use crate::outside::hexadecimal;
use crate::outside::recency;
use crate::types::bytes;
use crate::types::cid::Cid;
use crate::types::event::Event;
use crate::types::text;
use vstd::prelude::*;
use vstd::string::*;

verus! {

/// Counters of a store. They wrap around at the largest number.
#[derive(Clone, Copy, Debug, PartialEq, Eq, Structural)]
pub struct StoreMetrics {
    /// Objects handed in.
    pub puts: u64,
    /// Objects asked for.
    pub gets: u64,
    /// Requests answered from the cache.
    pub cache_hits: u64,
    /// Requests not answered from the cache.
    pub cache_misses: u64,
    /// Objects that the filter let pass and that were not on disk.
    pub bloom_false_positives: u64,
    /// Objects whose bytes did not hash to their identifier.
    pub integrity_violations: u64,
}

impl Default for StoreMetrics {
    fn default() -> (metrics: Self)
        ensures
            metrics == no_counts(),
    {
        StoreMetrics {
            puts: 0,
            gets: 0,
            cache_hits: 0,
            cache_misses: 0,
            bloom_false_positives: 0,
            integrity_violations: 0,
        }
    }
}

/// All counters at zero.
pub open spec fn no_counts() -> StoreMetrics {
    StoreMetrics {
        puts: 0,
        gets: 0,
        cache_hits: 0,
        cache_misses: 0,
        bloom_false_positives: 0,
        integrity_violations: 0,
    }
}

/// One more, modulo 2⁶⁴.
pub open spec fn next_count(n: u64) -> u64 {
    ((n + 1) % 0x1_0000_0000_0000_0000) as u64
}

/// Whether every request was counted as answered from the cache or as not, modulo 2⁶⁴.
pub open spec fn gets_add_up(metrics: StoreMetrics) -> bool {
    metrics.gets == (metrics.cache_hits + metrics.cache_misses) % 0x1_0000_0000_0000_0000
}

/// The error number for a full device.
pub fn libc_enospc() -> (code: i32)
    ensures
        code == 28,
{
    28
}

/// The first step of storing an object.
#[derive(Clone, Copy, Debug)]
pub struct PutStart {
    /// The identifier of the object.
    pub cid: Cid,
    /// Whether the object may be there, so that the disk is to be asked.
    pub look: bool,
}

impl PutStart {
    /// Whether the object is to be written, given whether it is on disk.
    pub fn needs_write(&self, on_disk: bool) -> (write: bool)
        ensures
            write == to_write(self.look, on_disk),
    {
        !(self.look && on_disk)
    }
}

/// What came of writing an object.
pub enum WriteOutcome {
    /// It was written and moved into its place.
    Written,
    /// Writing failed, with the error number of the system where there is one.
    WriteFailed { os_error: Option<i32>, message: String },
    /// It was written and could not be moved into its place.
    RenameFailed { message: String },
}

/// The first step of fetching an object.
pub enum GetStart {
    /// The object was in the cache.
    Hit(Vec<u8>),
    /// The object is certainly not there.
    Absent,
    /// The object is to be read from disk.
    Read,
}

/// What came of reading an object.
pub enum ReadOutcome {
    /// Its bytes.
    Bytes(Vec<u8>),
    /// There is no such file.
    NotFound,
    /// Reading failed.
    Failed(String),
}

/// What came of deleting an object.
pub enum DeleteOutcome {
    /// It was deleted.
    Removed,
    /// There was no such file.
    NotFound,
    /// Deleting failed.
    Failed(String),
}

/// What a store knows of its objects.
#[verifier::ext_equal]
pub struct StoreView {
    /// The cached objects, the last used first.
    pub cache: Seq<(Seq<u8>, Seq<u8>)>,
    /// How many objects are cached at most.
    pub limit: nat,
    /// The contents that may be on disk.
    pub passes: Set<Seq<u8>>,
    /// The counters.
    pub metrics: StoreMetrics,
}

/// The words of an error about bytes that do not hash to their identifier.
pub open spec fn mismatch_words(actual: Seq<u8>, cid: Seq<u8>) -> Seq<char> {
    "stored bytes hash to "@ + hexadecimal::hex_text(actual) + " but CID is "@
        + hexadecimal::hex_text(cid)
}

/// Keeps the cache, the filter and the counters of a store.
pub struct ContentAddressedStore {
    base_dir: String,
    cache: ObjectCache,
    bloom: CidBloomFilter,
    metrics: StoreMetrics,
}

impl View for ContentAddressedStore {
    type V = StoreView;

    closed spec fn view(&self) -> StoreView {
        StoreView {
            cache: self.cache.entries(),
            limit: self.cache.limit(),
            passes: self.bloom.passes(),
            metrics: self.metrics,
        }
    }
}

/// What a store knows after it began to store an object: one more was handed in.
pub open spec fn put_begun(before: StoreView) -> StoreView {
    StoreView {
        metrics: StoreMetrics { puts: next_count(before.metrics.puts), ..before.metrics },
        ..before
    }
}

/// Whether a store took note of an object that was written: it is cached, and the filter lets
/// it pass, with whatever passed before.
pub open spec fn written(before: StoreView, after: StoreView, data: Seq<u8>) -> bool {
    let cid = digest::blake3_digest(data);
    &&& after.cache == recency::entries_with(before.cache, before.limit, cid, data)
    &&& after.limit == before.limit
    &&& after.metrics == before.metrics
    &&& before.passes.subset_of(after.passes)
    &&& after.passes.contains(cid)
}

/// Whether an object is to be written: the disk was not to be asked, or it is not there.
pub open spec fn to_write(look: bool, on_disk: bool) -> bool {
    !(look && on_disk)
}

/// Whether all cached bytes hash to their identifiers.
pub open spec fn cache_genuine(entries: Seq<(Seq<u8>, Seq<u8>)>) -> bool {
    forall|i: int|
        0 <= i < entries.len() ==> digest::blake3_digest((#[trigger] entries[i]).1) == entries[i].0
}

impl ContentAddressedStore {
    /// The base directory.
    pub closed spec fn dir(&self) -> Seq<char> {
        self.base_dir@
    }

    /// Cache and filter are in order, every cached object is genuine, and the requests are
    /// counted.
    pub closed spec fn wf(&self) -> bool {
        &&& self.cache.wf()
        &&& self.bloom.wf()
        &&& cache_genuine(self.cache.entries())
        &&& gets_add_up(self.metrics)
    }

    /// In every state of a store, the requests are those answered from the cache and those
    /// that were not.
    pub proof fn lemma_gets_add_up(&self)
        requires
            self.wf(),
        ensures
            gets_add_up(self@.metrics),
    {
    }

    /// What is known of the cache of a store.
    pub proof fn lemma_cache(&self)
        requires
            self.wf(),
        ensures
            cache::keys_distinct(self@.cache),
            self@.cache.len() <= self@.limit,
            self@.limit > 0,
            cache_genuine(self@.cache),
    {
        self.cache.lemma_bounds();
    }

    /// A store over a directory in which the given objects were found.
    pub fn new(base_dir: String, cache_capacity: usize, found: &[Cid]) -> (store:
        ContentAddressedStore)
        requires
            0 < cache_capacity <= usize::MAX / 128,
        ensures
            store.wf(),
            store.dir() == base_dir@,
            store@.cache == Seq::<(Seq<u8>, Seq<u8>)>::empty(),
            store@.limit == cache_capacity,
            store@.metrics == no_counts(),
            forall|i: int|
                0 <= i < found@.len() ==> store@.passes.contains((#[trigger] found@[i])@),
            found@.len() == 0 ==> store@.passes == Set::<Seq<u8>>::empty(),
    {
        ContentAddressedStore {
            base_dir,
            cache: ObjectCache::new(cache_capacity),
            bloom: CidBloomFilter::rebuild(found),
            metrics: StoreMetrics::default(),
        }
    }

    /// Begins to store an object: names it, and says whether to look for it on disk first.
    pub fn begin_put(&mut self, data: &[u8]) -> (start: PutStart)
        requires
            old(self).wf(),
        ensures
            final(self).wf(),
            final(self).dir() == old(self).dir(),
            start.cid@ == digest::blake3_digest(data@),
            start.look == old(self)@.passes.contains(start.cid@),
            final(self)@ == put_begun(old(self)@),
    {
        let cid = Cid::from_data(data);
        self.metrics.puts = self.metrics.puts.wrapping_add(1);
        let look = self.bloom.probably_contains(&cid);
        PutStart { cid, look }
    }

    /// The path at which an object lies.
    pub fn object_path(&self, cid: &Cid) -> (path: String)
        ensures
            path@ == shard::object_path(self.dir(), cid@),
    {
        shard::shard_path(self.base_dir.as_str(), cid)
    }

    /// Finishes storing an object. After it was written it is cached, the filter lets it
    /// pass, and an event tells of it; where writing failed, nothing changes.
    pub fn finish_put(&mut self, data: &[u8], outcome: WriteOutcome) -> (result: Result<
        Event,
        ObjError,
    >)
        requires
            old(self).wf(),
        ensures
            final(self).wf(),
            final(self).dir() == old(self).dir(),
            match outcome {
                WriteOutcome::Written => {
                    &&& result matches Ok(Event::CidWritten { cid }) && cid@
                        == digest::blake3_digest(data@)
                    &&& written(old(self)@, final(self)@, data@)
                },
                WriteOutcome::WriteFailed { os_error, message } => {
                    &&& *final(self) == *old(self)
                    &&& result == Err::<Event, ObjError>(
                        if os_error == Some(28i32) {
                            ObjError::StoreFull
                        } else {
                            ObjError::IoError(message)
                        },
                    )
                },
                WriteOutcome::RenameFailed { message } => {
                    &&& *final(self) == *old(self)
                    &&& result == Err::<Event, ObjError>(ObjError::IoError(message))
                },
            },
    {
        match outcome {
            WriteOutcome::WriteFailed { os_error, message } => {
                match os_error {
                    Some(code) => {
                        if code == libc_enospc() {
                            Err(ObjError::StoreFull)
                        } else {
                            Err(ObjError::IoError(message))
                        }
                    },
                    None => Err(ObjError::IoError(message)),
                }
            },
            WriteOutcome::RenameFailed { message } => Err(ObjError::IoError(message)),
            WriteOutcome::Written => {
                let cid = Cid::from_data(data);
                self.bloom.insert(&cid);
                let copy = bytes::copy_bytes(data);
                proof {
                    self.cache.lemma_bounds();
                    lemma_genuine_with(
                        self.cache.entries(),
                        self.cache.limit(),
                        cid@,
                        data@,
                    );
                }
                self.cache.put(cid, copy);
                Ok(Event::CidWritten { cid })
            },
        }
    }

    /// Begins to fetch an object: from the cache where it is there; else the filter tells
    /// whether to read from disk.
    pub fn begin_get(&mut self, cid: &Cid) -> (start: GetStart)
        requires
            old(self).wf(),
        ensures
            final(self).wf(),
            final(self).dir() == old(self).dir(),
            match start {
                GetStart::Hit(bytes) => {
                    &&& recency::entry_value(old(self)@.cache, cid@) == Some(bytes@)
                    &&& digest::blake3_digest(bytes@) == cid@
                    &&& final(self)@ == (StoreView {
                        cache: seq![(cid@, bytes@)] + recency::entries_without(
                            old(self)@.cache,
                            cid@,
                        ),
                        metrics: StoreMetrics {
                            gets: next_count(old(self)@.metrics.gets),
                            cache_hits: next_count(old(self)@.metrics.cache_hits),
                            ..old(self)@.metrics
                        },
                        ..old(self)@
                    })
                },
                _ => {
                    &&& recency::entry_value(old(self)@.cache, cid@) is None
                    &&& (start is Read) == old(self)@.passes.contains(cid@)
                    &&& final(self)@ == (StoreView {
                        metrics: StoreMetrics {
                            gets: next_count(old(self)@.metrics.gets),
                            cache_misses: next_count(old(self)@.metrics.cache_misses),
                            ..old(self)@.metrics
                        },
                        ..old(self)@
                    })
                },
            },
    {
        self.metrics.gets = self.metrics.gets.wrapping_add(1);
        proof {
            self.cache.lemma_bounds();
            lemma_genuine_get(self.cache.entries(), cid@);
        }
        if let Some(bytes) = self.cache.get(cid) {
            self.metrics.cache_hits = self.metrics.cache_hits.wrapping_add(1);
            return GetStart::Hit(bytes);
        }
        self.metrics.cache_misses = self.metrics.cache_misses.wrapping_add(1);
        if self.bloom.probably_contains(cid) {
            GetStart::Read
        } else {
            GetStart::Absent
        }
    }

    /// Finishes fetching an object that was read from disk. Bytes that do not hash to the
    /// identifier are never returned; genuine ones are cached.
    pub fn finish_get(&mut self, cid: &Cid, outcome: ReadOutcome) -> (result: Result<
        Option<Vec<u8>>,
        ObjError,
    >)
        requires
            old(self).wf(),
        ensures
            final(self).wf(),
            final(self).dir() == old(self).dir(),
            match outcome {
                ReadOutcome::NotFound => {
                    &&& result == Ok::<Option<Vec<u8>>, ObjError>(None)
                    &&& final(self)@ == (StoreView {
                        metrics: StoreMetrics {
                            bloom_false_positives: next_count(
                                old(self)@.metrics.bloom_false_positives,
                            ),
                            ..old(self)@.metrics
                        },
                        ..old(self)@
                    })
                },
                ReadOutcome::Failed(message) => {
                    &&& result == Err::<Option<Vec<u8>>, ObjError>(ObjError::IoError(message))
                    &&& *final(self) == *old(self)
                },
                ReadOutcome::Bytes(data) => if digest::blake3_digest(data@) == cid@ {
                    &&& result matches Ok(Some(bytes)) && bytes@ == data@
                    &&& final(self)@ == (StoreView {
                        cache: recency::entries_with(
                            old(self)@.cache,
                            old(self)@.limit,
                            cid@,
                            data@,
                        ),
                        ..old(self)@
                    })
                } else {
                    &&& result matches Err(ObjError::IntegrityViolation { cid: text, msg })
                        && text@ == hexadecimal::hex_text(cid@) && msg@ == mismatch_words(
                        digest::blake3_digest(data@),
                        cid@,
                    )
                    &&& final(self)@ == (StoreView {
                        metrics: StoreMetrics {
                            integrity_violations: next_count(
                                old(self)@.metrics.integrity_violations,
                            ),
                            ..old(self)@.metrics
                        },
                        ..old(self)@
                    })
                },
            },
    {
        match outcome {
            ReadOutcome::NotFound => {
                self.metrics.bloom_false_positives = self.metrics.bloom_false_positives.wrapping_add(
                    1,
                );
                Ok(None)
            },
            ReadOutcome::Failed(message) => Err(ObjError::IoError(message)),
            ReadOutcome::Bytes(data) => {
                let actual = Cid::from_data(data.as_slice());
                if actual != *cid {
                    self.metrics.integrity_violations = self.metrics.integrity_violations.wrapping_add(
                        1,
                    );
                    let actual_hex = actual.to_hex();
                    let cid_hex = cid.to_hex();
                    let mut msg = text::join3(
                        "stored bytes hash to ",
                        actual_hex.as_str(),
                        " but CID is ",
                    );
                    msg.append(cid_hex.as_str());
                    return Err(ObjError::IntegrityViolation { cid: cid_hex, msg });
                }
                let copy = bytes::copy_bytes(data.as_slice());
                proof {
                    self.cache.lemma_bounds();
                    lemma_genuine_with(
                        self.cache.entries(),
                        self.cache.limit(),
                        cid@,
                        data@,
                    );
                }
                self.cache.put(*cid, copy);
                Ok(Some(data))
            },
        }
    }

    /// Whether the disk is to be asked for an object; else it is certainly not there.
    pub fn may_contain(&self, cid: &Cid) -> (maybe: bool)
        requires
            self.wf(),
        ensures
            maybe == self@.passes.contains(cid@),
    {
        self.bloom.probably_contains(cid)
    }

    /// Whether an object is stored, given whether its file is on disk.
    pub fn contains(&self, cid: &Cid, on_disk: bool) -> (present: bool)
        requires
            self.wf(),
        ensures
            present == (self@.passes.contains(cid@) && on_disk),
    {
        self.bloom.probably_contains(cid) && on_disk
    }

    /// Finishes deleting an object. A deleted object leaves the cache. The result tells
    /// whether there was one.
    pub fn finish_delete(&mut self, cid: &Cid, outcome: DeleteOutcome) -> (result: Result<
        bool,
        ObjError,
    >)
        requires
            old(self).wf(),
        ensures
            final(self).wf(),
            final(self).dir() == old(self).dir(),
            match outcome {
                DeleteOutcome::Removed => {
                    &&& result == Ok::<bool, ObjError>(true)
                    &&& final(self)@ == (StoreView {
                        cache: recency::entries_without(old(self)@.cache, cid@),
                        ..old(self)@
                    })
                },
                DeleteOutcome::NotFound => {
                    &&& result == Ok::<bool, ObjError>(false)
                    &&& *final(self) == *old(self)
                },
                DeleteOutcome::Failed(message) => {
                    &&& result == Err::<bool, ObjError>(ObjError::IoError(message))
                    &&& *final(self) == *old(self)
                },
            },
    {
        match outcome {
            DeleteOutcome::Removed => {
                proof {
                    self.cache.lemma_bounds();
                    lemma_genuine_without(self.cache.entries(), cid@);
                }
                self.cache.remove(cid);
                Ok(true)
            },
            DeleteOutcome::NotFound => Ok(false),
            DeleteOutcome::Failed(message) => Err(ObjError::IoError(message)),
        }
    }

    /// The counters.
    pub fn metrics(&self) -> (metrics: &StoreMetrics)
        ensures
            *metrics == self@.metrics,
    {
        &self.metrics
    }

    /// The base directory.
    pub fn base_dir(&self) -> (dir: &str)
        ensures
            dir@ == self.dir(),
    {
        self.base_dir.as_str()
    }
}

proof fn lemma_genuine_without(entries: Seq<(Seq<u8>, Seq<u8>)>, key: Seq<u8>)
    requires
        cache::keys_distinct(entries),
        cache_genuine(entries),
    ensures
        cache_genuine(recency::entries_without(entries, key)),
{
    cache::lemma_without(entries, key);
    let rest = recency::entries_without(entries, key);
    assert forall|i: int| 0 <= i < rest.len() implies digest::blake3_digest((#[trigger] rest[i]).1)
        == rest[i].0 by {
        let j = choose|j: int| 0 <= j < entries.len() && #[trigger] entries[j] == rest[i];
        assert(digest::blake3_digest(entries[j].1) == entries[j].0);
    }
}

proof fn lemma_genuine_with(
    entries: Seq<(Seq<u8>, Seq<u8>)>,
    limit: nat,
    key: Seq<u8>,
    data: Seq<u8>,
)
    requires
        cache::keys_distinct(entries),
        cache_genuine(entries),
        digest::blake3_digest(data) == key,
        0 < limit,
    ensures
        cache_genuine(recency::entries_with(entries, limit, key, data)),
{
    lemma_genuine_without(entries, key);
    let after = recency::entries_with(entries, limit, key, data);
    let rest = recency::entries_without(entries, key);
    assert forall|i: int| 0 <= i < after.len() implies digest::blake3_digest(
        (#[trigger] after[i]).1,
    ) == after[i].0 by {
        if i > 0 {
            if recency::entry_value(entries, key) is Some {
                assert(after[i] == rest[i - 1]);
            } else {
                assert(after[i] == entries[i - 1]);
            }
        }
    }
}

proof fn lemma_genuine_get(entries: Seq<(Seq<u8>, Seq<u8>)>, key: Seq<u8>)
    requires
        cache::keys_distinct(entries),
        cache_genuine(entries),
    ensures
        recency::entry_value(entries, key) matches Some(v) ==> digest::blake3_digest(v) == key
            && cache_genuine(seq![(key, v)] + recency::entries_without(entries, key)),
{
    lemma_value_entry(entries, key);
    lemma_genuine_without(entries, key);
    if let Some(v) = recency::entry_value(entries, key) {
        let i = choose|i: int| 0 <= i < entries.len() && #[trigger] entries[i] == (key, v);
        assert(digest::blake3_digest(entries[i].1) == entries[i].0);
        let rest = recency::entries_without(entries, key);
        let after = seq![(key, v)] + rest;
        assert forall|j: int| 0 <= j < after.len() implies digest::blake3_digest(
            (#[trigger] after[j]).1,
        ) == after[j].0 by {
            if j > 0 {
                assert(after[j] == rest[j - 1]);
            }
        }
    }
}

proof fn lemma_value_entry(entries: Seq<(Seq<u8>, Seq<u8>)>, key: Seq<u8>)
    ensures
        recency::entry_value(entries, key) matches Some(v) ==> exists|i: int|
            0 <= i < entries.len() && #[trigger] entries[i] == (key, v),
    decreases entries.len(),
{
    if entries.len() > 0 {
        if entries[0].0 == key {
            assert(entries[0] == (key, entries[0].1));
        } else {
            let tail = entries.drop_first();
            lemma_value_entry(tail, key);
            if let Some(v) = recency::entry_value(entries, key) {
                let i = choose|i: int| 0 <= i < tail.len() && #[trigger] tail[i] == (key, v);
                assert(entries[i + 1] == (key, v));
            }
        }
    }
}

/// Whether a store is in step with its disk, the files of which are given by identifier:
/// the filter lets every file pass, whatever is cached is on disk, and the files are
/// genuine.
pub open spec fn in_step(store: StoreView, disk: Map<Seq<u8>, Seq<u8>>) -> bool {
    &&& cache::keys_distinct(store.cache)
    &&& store.cache.len() <= store.limit
    &&& store.limit > 0
    &&& disk.dom().subset_of(store.passes)
    &&& forall|k: Seq<u8>|
        (#[trigger] recency::entry_value(store.cache, k)) matches Some(v) ==> disk.contains_key(k)
            && disk[k] == v
    &&& forall|k: Seq<u8>| #[trigger]
        disk.contains_key(k) ==> digest::blake3_digest(disk[k]) == k
}

/// What a fetch answers: the cached bytes; else nothing where the filter says so; else what
/// is on disk, if it is genuine.
pub open spec fn fetched(
    store: StoreView,
    disk: Map<Seq<u8>, Seq<u8>>,
    cid: Seq<u8>,
) -> Result<Option<Seq<u8>>, ()> {
    if recency::entry_value(store.cache, cid) is Some {
        Ok(recency::entry_value(store.cache, cid))
    } else if !store.passes.contains(cid) || !disk.contains_key(cid) {
        Ok(None)
    } else if digest::blake3_digest(disk[cid]) == cid {
        Ok(Some(disk[cid]))
    } else {
        Err(())
    }
}

/// A fetch from a store in step with its disk answers what is on disk, and nothing where
/// nothing is.
pub proof fn lemma_fetch_reads_disk(
    store: StoreView,
    disk: Map<Seq<u8>, Seq<u8>>,
    cid: Seq<u8>,
)
    requires
        in_step(store, disk),
    ensures
        disk.contains_key(cid) ==> fetched(store, disk, cid) == Ok::<Option<Seq<u8>>, ()>(
            Some(disk[cid]),
        ),
        !disk.contains_key(cid) ==> fetched(store, disk, cid) == Ok::<Option<Seq<u8>>, ()>(None),
{
}

/// After an object was written and stored, a store stays in step with its disk, and a fetch
/// gives back the object: what was put is what is got.
pub proof fn lemma_put_then_get(
    before: StoreView,
    after: StoreView,
    disk: Map<Seq<u8>, Seq<u8>>,
    data: Seq<u8>,
)
    requires
        in_step(before, disk),
        ({
            let cid = digest::blake3_digest(data);
            &&& after.cache == recency::entries_with(before.cache, before.limit, cid, data)
            &&& after.limit == before.limit
            &&& before.passes.subset_of(after.passes)
            &&& after.passes.contains(cid)
            &&& disk.contains_key(cid) ==> disk[cid] == data
        }),
    ensures
        ({
            let cid = digest::blake3_digest(data);
            let grown = disk.insert(cid, data);
            &&& in_step(after, grown)
            &&& fetched(after, grown, cid) == Ok::<Option<Seq<u8>>, ()>(Some(data))
        }),
{
    let cid = digest::blake3_digest(data);
    let grown = disk.insert(cid, data);
    cache::lemma_put_held(before.cache, before.limit, cid, data);
    cache::lemma_without(before.cache, cid);
    lemma_with_distinct(before.cache, before.limit, cid, data);
    assert forall|k: Seq<u8>|
        (#[trigger] recency::entry_value(after.cache, k)) is Some implies grown.contains_key(k)
        && recency::entry_value(after.cache, k) == Some(grown[k]) by {
        if k != cid {
            lemma_with_value(before.cache, before.limit, cid, data, k);
        }
    }
}

/// An object that is put twice is written once. The first time it is not on disk, so it is
/// written, and an event tells of it. The second time it is neither written nor told of. Both
/// are counted, the disk has one object more, and a fetch gives it back.
pub proof fn lemma_put_twice(
    before: StoreView,
    after: StoreView,
    disk: Map<Seq<u8>, Seq<u8>>,
    data: Seq<u8>,
)
    requires
        in_step(before, disk),
        !disk.contains_key(digest::blake3_digest(data)),
        written(put_begun(before), after, data),
    ensures
        ({
            let cid = digest::blake3_digest(data);
            let grown = disk.insert(cid, data);
            let last = put_begun(after);
            &&& to_write(before.passes.contains(cid), disk.contains_key(cid))
            &&& !to_write(after.passes.contains(cid), grown.contains_key(cid))
            &&& last.metrics == (StoreMetrics {
                puts: next_count(next_count(before.metrics.puts)),
                ..before.metrics
            })
            &&& grown.dom() == disk.dom().insert(cid)
            &&& in_step(last, grown)
            &&& last.passes.contains(cid)
            &&& fetched(last, grown, cid) == Ok::<Option<Seq<u8>>, ()>(Some(data))
        }),
{
    let cid = digest::blake3_digest(data);
    let grown = disk.insert(cid, data);
    lemma_put_then_get(put_begun(before), after, disk, data);
    assert(grown.dom() =~= disk.dom().insert(cid));
}

/// An object that was on disk is not written again, and a fetch gives it back all the same.
pub proof fn lemma_put_known(store: StoreView, disk: Map<Seq<u8>, Seq<u8>>, data: Seq<u8>)
    requires
        in_step(store, disk),
        disk.contains_key(digest::blake3_digest(data)),
    ensures
        store.passes.contains(digest::blake3_digest(data)),
        fetched(store, disk, digest::blake3_digest(data)) == Ok::<Option<Seq<u8>>, ()>(
            Some(disk[digest::blake3_digest(data)]),
        ),
{
}

/// After an object was deleted, a store stays in step with its disk, and a fetch finds
/// nothing.
pub proof fn lemma_delete_then_get(
    before: StoreView,
    after: StoreView,
    disk: Map<Seq<u8>, Seq<u8>>,
    cid: Seq<u8>,
)
    requires
        in_step(before, disk),
        after == (StoreView {
            cache: recency::entries_without(before.cache, cid),
            ..before
        }),
    ensures
        in_step(after, disk.remove(cid)),
        fetched(after, disk.remove(cid), cid) == Ok::<Option<Seq<u8>>, ()>(None),
{
    cache::lemma_without(before.cache, cid);
    cache::lemma_removed(before.cache, cid, cid);
    assert forall|k: Seq<u8>|
        (#[trigger] recency::entry_value(after.cache, k)) is Some implies disk.remove(
        cid,
    ).contains_key(k) && recency::entry_value(after.cache, k) == Some(disk.remove(cid)[k]) by {
        if k != cid {
            cache::lemma_removed(before.cache, cid, k);
        }
    }
}

/// A fetch leaves a store in step with its disk: whether the object was in the cache, and
/// moved to its front, or was read and put there.
pub proof fn lemma_get_keeps(
    before: StoreView,
    after: StoreView,
    disk: Map<Seq<u8>, Seq<u8>>,
    cid: Seq<u8>,
)
    requires
        in_step(before, disk),
        disk.contains_key(cid),
        after.limit == before.limit,
        after.passes == before.passes,
        match recency::entry_value(before.cache, cid) {
            Some(v) => after.cache == seq![(cid, v)] + recency::entries_without(before.cache, cid),
            None => after.cache == recency::entries_with(
                before.cache,
                before.limit,
                cid,
                disk[cid],
            ),
        },
    ensures
        in_step(after, disk),
        fetched(after, disk, cid) == fetched(before, disk, cid),
{
    assert(after.cache == recency::entries_with(before.cache, before.limit, cid, disk[cid]));
    assert(disk.insert(cid, disk[cid]) =~= disk);
    lemma_put_then_get(before, after, disk, disk[cid]);
}

proof fn lemma_with_distinct(
    entries: Seq<(Seq<u8>, Seq<u8>)>,
    limit: nat,
    key: Seq<u8>,
    data: Seq<u8>,
)
    requires
        cache::keys_distinct(entries),
        0 < limit,
    ensures
        cache::keys_distinct(recency::entries_with(entries, limit, key, data)),
{
    cache::lemma_without(entries, key);
    let after = recency::entries_with(entries, limit, key, data);
    let rest = recency::entries_without(entries, key);
    assert forall|i: int, j: int|
        0 <= i < after.len() && 0 <= j < after.len() && i != j implies (#[trigger] after[i]).0 != (
    #[trigger] after[j]).0 by {
        if i > 0 {
            assert(after[i] == rest[i - 1]);
        }
        if j > 0 {
            assert(after[j] == rest[j - 1]);
        }
    }
}

/// A content other than the one put into a cache keeps its bytes or is forgotten.
proof fn lemma_with_value(
    entries: Seq<(Seq<u8>, Seq<u8>)>,
    limit: nat,
    key: Seq<u8>,
    data: Seq<u8>,
    other: Seq<u8>,
)
    requires
        cache::keys_distinct(entries),
        0 < limit,
        entries.len() <= limit,
        other != key,
    ensures
        recency::entry_value(recency::entries_with(entries, limit, key, data), other) matches Some(
            v,
        ) ==> recency::entry_value(entries, other) == Some(v),
{
    let after = recency::entries_with(entries, limit, key, data);
    if entries.len() > 0 && entries.last().0 == other && entries.len() == limit
        && recency::entry_value(entries, key) is None {
        let kept = after.drop_first();
        assert(kept =~= entries.drop_last());
        lemma_value_entry(kept, other);
        if let Some(v) = recency::entry_value(kept, other) {
            let i = choose|i: int| 0 <= i < kept.len() && #[trigger] kept[i] == (other, v);
            assert(entries[i].0 == other);
            assert(entries[entries.len() - 1].0 == other);
        }
    } else {
        cache::lemma_put_keeps(entries, limit, key, data, other);
    }
}

}
