//! The object store, its cache, its filter and its directories.

use std::collections::HashMap;
use std::collections::HashSet;

use craftec::obj::bloom::CidBloomFilter;
use craftec::obj::cache::ObjectCache;
use craftec::obj::error::ObjError;
use craftec::obj::shard::disk_usage;
use craftec::obj::shard::object_count;
use craftec::obj::shard::parse_object_name;
use craftec::obj::shard::shard_names;
use craftec::obj::shard::shard_path;
use craftec::obj::shard::shard_prefix;
use craftec::obj::shard::walk_shards;
use craftec::obj::shard::FileEntry;
use craftec::obj::store::libc_enospc;
use craftec::obj::store::ContentAddressedStore;
use craftec::obj::store::DeleteOutcome;
use craftec::obj::store::GetStart;
use craftec::obj::store::ReadOutcome;
use craftec::obj::store::WriteOutcome;
use craftec::rlnc::decoder::RlncDecoder;
use craftec::rlnc::encoder::RlncEncoder;
use craftec::types::cid::Cid;
use craftec::types::event::Event;
use craftec::types::piece::CodedPiece;

fn make_cid(data: &[u8]) -> Cid {
    Cid::from_data(data)
}

// Filter

fn make_filter(items: usize, rate: f64) -> CidBloomFilter {
    let bytes = bloomfilter::Bloom::<[u8; 32]>::compute_bitmap_size(items, rate);
    CidBloomFilter::new(bytes, items)
}

#[test]
fn insert_then_probably_contains() {
    let mut f = make_filter(100, 0.01);
    let cid = make_cid(b"hello");
    assert!(!f.probably_contains(&cid), "empty filter should return false");
    f.insert(&cid);
    assert!(f.probably_contains(&cid), "inserted CID must be found");
}

#[test]
fn no_false_negatives() {
    let mut f = make_filter(1000, 0.001);
    let cids: Vec<Cid> = (0u32..500).map(|i| make_cid(&i.to_le_bytes())).collect();
    for c in &cids {
        f.insert(c);
    }
    for c in &cids {
        assert!(f.probably_contains(c), "bloom filter must never produce false negatives");
    }
}

#[test]
fn len_tracks_insertions() {
    let mut f = make_filter(100, 0.01);
    assert_eq!(f.len(), 0);
    assert!(f.is_empty());
    f.insert(&make_cid(b"a"));
    f.insert(&make_cid(b"b"));
    assert_eq!(f.len(), 2);
    assert!(!f.is_empty());
}

#[test]
fn rebuild_empty_dir() {
    let filter = CidBloomFilter::rebuild(&walk_shards(&[]));
    assert_eq!(filter.len(), 0);
    assert!(filter.is_empty());
}

#[test]
fn rebuild_with_files() {
    let cid_a = Cid::from_data(b"object alpha");
    let cid_b = Cid::from_data(b"object beta");
    let names = vec![cid_a.to_hex(), cid_b.to_hex()];

    let filter = CidBloomFilter::rebuild(&walk_shards(&names));
    assert!(filter.probably_contains(&cid_a));
    assert!(filter.probably_contains(&cid_b));
    assert_eq!(filter.len(), 2);
}

#[test]
fn default_bitmap_serves_a_million_at_one_percent() {
    assert_eq!(
        craftec::obj::bloom::DEFAULT_BITMAP_BYTES,
        bloomfilter::Bloom::<[u8; 32]>::compute_bitmap_size(
            craftec::obj::bloom::DEFAULT_EXPECTED_ITEMS,
            0.01
        )
    );
}

// Cache

fn cid(tag: &[u8]) -> Cid {
    Cid::from_data(tag)
}

fn bytes(data: &[u8]) -> Vec<u8> {
    data.to_vec()
}

#[test]
fn basic_put_get() {
    let mut cache = ObjectCache::new(10);
    let c = cid(b"test");
    let b = bytes(b"hello");

    assert!(cache.get(&c).is_none());
    cache.put(c, b.clone());
    assert_eq!(cache.get(&c), Some(b));
}

#[test]
fn cache_miss_returns_none() {
    let mut cache = ObjectCache::new(10);
    assert!(cache.get(&cid(b"absent")).is_none());
}

#[test]
fn remove_evicts_entry() {
    let mut cache = ObjectCache::new(10);
    let c = cid(b"evict me");
    cache.put(c, bytes(b"data"));
    assert!(cache.get(&c).is_some());
    cache.remove(&c);
    assert!(cache.get(&c).is_none());
}

#[test]
fn capacity_evicts_lru() {
    let mut cache = ObjectCache::new(3);

    let c0 = cid(b"first");
    let c1 = cid(b"second");
    let c2 = cid(b"third");
    cache.put(c0, bytes(b"0"));
    cache.put(c1, bytes(b"1"));
    cache.put(c2, bytes(b"2"));

    cache.get(&c0);

    let c3 = cid(b"fourth");
    cache.put(c3, bytes(b"3"));

    assert_eq!(cache.len(), 3);
    assert!(cache.get(&c1).is_none(), "LRU entry should have been evicted");
    assert!(cache.get(&c0).is_some());
    assert!(cache.get(&c2).is_some());
    assert!(cache.get(&c3).is_some());
}

#[test]
fn len_and_is_empty() {
    let mut cache = ObjectCache::new(5);
    assert!(cache.is_empty());
    assert_eq!(cache.len(), 0);

    cache.put(cid(b"a"), bytes(b"a"));
    assert!(!cache.is_empty());
    assert_eq!(cache.len(), 1);
}

#[test]
fn capacity_accessor() {
    let cache = ObjectCache::new(42);
    assert_eq!(cache.capacity(), 42);
}

#[test]
fn contains_without_recency_update() {
    let mut cache = ObjectCache::new(2);
    let c = cid(b"check");
    assert!(!cache.contains(&c));
    cache.put(c, bytes(b"value"));
    assert!(cache.contains(&c));
}

#[test]
fn peeking_keeps_the_order() {
    let mut cache = ObjectCache::new(2);
    let (a, b, c) = (cid(b"a"), cid(b"b"), cid(b"c"));
    cache.put(a, bytes(b"a"));
    cache.put(b, bytes(b"b"));
    assert_eq!(cache.peek(&a), Some(bytes(b"a")));
    assert!(cache.contains(&a));
    cache.put(c, bytes(b"c"));
    assert_eq!(cache.peek(&a), None);
    assert_eq!(cache.peek(&b), Some(bytes(b"b")));
}

#[test]
fn clear_empties_cache() {
    let mut cache = ObjectCache::new(5);
    cache.put(cid(b"x"), bytes(b"x"));
    cache.put(cid(b"y"), bytes(b"y"));
    assert_eq!(cache.len(), 2);
    cache.clear();
    assert!(cache.is_empty());
}

#[test]
fn overwrite_updates_value() {
    let mut cache = ObjectCache::new(5);
    let c = cid(b"overwrite");
    cache.put(c, bytes(b"old"));
    cache.put(c, bytes(b"new"));
    assert_eq!(cache.get(&c), Some(bytes(b"new")));
}

// Errors

#[test]
fn integrity_violation_display() {
    let err = ObjError::IntegrityViolation { cid: "deadbeef".into(), msg: "hash mismatch".into() };
    let s = err.message();
    assert!(s.contains("deadbeef"), "display should include CID");
    assert!(s.contains("hash mismatch"), "display should include message");
}

#[test]
fn not_found_display() {
    let err = ObjError::NotFound { cid: "abc123".into() };
    assert!(err.message().contains("abc123"));
}

#[test]
fn store_full_display() {
    let err = ObjError::StoreFull;
    assert!(!err.message().is_empty());
}

#[test]
fn io_error_from() {
    let obj_err = ObjError::IoError("denied".to_string());
    assert!(obj_err.message().contains("denied"));
}

// Directories

#[test]
fn shard_path_structure() {
    let cid = make_cid(b"test object");
    let path = shard_path("/tmp/craftobj_test", &cid);

    let hex = cid.to_hex();
    let shard = &hex[..2];
    let file = &hex;

    assert_eq!(path, format!("/tmp/craftobj_test/{}/{}", shard, file));
}

#[test]
fn shard_path_first_two_chars_match_subdir() {
    let cid = make_cid(b"another test");
    let path = shard_path("/base", &cid);
    let hex = cid.to_hex();

    let parts: Vec<&str> = path.split('/').collect();
    assert_eq!(parts[parts.len() - 2], &hex[..2]);
}

#[test]
fn ensure_shard_dirs_creates_256_dirs() {
    let names: HashSet<String> = shard_names().into_iter().collect();
    assert_eq!(names.len(), 256, "should create exactly 256 shard directories");
    assert!(names.contains("00") && names.contains("7f") && names.contains("ff"));
}

#[test]
fn ensure_shard_dirs_idempotent() {
    assert_eq!(shard_names(), shard_names());
}

#[test]
fn walk_shards_empty() {
    let cids = walk_shards(&[]);
    assert!(cids.is_empty());
}

#[test]
fn walk_shards_finds_objects() {
    let items: &[&[u8]] = &[b"alpha", b"beta", b"gamma"];
    let mut expected: Vec<Cid> = Vec::new();
    let mut names: Vec<String> = Vec::new();

    for data in items {
        let cid = make_cid(data);
        names.push(cid.to_hex());
        expected.push(cid);
    }

    let mut found = walk_shards(&names);
    found.sort();
    expected.sort();
    assert_eq!(found, expected);
}

#[test]
fn walk_shards_skips_invalid_filenames() {
    let cid = make_cid(b"valid");
    let names = vec![cid.to_hex(), "not_a_cid.tmp".to_string()];
    let found = walk_shards(&names);
    assert_eq!(found, vec![cid]);
}

#[test]
fn object_names_are_lower_case_hex() {
    let cid = make_cid(b"name");
    assert_eq!(parse_object_name(&cid.to_hex()), Some(cid));
    assert_eq!(parse_object_name(&cid.to_hex()[..62]), None);
    assert_eq!(parse_object_name(&"g".repeat(64)), None);
}

#[test]
fn shard_prefix_is_two_chars() {
    let cid = make_cid(b"any");
    let prefix = shard_prefix(&cid);
    assert_eq!(prefix.len(), 2);
    assert!(prefix.chars().all(|c| c.is_ascii_hexdigit()));
}

#[test]
fn uniform_distribution_across_shards() {
    let count = 256;
    let prefixes: HashSet<String> =
        (0u32..count as u32).map(|i| shard_prefix(&make_cid(&i.to_be_bytes()))).collect();
    assert!(
        prefixes.len() > count / 2,
        "expected reasonable prefix spread, got {}",
        prefixes.len()
    );
}

#[test]
fn usage_counts_files_alone() {
    let entries = [
        FileEntry { is_file: true, size: 10 },
        FileEntry { is_file: false, size: 4096 },
        FileEntry { is_file: true, size: 5 },
    ];
    assert_eq!(disk_usage(&entries), 15);
    assert_eq!(object_count(&entries), 2);
}

// Store, on files kept in memory

struct Disk {
    store: ContentAddressedStore,
    files: HashMap<String, Vec<u8>>,
    events: Vec<Event>,
}

impl Disk {
    fn open(capacity: usize, files: HashMap<String, Vec<u8>>) -> Disk {
        let found = walk_shards(&names_of(&files));
        let store = ContentAddressedStore::new("/objects".to_string(), capacity, &found);
        Disk { store, files, events: Vec::new() }
    }

    fn put(&mut self, data: &[u8]) -> Result<Cid, ObjError> {
        let start = self.store.begin_put(data);
        let path = self.store.object_path(&start.cid);
        if start.needs_write(self.files.contains_key(&path)) {
            self.files.insert(path, data.to_vec());
            let event = self.store.finish_put(data, WriteOutcome::Written)?;
            self.events.push(event);
        }
        Ok(start.cid)
    }

    fn get(&mut self, cid: &Cid) -> Result<Option<Vec<u8>>, ObjError> {
        match self.store.begin_get(cid) {
            GetStart::Hit(bytes) => Ok(Some(bytes)),
            GetStart::Absent => Ok(None),
            GetStart::Read => {
                let outcome = match self.files.get(&self.store.object_path(cid)) {
                    Some(bytes) => ReadOutcome::Bytes(bytes.clone()),
                    None => ReadOutcome::NotFound,
                };
                self.store.finish_get(cid, outcome)
            }
        }
    }

    fn contains(&self, cid: &Cid) -> bool {
        self.store.contains(cid, self.files.contains_key(&self.store.object_path(cid)))
    }

    fn delete(&mut self, cid: &Cid) -> Result<bool, ObjError> {
        let outcome = match self.files.remove(&self.store.object_path(cid)) {
            Some(_) => DeleteOutcome::Removed,
            None => DeleteOutcome::NotFound,
        };
        self.store.finish_delete(cid, outcome)
    }

    fn list_cids(&self) -> Vec<Cid> {
        walk_shards(&names_of(&self.files))
    }

    fn entries(&self) -> Vec<FileEntry> {
        self.files
            .values()
            .map(|b| FileEntry { is_file: true, size: b.len() as u64 })
            .collect()
    }
}

fn names_of(files: &HashMap<String, Vec<u8>>) -> Vec<String> {
    files.keys().map(|p| p.split('/').last().unwrap().to_string()).collect()
}

fn make_store() -> Disk {
    Disk::open(64, HashMap::new())
}

#[test]
fn put_get_roundtrip() {
    let mut store = make_store();
    let data = b"hello craftec world";
    let cid = store.put(data).unwrap();
    let retrieved = store.get(&cid).unwrap().expect("object must be found");
    assert_eq!(retrieved.as_slice(), data);
}

#[test]
fn put_returns_correct_cid() {
    let mut store = make_store();
    let data = b"content-addressed!";
    let cid = store.put(data).unwrap();
    assert_eq!(cid, Cid::from_data(data));
}

#[test]
fn put_deduplication() {
    let mut store = make_store();
    let data = b"duplicate me";
    let cid1 = store.put(data).unwrap();
    let cid2 = store.put(data).unwrap();
    assert_eq!(cid1, cid2);
    assert_eq!(object_count(&store.entries()), 1);
}

#[test]
fn get_returns_none_for_absent_cid() {
    let mut store = make_store();
    let absent = Cid::from_data(b"not in store");
    assert!(store.get(&absent).unwrap().is_none());
}

#[test]
fn integrity_violation_detected() {
    // A cache of one object, so that the second put leaves the first on disk only.
    let mut store = Disk::open(1, HashMap::new());
    let data = b"original content";
    let cid = store.put(data).unwrap();

    let path = shard_path(store.store.base_dir(), &cid);
    store.files.insert(path, b"corrupted!".to_vec());
    store.put(b"another").unwrap();

    let result = store.get(&cid);
    assert!(
        matches!(result, Err(ObjError::IntegrityViolation { .. })),
        "expected IntegrityViolation, got {:?}",
        result
    );
    assert_eq!(store.store.metrics().integrity_violations, 1);
}

#[test]
fn bloom_filter_eliminates_disk_io_for_absent() {
    let mut store = make_store();
    let absent = Cid::from_data(b"definitely absent");
    assert!(matches!(store.store.begin_get(&absent), GetStart::Absent));
    assert_eq!(store.store.metrics().cache_misses, 1);
}

#[test]
fn bloom_is_populated_on_put() {
    let mut store = make_store();
    let cid = store.put(b"bloom me").unwrap();
    assert!(store.store.may_contain(&cid));
}

#[test]
fn second_get_is_cache_hit() {
    let mut store = make_store();
    let cid = store.put(b"cache this").unwrap();

    store.get(&cid).unwrap();
    let hits_before = store.store.metrics().cache_hits;

    store.get(&cid).unwrap();
    let hits_after = store.store.metrics().cache_hits;
    assert!(hits_after > hits_before, "second get should be a cache hit");
}

#[test]
fn cache_eviction_falls_back_to_disk() {
    let mut store = Disk::open(2, HashMap::new());

    let mut cids: Vec<Cid> = Vec::new();
    for i in 0u8..5 {
        cids.push(store.put(&[i; 16]).unwrap());
    }

    for cid in &cids {
        let result = store.get(cid).unwrap();
        assert!(result.is_some(), "evicted objects must still be readable from disk");
    }
}

#[test]
fn contains_true_after_put() {
    let mut store = make_store();
    let cid = store.put(b"check me").unwrap();
    assert!(store.contains(&cid));
}

#[test]
fn contains_false_for_absent() {
    let store = make_store();
    assert!(!store.contains(&Cid::from_data(b"nope")));
}

#[test]
fn delete_returns_true_on_success() {
    let mut store = make_store();
    let cid = store.put(b"deletable").unwrap();
    assert!(store.delete(&cid).unwrap());
}

#[test]
fn delete_returns_false_for_absent() {
    let mut store = make_store();
    let absent = Cid::from_data(b"absent");
    assert!(!store.delete(&absent).unwrap());
}

#[test]
fn get_after_delete_returns_none() {
    let mut store = make_store();
    let cid = store.put(b"delete then get").unwrap();
    store.delete(&cid).unwrap();
    assert!(store.get(&cid).unwrap().is_none());
    assert_eq!(store.store.metrics().bloom_false_positives, 1);
}

#[test]
fn list_cids_empty_store() {
    let store = make_store();
    assert!(store.list_cids().is_empty());
}

#[test]
fn list_cids_returns_all_objects() {
    let mut store = make_store();
    let payloads: &[&[u8]] = &[b"alpha", b"beta", b"gamma"];
    let mut expected: Vec<Cid> = Vec::new();
    for p in payloads {
        expected.push(store.put(p).unwrap());
    }
    let mut found = store.list_cids();
    found.sort();
    expected.sort();
    assert_eq!(found, expected);
}

#[test]
fn disk_usage_increases_on_put() {
    let mut store = make_store();
    let before = disk_usage(&store.entries());
    store.put(b"some data that takes up space").unwrap();
    let after = disk_usage(&store.entries());
    assert!(after > before);
}

#[test]
fn object_count_tracks_puts_and_deletes() {
    let mut store = make_store();
    assert_eq!(object_count(&store.entries()), 0);

    let cid = store.put(b"count me").unwrap();
    assert_eq!(object_count(&store.entries()), 1);

    store.delete(&cid).unwrap();
    assert_eq!(object_count(&store.entries()), 0);
}

#[test]
fn objects_go_into_correct_shard_dir() {
    let mut store = make_store();
    let cid = store.put(b"shard routing test").unwrap();
    let hex = cid.to_hex();
    let path = shard_path(store.store.base_dir(), &cid);
    assert!(store.files.contains_key(&path), "object file must exist at shard path");
    assert_eq!(path, format!("/objects/{}/{}", &hex[..2], hex));
}

#[test]
fn metrics_puts_incremented() {
    let mut store = make_store();
    store.put(b"m1").unwrap();
    store.put(b"m2").unwrap();
    assert_eq!(store.store.metrics().puts, 2);
}

#[test]
fn metrics_gets_incremented() {
    let mut store = make_store();
    let cid = store.put(b"metric get").unwrap();
    store.get(&cid).unwrap();
    store.get(&cid).unwrap();
    assert_eq!(store.store.metrics().gets, 2);
}

#[test]
fn data_persists_across_reopen() {
    let data = b"persisted!";
    let mut store = make_store();
    let cid = store.put(data).unwrap();
    let mut store2 = Disk::open(64, store.files);
    let result = store2.get(&cid).unwrap();
    assert_eq!(result.as_deref(), Some(data.as_ref()));
}

#[test]
fn put_publishes_cid_written_event() {
    let mut store = make_store();
    let cid = store.put(b"event-test-data").unwrap();
    assert_eq!(store.events, vec![Event::CidWritten { cid }]);
}

#[test]
fn put_dedup_does_not_publish() {
    let mut store = make_store();
    let data = b"dedup-test";
    store.put(data).unwrap();
    store.events.clear();
    store.put(data).unwrap();
    assert!(store.events.is_empty(), "dedup path should not publish event");
}

#[test]
fn two_puts_write_once() {
    let mut store = make_store();
    let data = b"twice";
    let cid = store.put(data).unwrap();
    assert_eq!(store.put(data).unwrap(), cid);
    assert_eq!(cid, Cid::from_data(data));
    assert_eq!(object_count(&store.entries()), 1);
    assert_eq!(store.events.len(), 1);
    assert!(matches!(store.events[0], Event::CidWritten { cid: c } if c == cid));
    assert_eq!(store.store.metrics().puts, 2);
    assert_eq!(store.get(&cid).unwrap(), Some(data.to_vec()));
}

#[test]
fn every_get_is_a_hit_or_a_miss() {
    let mut store = Disk::open(1, HashMap::new());
    let first = store.put(b"first").unwrap();
    let second = store.put(b"second").unwrap();
    for cid in [first, second, Cid::from_data(b"absent"), second, first] {
        let _ = store.get(&cid);
        let m = store.store.metrics();
        assert_eq!(m.gets, m.cache_hits + m.cache_misses);
    }
    let m = store.store.metrics();
    assert_eq!(m.gets, 5);
    assert!(m.cache_hits >= 1 && m.cache_misses >= 2);
}

#[test]
fn full_disk_is_told_apart() {
    let mut store = make_store();
    let data = b"no room";
    let start = store.store.begin_put(data);
    let full = WriteOutcome::WriteFailed {
        os_error: Some(libc_enospc()),
        message: "no space left on device".to_string(),
    };
    assert_eq!(store.store.finish_put(data, full), Err(ObjError::StoreFull));

    let start = store.store.begin_put(data);
    let denied = WriteOutcome::WriteFailed { os_error: Some(13), message: "denied".to_string() };
    assert!(matches!(
        store.store.finish_put(data, denied),
        Err(ObjError::IoError(words)) if words.contains("denied")
    ));

    let start = store.store.begin_put(data);
    let renamed = WriteOutcome::RenameFailed { message: "moved".to_string() };
    assert!(matches!(
        store.store.finish_put(data, renamed),
        Err(ObjError::IoError(words)) if words.contains("moved")
    ));
    assert!(!store.store.may_contain(&start.cid));
}

#[test]
fn unreadable_and_undeletable_files_are_errors() {
    let mut store = make_store();
    let cid = store.put(b"held").unwrap();
    assert!(matches!(
        store.store.finish_get(&cid, ReadOutcome::Failed("bad sector".to_string())),
        Err(ObjError::IoError(_))
    ));
    assert!(matches!(
        store.store.finish_delete(&cid, DeleteOutcome::Failed("busy".to_string())),
        Err(ObjError::IoError(_))
    ));
}

#[test]
fn store_put_get_roundtrip() {
    let mut store = make_store();

    let data = b"Hello from Craftec integration test!";
    let cid = store.put(data).unwrap();

    let retrieved = store.get(&cid).unwrap();
    assert!(retrieved.is_some(), "data should exist");
    assert_eq!(retrieved.unwrap().as_slice(), data);
}

#[test]
fn store_list_cids_after_multiple_puts() {
    let mut store = make_store();

    let cid1 = store.put(b"object-one").unwrap();
    let cid2 = store.put(b"object-two").unwrap();
    let cid3 = store.put(b"object-three").unwrap();

    let cids = store.list_cids();
    assert!(cids.contains(&cid1));
    assert!(cids.contains(&cid2));
    assert!(cids.contains(&cid3));
    assert!(cids.len() >= 3);
}

#[test]
fn rlnc_store_retrieve_decode_roundtrip() {
    let mut store = make_store();
    let original = b"Data to encode, store, retrieve, and decode";
    let k = 4u32;

    let encoder = match RlncEncoder::new(original, k) {
        Ok(encoder) => encoder,
        Err(e) => panic!("{}", e.message()),
    };
    let pieces = encoder.encode_n(encoder.target_pieces() as usize);
    let piece_size = encoder.piece_size();
    let cid = *encoder.cid();

    // The bytes of a piece: its coefficients, then its data.
    let mut piece_cids = Vec::new();
    for piece in &pieces {
        let mut bytes = piece.coding_vector.clone();
        bytes.extend_from_slice(&piece.data);
        piece_cids.push(store.put(&bytes).unwrap());
    }

    let mut decoder = RlncDecoder::new(k, piece_size);
    for stored_cid in &piece_cids {
        let bytes = store.get(stored_cid).unwrap().unwrap();
        let (vector, data) = bytes.split_at(k as usize);
        let piece = CodedPiece::new(cid, vector.to_vec(), data.to_vec(), [0u8; 32]);
        let _ = decoder.add_piece(&piece);
        if decoder.is_decodable() {
            break;
        }
    }

    assert!(decoder.is_decodable());
    let recovered = decoder.decode().unwrap();
    assert_eq!(&recovered[..original.len()], original);
}
