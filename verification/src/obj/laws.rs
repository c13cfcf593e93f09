//! What paths, counters and the object store promise.

use crate::obj::error::ObjError;
use crate::obj::shard;
use crate::obj::shard::FileEntry;
use crate::obj::store;
use crate::obj::store::StoreView;
use crate::outside::digest;
use crate::outside::hexadecimal;
use crate::outside::recency;
use crate::types;
use crate::types::text;
use vstd::prelude::*;

verus! {

/// A name stands behind its directory and one slash, which is not written twice; without a
/// directory it stands alone.
pub proof fn lemma_joined(base: Seq<char>, name: Seq<char>)
    ensures
        base.len() == 0 ==> shard::joined(base, name) == name,
        base.len() > 0 && base.last() != '/' ==> shard::joined(base, name) == base.push('/') + name,
        base.len() > 0 && base.last() == '/' ==> shard::joined(base, name) == base + name,
{
    reveal_strlit("/");
    if base.len() == 0 {
        assert(base + name =~= name);
    } else if base.last() != '/' {
        assert(base + "/"@ + name =~= base.push('/') + name);
    }
}

/// An object lies under its whole identifier, in the directory of the first two digits.
/// Different objects lie at different places.
pub proof fn lemma_object_path(base: Seq<char>, a: Seq<u8>, b: Seq<u8>)
    requires
        a.len() == 32,
        b.len() == 32,
    ensures
        ({
            let path = shard::object_path(base, a);
            let dir = shard::joined(base, hexadecimal::hex_text(seq![a[0]]));
            &&& path == shard::joined(dir, hexadecimal::hex_text(a))
            &&& path.len() >= 64
            &&& path.skip(path.len() - 64) == hexadecimal::hex_text(a)
        }),
        shard::object_path(base, a) == shard::object_path(base, b) ==> a == b,
{
    shard::lemma_object_name(a);
    shard::lemma_object_name(b);
    lemma_ends_with(base, a);
    lemma_ends_with(base, b);
    if shard::object_path(base, a) == shard::object_path(base, b) {
        hexadecimal::lemma_hex_injective(a, b);
    }
}

proof fn lemma_ends_with(base: Seq<char>, a: Seq<u8>)
    requires
        a.len() == 32,
    ensures
        ({
            let path = shard::object_path(base, a);
            &&& path.len() >= 64
            &&& path.skip(path.len() - 64) == hexadecimal::hex_text(a)
        }),
{
    let hex = hexadecimal::hex_text(a);
    let dir = shard::joined(base, hex.take(2));
    lemma_joined(dir, hex);
    let path = shard::object_path(base, a);
    assert(path.skip(path.len() - 64) =~= hex);
}

/// A file is an object exactly if its name is the name of some identifier.
pub proof fn lemma_object_names(name: Seq<char>)
    ensures
        shard::is_object_name(name) <==> exists|cid: Seq<u8>|
            cid.len() == 32 && name == #[trigger] hexadecimal::hex_text(cid),
{
    if exists|cid: Seq<u8>| cid.len() == 32 && name == #[trigger] hexadecimal::hex_text(cid) {
        let cid = choose|cid: Seq<u8>|
            cid.len() == 32 && name == #[trigger] hexadecimal::hex_text(cid);
        shard::lemma_object_name(cid);
    }
    if shard::is_object_name(name) {
        let cid = hexadecimal::hex_bytes(name);
        let written = hexadecimal::hex_text(cid);
        assert forall|i: int| 0 <= i < 64 implies #[trigger] written[i] == name[i] by {
            let h = i / 2;
            let high = name[2 * h];
            let low = name[2 * h + 1];
            assert(hexadecimal::is_hex_char(high) && hexadecimal::is_hex_char(low));
            assert(!('A' <= name[2 * h] <= 'F') && !('A' <= name[2 * h + 1] <= 'F'));
            assert(cid[h] == 16 * hexadecimal::hex_value(high) + hexadecimal::hex_value(low));
            assert(cid[h] as int / 16 == hexadecimal::hex_value(high));
            assert(cid[h] as int % 16 == hexadecimal::hex_value(low));
            assert(hexadecimal::hex_digit(hexadecimal::hex_value(high)) == high);
            assert(hexadecimal::hex_digit(hexadecimal::hex_value(low)) == low);
        }
        assert(written =~= name);
    }
}

/// One file more is listed behind the others, by its identifier, exactly if it is an object;
/// others are passed over.
pub proof fn lemma_objects_step(names: Seq<String>, name: String)
    ensures
        shard::object_cids(Seq::empty()).len() == 0,
        shard::object_cids(names.push(name)) == (if shard::is_object_name(name@) {
            shard::object_cids(names).push(hexadecimal::hex_bytes(name@))
        } else {
            shard::object_cids(names)
        }),
{
    assert(names.push(name).drop_last() =~= names);
}

/// Files are counted one by one with their sizes, directories are not.
pub proof fn lemma_files_step(entries: Seq<FileEntry>, entry: FileEntry)
    ensures
        shard::total_size(Seq::empty()) == 0,
        shard::file_count(Seq::empty()) == 0,
        entry.is_file ==> shard::total_size(entries.push(entry)) == shard::total_size(entries)
            + entry.size && shard::file_count(entries.push(entry)) == shard::file_count(entries)
            + 1,
        !entry.is_file ==> shard::total_size(entries.push(entry)) == shard::total_size(entries)
            && shard::file_count(entries.push(entry)) == shard::file_count(entries),
{
    assert(entries.push(entry).drop_last() =~= entries);
}

/// A counter goes up by one, and begins again behind the largest number.
pub proof fn lemma_next_count(n: u64)
    ensures
        n < u64::MAX ==> store::next_count(n) == n + 1,
        store::next_count(u64::MAX) == 0,
{
}

/// Beginning to store an object counts it, and changes nothing else.
pub proof fn lemma_put_begun(before: StoreView)
    ensures
        ({
            let after = store::put_begun(before);
            &&& before.metrics.puts < u64::MAX ==> after.metrics.puts == before.metrics.puts + 1
            &&& after.metrics.gets == before.metrics.gets
            &&& after.metrics.cache_hits == before.metrics.cache_hits
            &&& after.metrics.cache_misses == before.metrics.cache_misses
            &&& after.metrics.bloom_false_positives == before.metrics.bloom_false_positives
            &&& after.metrics.integrity_violations == before.metrics.integrity_violations
            &&& after.cache == before.cache
            &&& after.limit == before.limit
            &&& after.passes == before.passes
        }),
{
}

/// After an object was written it is the first in the cache, under the digest of its bytes,
/// the filter lets it pass, and no counter and nothing that passed before is lost.
pub proof fn lemma_written(before: StoreView, after: StoreView, data: Seq<u8>, key: Seq<u8>)
    requires
        store::written(before, after, data),
    ensures
        after.cache.len() > 0,
        after.cache[0] == (digest::blake3_digest(data), data),
        recency::entry_value(after.cache, digest::blake3_digest(data)) == Some(data),
        after.passes.contains(digest::blake3_digest(data)),
        before.passes.contains(key) ==> after.passes.contains(key),
        after.metrics == before.metrics,
        after.limit == before.limit,
{
}

/// An object is written unless the filter and the disk both know it.
pub proof fn lemma_to_write(look: bool, on_disk: bool)
    ensures
        !store::to_write(true, true),
        store::to_write(false, on_disk),
        store::to_write(look, false),
{
}

/// Requests add up at the start, and go on to add up when one more is answered from the cache
/// or not.
pub proof fn lemma_gets_step(m: store::StoreMetrics)
    ensures
        store::no_counts().puts == 0,
        store::no_counts().gets == 0,
        store::no_counts().cache_hits == 0,
        store::no_counts().cache_misses == 0,
        store::no_counts().bloom_false_positives == 0,
        store::no_counts().integrity_violations == 0,
        store::gets_add_up(store::no_counts()),
        store::gets_add_up(m) && m.cache_hits + m.cache_misses <= u64::MAX ==> m.gets
            == m.cache_hits + m.cache_misses,
        m.gets == m.cache_hits + m.cache_misses ==> store::gets_add_up(m),
{
}

/// What is told of bytes that are not genuine names both the digest that they have and the one
/// that they should have.
pub proof fn lemma_mismatch(actual: Seq<u8>, cid: Seq<u8>)
    ensures
        crate::types::text::holds(
            store::mismatch_words(actual, cid),
            hexadecimal::hex_text(actual),
        ),
        crate::types::text::holds(store::mismatch_words(actual, cid), hexadecimal::hex_text(cid)),
{
    let words = store::mismatch_words(actual, cid);
    let a = hexadecimal::hex_text(actual);
    let c = hexadecimal::hex_text(cid);
    let start = "stored bytes hash to "@;
    let middle = " but CID is "@;
    assert(words =~= start + a + (middle + c));
    assert(words =~= (start + a + middle) + c + Seq::<char>::empty());
    crate::types::laws::lemma_holds(words, a, start, middle + c);
    crate::types::laws::lemma_holds(words, c, start + a + middle, Seq::<char>::empty());
}

/// What is told of an error holds all that the error carries.
pub proof fn lemma_error_told(e: ObjError)
    ensures
        e matches ObjError::IntegrityViolation { cid, msg } ==> text::holds(e.words(), cid@)
            && text::holds(e.words(), msg@),
        e matches ObjError::NotFound { cid } ==> text::holds(e.words(), cid@),
        e matches ObjError::IoError(s) ==> text::holds(e.words(), s@),
        e matches ObjError::InvalidCid { value, reason } ==> text::holds(e.words(), value@)
            && text::holds(e.words(), reason@),
{
    let none = Seq::<char>::empty();
    match e {
        ObjError::IntegrityViolation { cid, msg } => {
            types::laws::lemma_parts_held(
                "integrity violation for CID "@,
                cid@,
                ": "@,
                msg@,
                none,
            );
        },
        ObjError::NotFound { cid } => {
            types::laws::lemma_parts_held("object not found: "@, cid@, none, none, none);
        },
        ObjError::IoError(s) => {
            types::laws::lemma_parts_held("I/O error: "@, s@, none, none, none);
        },
        ObjError::InvalidCid { value, reason } => {
            types::laws::lemma_parts_held("invalid CID '"@, value@, "': "@, reason@, none);
        },
        _ => {},
    }
}

}
