//! Where objects lie: in 256 directories, by the first byte of their identifiers.

use crate::outside::hexadecimal;
use crate::types::cid::Cid;
use crate::types::text;
use vstd::prelude::*;
use vstd::string::*;

verus! {

/// A directory and a name in it.
pub open spec fn joined(base: Seq<char>, name: Seq<char>) -> Seq<char> {
    if base.len() == 0 || base.last() == '/' {
        base + name
    } else {
        base + "/"@ + name
    }
}

/// The path of an object.
pub open spec fn object_path(base: Seq<char>, cid: Seq<u8>) -> Seq<char> {
    let hex = hexadecimal::hex_text(cid);
    joined(joined(base, hex.take(2)), hex)
}

/// Whether a file name is that of an object: 64 lower-case hexadecimal digits.
pub open spec fn is_object_name(name: Seq<char>) -> bool {
    name.len() == 64 && hexadecimal::is_hex_text(name) && forall|i: int|
        0 <= i < name.len() ==> !('A' <= #[trigger] name[i] <= 'F')
}

/// The identifiers of the names that are names of objects, in their order.
pub open spec fn object_cids(names: Seq<String>) -> Seq<Seq<u8>>
    decreases names.len(),
{
    if names.len() == 0 {
        Seq::empty()
    } else {
        let before = object_cids(names.drop_last());
        if is_object_name(names.last()@) {
            before.push(hexadecimal::hex_bytes(names.last()@))
        } else {
            before
        }
    }
}

/// A directory and a name in it.
pub fn join_path(base: &str, name: &str) -> (path: String)
    ensures
        path@ == joined(base@, name@),
{
    let n: usize = base.unicode_len();
    if n == 0 || base.get_char(n - 1) == '/' {
        text::join2(base, name)
    } else {
        text::join3(base, "/", name)
    }
}

/// The path of an object under a base directory: `<base>/<two digits>/<64 digits>`.
pub fn shard_path(base: &str, cid: &Cid) -> (path: String)
    ensures
        path@ == object_path(base@, cid@),
{
    let hex = cid.to_hex();
    let prefix = hex.as_str().substring_char(0, 2);
    proof {
        assert(prefix@ =~= hex@.take(2));
    }
    let dir = join_path(base, prefix);
    join_path(dir.as_str(), hex.as_str())
}

/// The name of the directory of an object: the first two digits of its identifier.
pub fn shard_prefix(cid: &Cid) -> (prefix: String)
    ensures
        prefix@ == hexadecimal::hex_text(cid@).take(2),
        prefix@.len() == 2,
{
    let hex = cid.to_hex();
    let prefix = hex.as_str().substring_char(0, 2);
    proof {
        assert(prefix@ =~= hex@.take(2));
    }
    String::from_str(prefix)
}

/// The names of the 256 directories, `00` to `ff`.
pub fn shard_names() -> (names: Vec<String>)
    ensures
        names@.len() == 256,
        forall|i: int|
            0 <= i < 256 ==> (#[trigger] names@[i])@ == hexadecimal::hex_text(seq![i as u8]),
{
    let mut names: Vec<String> = Vec::new();
    let mut i: u16 = 0;
    while i < 256
        invariant
            i <= 256,
            names@.len() == i,
            forall|j: int|
                0 <= j < i ==> (#[trigger] names@[j])@ == hexadecimal::hex_text(seq![j as u8]),
        decreases 256 - i,
    {
        let byte: [u8; 1] = [i as u8];
        let name = hexadecimal::hex_encode(byte.as_slice());
        proof {
            assert(byte@ =~= seq![i as u8]);
        }
        names.push(name);
        i = i + 1;
    }
    names
}

/// The identifier that a file name stands for.
pub fn parse_object_name(name: &str) -> (cid: Option<Cid>)
    ensures
        cid is Some <==> is_object_name(name@),
        cid matches Some(c) ==> c@ == hexadecimal::hex_bytes(name@),
{
    let n: usize = name.unicode_len();
    if n != 64 {
        return None;
    }
    let mut i: usize = 0;
    while i < n
        invariant
            i <= n,
            n == name@.len(),
            forall|j: int| 0 <= j < i ==> !('A' <= #[trigger] name@[j] <= 'F'),
        decreases n - i,
    {
        let c: char = name.get_char(i);
        if 'A' <= c && c <= 'F' {
            return None;
        }
        i = i + 1;
    }
    match hexadecimal::hex_decode(name) {
        None => None,
        Some(data) => {
            let mut bytes: [u8; 32] = [0u8; 32];
            let mut j: usize = 0;
            while j < 32
                invariant
                    j <= 32,
                    data@.len() == 32,
                    forall|q: int| 0 <= q < j ==> bytes@[q] == data@[q],
                decreases 32 - j,
            {
                bytes[j] = data[j];
                j = j + 1;
            }
            assert(bytes@ =~= data@);
            Some(Cid::from_bytes(bytes))
        },
    }
}

/// The identifiers of the objects among the file names found in the directories; names of
/// other files are skipped.
pub fn walk_shards(names: &[String]) -> (cids: Vec<Cid>)
    ensures
        cids@.map_values(|c: Cid| c@) == object_cids(names@),
{
    let mut cids: Vec<Cid> = Vec::new();
    let mut i: usize = 0;
    proof {
        assert(names@.take(0) =~= Seq::<String>::empty());
        assert(cids@.map_values(|c: Cid| c@) =~= Seq::<Seq<u8>>::empty());
    }
    while i < names.len()
        invariant
            i <= names@.len(),
            cids@.map_values(|c: Cid| c@) == object_cids(names@.take(i as int)),
        decreases names@.len() - i,
    {
        let ghost before = cids@;
        if let Some(cid) = parse_object_name(names[i].as_str()) {
            cids.push(cid);
            assert(cids@.map_values(|c: Cid| c@) =~= before.map_values(|c: Cid| c@).push(cid@));
        }
        proof {
            let more = names@.take(i as int + 1);
            assert(more.drop_last() =~= names@.take(i as int));
        }
        i = i + 1;
    }
    assert(names@.take(names@.len() as int) =~= names@);
    cids
}

/// The name under which an object is stored is read back as its identifier, and it starts
/// with the name of its directory.
pub proof fn lemma_object_name(cid: Seq<u8>)
    requires
        cid.len() == 32,
    ensures
        is_object_name(hexadecimal::hex_text(cid)),
        hexadecimal::hex_bytes(hexadecimal::hex_text(cid)) == cid,
        hexadecimal::hex_text(cid).take(2) == hexadecimal::hex_text(seq![cid[0]]),
{
    let name = hexadecimal::hex_text(cid);
    hexadecimal::lemma_hex_round_trip(cid);
    assert forall|i: int| 0 <= i < name.len() implies !('A' <= #[trigger] name[i] <= 'F') by {
        let half = if i % 2 == 0 { cid[i / 2] as int / 16 } else { cid[i / 2] as int % 16 };
        assert(name[i] == hexadecimal::hex_digit(half));
        assert(0 <= half < 16);
    }
    assert(name.take(2) =~= hexadecimal::hex_text(seq![cid[0]])) by {
        assert forall|i: int| 0 <= i < 2 implies #[trigger] name.take(2)[i]
            == hexadecimal::hex_text(seq![cid[0]])[i] by {
            assert(i / 2 == 0);
        }
    }
}

/// A file found in a directory: whether it is a regular file, and its size.
#[derive(Clone, Copy, Debug, PartialEq, Eq, Structural)]
pub struct FileEntry {
    pub is_file: bool,
    pub size: u64,
}

/// The sizes of the regular files added up.
pub open spec fn total_size(entries: Seq<FileEntry>) -> nat
    decreases entries.len(),
{
    if entries.len() == 0 {
        0
    } else {
        total_size(entries.drop_last()) + if entries.last().is_file {
            entries.last().size as nat
        } else {
            0
        }
    }
}

/// The number of regular files.
pub open spec fn file_count(entries: Seq<FileEntry>) -> nat
    decreases entries.len(),
{
    if entries.len() == 0 {
        0
    } else {
        file_count(entries.drop_last()) + if entries.last().is_file {
            1nat
        } else {
            0nat
        }
    }
}

/// The bytes used by the regular files found, or the largest number where there are more.
pub fn disk_usage(entries: &[FileEntry]) -> (total: u64)
    ensures
        total == if total_size(entries@) <= u64::MAX {
            total_size(entries@)
        } else {
            u64::MAX as nat
        },
{
    let mut total: u64 = 0;
    let mut i: usize = 0;
    assert(entries@.take(0) =~= Seq::<FileEntry>::empty());
    while i < entries.len()
        invariant
            i <= entries@.len(),
            total == if total_size(entries@.take(i as int)) <= u64::MAX {
                total_size(entries@.take(i as int))
            } else {
                u64::MAX as nat
            },
        decreases entries@.len() - i,
    {
        if entries[i].is_file {
            total = total.saturating_add(entries[i].size);
        }
        proof {
            let more = entries@.take(i as int + 1);
            assert(more.drop_last() =~= entries@.take(i as int));
        }
        i = i + 1;
    }
    assert(entries@.take(entries@.len() as int) =~= entries@);
    total
}

/// The number of regular files found.
pub fn object_count(entries: &[FileEntry]) -> (count: usize)
    ensures
        count == file_count(entries@),
{
    let mut count: usize = 0;
    let mut i: usize = 0;
    assert(entries@.take(0) =~= Seq::<FileEntry>::empty());
    while i < entries.len()
        invariant
            i <= entries@.len(),
            count == file_count(entries@.take(i as int)),
            count <= i,
        decreases entries@.len() - i,
    {
        if entries[i].is_file {
            count = count + 1;
        }
        proof {
            let more = entries@.take(i as int + 1);
            assert(more.drop_last() =~= entries@.take(i as int));
        }
        i = i + 1;
    }
    assert(entries@.take(entries@.len() as int) =~= entries@);
    count
}

}
