//! BLAKE3 hashing of pages, and Merkle roots.

use crate::outside::digest;
use crate::types::bytes;
use crate::types::cid::Cid;
use vstd::prelude::*;

verus! {

/// The zero hash.
pub open spec fn zero_hash() -> Seq<u8> {
    Seq::new(32, |i: int| 0u8)
}

/// The hash of an inner node.
pub open spec fn merkle_parent(left: Seq<u8>, right: Seq<u8>) -> Seq<u8> {
    digest::blake3_digest(left + right)
}

/// The layer above `nodes`: one parent for each pair, a last node without partner being
/// paired with itself.
pub open spec fn merkle_layer(nodes: Seq<Seq<u8>>) -> Seq<Seq<u8>> {
    Seq::new(
        (nodes.len() + 1) / 2,
        |i: int|
            merkle_parent(
                nodes[2 * i],
                if 2 * i + 1 < nodes.len() {
                    nodes[2 * i + 1]
                } else {
                    nodes[2 * i]
                },
            ),
    )
}

/// The root of the tree over `nodes`.
pub open spec fn merkle_top(nodes: Seq<Seq<u8>>) -> Seq<u8>
    decreases nodes.len(),
{
    if nodes.len() == 0 {
        zero_hash()
    } else if nodes.len() == 1 {
        nodes[0]
    } else {
        merkle_top(merkle_layer(nodes))
    }
}

/// The byte strings that a list of hashes holds.
pub open spec fn hash_views(hashes: Seq<[u8; 32]>) -> Seq<Seq<u8>> {
    hashes.map_values(|h: [u8; 32]| h@)
}

/// The BLAKE3 digest of `data`.
pub fn hash_bytes(data: &[u8]) -> (hash: [u8; 32])
    ensures
        hash@ == digest::blake3_digest(data@),
{
    digest::blake3_hash(data)
}

/// The identifier of a database page.
pub fn hash_page(page_data: &[u8]) -> (cid: Cid)
    ensures
        cid@ == digest::blake3_digest(page_data@),
{
    Cid::from_data(page_data)
}

/// Whether `data` hashes to `expected`.
pub fn verify_cid(data: &[u8], expected: &Cid) -> (ok: bool)
    ensures
        ok == (digest::blake3_digest(data@) == expected@),
{
    expected.verify(data)
}

/// The hash of the inner node over two nodes.
fn hash_pair(left: &[u8; 32], right: &[u8; 32]) -> (hash: [u8; 32])
    ensures
        hash@ == merkle_parent(left@, right@),
{
    let mut joined: Vec<u8> = Vec::new();
    bytes::append_bytes(&mut joined, left.as_slice());
    bytes::append_bytes(&mut joined, right.as_slice());
    assert(joined@ =~= left@ + right@);
    digest::blake3_hash(joined.as_slice())
}

/// The layer above `nodes`.
fn hash_layer(nodes: &Vec<[u8; 32]>) -> (next: Vec<[u8; 32]>)
    ensures
        hash_views(next@) == merkle_layer(hash_views(nodes@)),
{
    let mut next: Vec<[u8; 32]> = Vec::new();
    let len: usize = nodes.len();
    let mut i: usize = 0;
    while i < len
        invariant
            len == nodes@.len(),
            i == 2 * next@.len() || (i == len && len % 2 == 1 && next@.len() == (len + 1) / 2),
            i <= len,
            next@.len() <= (len + 1) / 2,
            forall|j: int|
                0 <= j < next@.len() ==> #[trigger] next@[j]@ == merkle_layer(
                    hash_views(nodes@),
                )[j],
        decreases len - i,
    {
        let left = nodes[i];
        if len - i >= 2 {
            let right = nodes[i + 1];
            next.push(hash_pair(&left, &right));
            i = i + 2;
        } else {
            next.push(hash_pair(&left, &left));
            i = len;
        }
    }
    assert(hash_views(next@) =~= merkle_layer(hash_views(nodes@)));
    next
}

/// The root of the binary Merkle tree over `leaves`: the zero hash where there is none, and
/// a last node without partner being paired with itself.
pub fn merkle_root(leaves: &[[u8; 32]]) -> (root: [u8; 32])
    ensures
        root@ == merkle_top(hash_views(leaves@)),
{
    if leaves.len() == 0 {
        let zero: [u8; 32] = [0u8; 32];
        assert(zero@ =~= zero_hash());
        return zero;
    }
    let mut current: Vec<[u8; 32]> = Vec::new();
    let mut i: usize = 0;
    while i < leaves.len()
        invariant
            i <= leaves@.len(),
            current@ == leaves@.subrange(0, i as int),
        decreases leaves@.len() - i,
    {
        current.push(leaves[i]);
        i = i + 1;
        assert(current@ =~= leaves@.subrange(0, i as int));
    }
    assert(current@ =~= leaves@);
    while current.len() > 1
        invariant
            current@.len() >= 1,
            merkle_top(hash_views(current@)) == merkle_top(hash_views(leaves@)),
        decreases current@.len(),
    {
        let next = hash_layer(&current);
        proof {
            assert(next@.len() == hash_views(next@).len());
        }
        current = next;
    }
    current[0]
}

/// A tree of one leaf has that leaf as its root, and an empty one the zero hash.
pub proof fn lemma_merkle_small(leaf: Seq<u8>)
    ensures
        merkle_top(seq![leaf]) == leaf,
        merkle_top(Seq::<Seq<u8>>::empty()) == zero_hash(),
        zero_hash().len() == 32,
        forall|i: int| 0 <= i < 32 ==> #[trigger] zero_hash()[i] == 0,
{
}

/// The root over pairs of nodes is the root over their digests, in their order, the left
/// node of each pair hashed first.
pub proof fn lemma_merkle_pairs(nodes: Seq<Seq<u8>>, parents: Seq<Seq<u8>>)
    requires
        parents.len() > 0,
        nodes.len() == 2 * parents.len(),
        forall|i: int|
            0 <= i < parents.len() ==> #[trigger] parents[i] == digest::blake3_digest(
                nodes[2 * i] + nodes[2 * i + 1],
            ),
    ensures
        merkle_top(nodes) == merkle_top(parents),
{
    assert(merkle_layer(nodes) =~= parents);
}

/// The root over two leaves hashes the left one first.
pub proof fn lemma_merkle_pair(left: Seq<u8>, right: Seq<u8>)
    ensures
        merkle_top(seq![left, right]) == digest::blake3_digest(left + right),
{
    reveal_with_fuel(merkle_top, 2);
    let layer = merkle_layer(seq![left, right]);
    assert(layer =~= seq![merkle_parent(left, right)]);
}

/// An odd layer has the root of the layer with its last node written twice.
pub proof fn lemma_merkle_odd(nodes: Seq<Seq<u8>>)
    requires
        nodes.len() % 2 == 1,
        nodes.len() > 1,
    ensures
        merkle_top(nodes) == merkle_top(nodes.push(nodes.last())),
{
    assert(merkle_layer(nodes) =~= merkle_layer(nodes.push(nodes.last())));
}

}
