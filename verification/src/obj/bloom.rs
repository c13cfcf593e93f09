//! A filter that tells which contents are certainly absent.

use crate::outside::bloom;
use crate::types::cid::Cid;
use bloomfilter::Bloom;
use vstd::prelude::*;

verus! {

/// How many contents a filter is made for unless told otherwise.
pub const DEFAULT_EXPECTED_ITEMS: usize = 1_000_000;

/// The bytes of a filter that lets pass one in a hundred absent contents when it holds as
/// many as it is made for by default.
pub const DEFAULT_BITMAP_BYTES: usize = 1_198_133;

/// A Bloom filter of contents.
pub struct CidBloomFilter {
    inner: Bloom<[u8; 32]>,
    count: usize,
    inserted: Ghost<Set<Seq<u8>>>,
}

impl CidBloomFilter {
    /// The contents that the filter lets pass.
    pub closed spec fn passes(&self) -> Set<Seq<u8>> {
        bloom::bloom_passes(self.inner)
    }

    /// The contents that were inserted.
    pub closed spec fn members(&self) -> Set<Seq<u8>> {
        self.inserted@
    }

    /// How often something was inserted, up to the largest number.
    pub closed spec fn insertions(&self) -> nat {
        self.count as nat
    }

    /// Everything that was inserted passes.
    pub open spec fn wf(&self) -> bool {
        self.members().subset_of(self.passes())
    }

    /// An empty filter of a number of bytes, made for a number of contents.
    pub fn new(bitmap_bytes: usize, expected_items: usize) -> (filter: CidBloomFilter)
        requires
            0 < bitmap_bytes <= usize::MAX / 16,
            0 < expected_items,
        ensures
            filter.wf(),
            filter.passes() == Set::<Seq<u8>>::empty(),
            filter.members() == Set::<Seq<u8>>::empty(),
            filter.insertions() == 0,
    {
        let filter = CidBloomFilter {
            inner: bloom::new_filter(bitmap_bytes, expected_items),
            count: 0,
            inserted: Ghost(Set::empty()),
        };
        assert(filter.passes() =~= Set::<Seq<u8>>::empty());
        filter
    }

    /// Inserts a content.
    pub fn insert(&mut self, cid: &Cid)
        requires
            old(self).wf(),
        ensures
            final(self).wf(),
            final(self).members() == old(self).members().insert(cid@),
            old(self).passes().subset_of(final(self).passes()),
            final(self).passes().contains(cid@),
            final(self).insertions() == if old(self).insertions() < usize::MAX {
                old(self).insertions() + 1
            } else {
                usize::MAX as nat
            },
    {
        bloom::set_key(&mut self.inner, cid.as_bytes());
        self.count = self.count.saturating_add(1);
        proof {
            self.inserted@ = self.inserted@.insert(cid@);
        }
    }

    /// Whether a content may have been inserted. What was inserted always may.
    pub fn probably_contains(&self, cid: &Cid) -> (maybe: bool)
        requires
            self.wf(),
        ensures
            maybe == self.passes().contains(cid@),
            self.members().contains(cid@) ==> maybe,
    {
        bloom::check_key(&self.inner, cid.as_bytes())
    }

    /// How often something was inserted.
    pub fn len(&self) -> (n: usize)
        ensures
            n == self.insertions(),
    {
        self.count
    }

    /// Whether nothing was inserted.
    pub fn is_empty(&self) -> (empty: bool)
        ensures
            empty == (self.insertions() == 0),
    {
        self.count == 0
    }

    /// A filter of the usual size that holds the contents found on disk.
    pub fn rebuild(found: &[Cid]) -> (filter: CidBloomFilter)
        ensures
            filter.wf(),
            filter.insertions() == found@.len(),
            forall|i: int|
                0 <= i < found@.len() ==> filter.members().contains((#[trigger] found@[i])@),
            forall|key: Seq<u8>| #[trigger]
                filter.members().contains(key) ==> exists|i: int|
                    0 <= i < found@.len() && (#[trigger] found@[i])@ == key,
            found@.len() == 0 ==> filter.passes() == Set::<Seq<u8>>::empty(),
    {
        let mut filter = CidBloomFilter::new(DEFAULT_BITMAP_BYTES, DEFAULT_EXPECTED_ITEMS);
        let mut i: usize = 0;
        while i < found.len()
            invariant
                i <= found@.len(),
                filter.wf(),
                filter.insertions() == i,
                i == 0 ==> filter.passes() == Set::<Seq<u8>>::empty(),
                forall|j: int| 0 <= j < i ==> filter.members().contains((#[trigger] found@[j])@),
                forall|key: Seq<u8>| #[trigger]
                    filter.members().contains(key) ==> exists|j: int|
                        0 <= j < i && (#[trigger] found@[j])@ == key,
            decreases found@.len() - i,
        {
            let ghost before = filter.members();
            filter.insert(&found[i]);
            proof {
                assert forall|key: Seq<u8>| #[trigger]
                    filter.members().contains(key) implies exists|j: int|
                    0 <= j < i + 1 && (#[trigger] found@[j])@ == key by {
                    if before.contains(key) {
                        let j = choose|j: int| 0 <= j < i && (#[trigger] found@[j])@ == key;
                        assert(found@[j]@ == key);
                    } else {
                        assert(found@[i as int]@ == key);
                    }
                }
            }
            i = i + 1;
        }
        filter
    }
}

}
