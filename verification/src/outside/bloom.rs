//! Bloom filters.

use bloomfilter::Bloom;
use vstd::prelude::*;

verus! {

/// `bloomfilter::Bloom`. Nothing is known of a value but what the functions below state.
#[verifier::external_type_specification]
#[verifier::external_body]
#[verifier::reject_recursive_types(T)]
pub struct ExBloom<T: ?Sized>(bloomfilter::Bloom<T>);

/// The keys that a filter lets pass.
pub uninterp spec fn bloom_passes(filter: Bloom<[u8; 32]>) -> Set<Seq<u8>>;

/// `bloomfilter::Bloom::new`: a filter of the given number of bytes, with as many hash
/// functions as suit the given number of items. It lets nothing pass. The keys of its hash
/// functions are random, so which keys it will let pass besides those set is not stated.
/// Filters that are empty, or larger than the address space, are left out.
#[verifier::external_body]
pub(crate) fn new_filter(bitmap_bytes: usize, items: usize) -> (filter: Bloom<[u8; 32]>)
    requires
        0 < bitmap_bytes <= usize::MAX / 16,
        0 < items,
    ensures
        forall|key: Seq<u8>| !(#[trigger] bloom_passes(filter).contains(key)),
{
    Bloom::new(bitmap_bytes, items)
}

/// `bloomfilter::Bloom::set`: the key passes afterwards, and so does every key that did
/// before.
#[verifier::external_body]
pub(crate) fn set_key(filter: &mut Bloom<[u8; 32]>, key: &[u8; 32])
    ensures
        bloom_passes(*final(filter)).contains(key@),
        bloom_passes(*old(filter)).subset_of(bloom_passes(*final(filter))),
{
    filter.set(key)
}

/// `bloomfilter::Bloom::check`: whether the filter lets the key pass.
#[verifier::external_body]
pub(crate) fn check_key(filter: &Bloom<[u8; 32]>, key: &[u8; 32]) -> (passes: bool)
    ensures
        passes == bloom_passes(*filter).contains(key@),
{
    filter.check(key)
}

}
