//! Content identifiers.

use crate::outside::digest;
use crate::outside::hexadecimal;
use crate::types::bytes;
use vstd::prelude::*;

verus! {

/// The identifier of a content: the BLAKE3 digest of its bytes.
#[derive(Clone, Copy, Debug, Eq, Hash, PartialOrd, Ord)]
pub struct Cid {
    pub bytes: [u8; 32],
}

impl View for Cid {
    type V = Seq<u8>;

    open spec fn view(&self) -> Seq<u8> {
        self.bytes@
    }
}

impl PartialEq for Cid {
    fn eq(&self, other: &Self) -> (same: bool) {
        bytes::same_bytes(&self.bytes, &other.bytes)
    }
}

impl vstd::std_specs::cmp::PartialEqSpecImpl for Cid {
    open spec fn obeys_eq_spec() -> bool {
        true
    }

    open spec fn eq_spec(&self, other: &Self) -> bool {
        self@ == other@
    }
}

/// Identifiers with the same bytes are the same.
pub broadcast proof fn lemma_cid_equal(a: Cid, b: Cid)
    requires
        #[trigger] a@ == #[trigger] b@,
    ensures
        a == b,
{
    assert(a.bytes =~= b.bytes);
}

impl Cid {
    /// The identifier with the given bytes.
    pub fn from_bytes(bytes: [u8; 32]) -> (cid: Cid)
        ensures
            cid@ == bytes@,
    {
        Cid { bytes }
    }

    /// The identifier of `data`.
    pub fn from_data(data: &[u8]) -> (cid: Cid)
        ensures
            cid@ == digest::blake3_digest(data@),
    {
        Cid { bytes: digest::blake3_hash(data) }
    }

    /// The bytes of the identifier.
    pub fn as_bytes(&self) -> (bytes: &[u8; 32])
        ensures
            bytes@ == self@,
    {
        &self.bytes
    }

    /// Whether `data` is the content that this identifier names.
    pub fn verify(&self, data: &[u8]) -> (ok: bool)
        ensures
            ok == (digest::blake3_digest(data@) == self@),
    {
        let actual = digest::blake3_hash(data);
        bytes::same_bytes(&actual, &self.bytes)
    }

    /// The identifier as 64 lower-case hexadecimal digits.
    pub fn to_hex(&self) -> (text: String)
        ensures
            text@ == hexadecimal::hex_text(self@),
    {
        hexadecimal::hex_encode(self.bytes.as_slice())
    }
}

}
