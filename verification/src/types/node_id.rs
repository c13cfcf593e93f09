//! Node identifiers.

use crate::outside::hexadecimal;
use crate::types::bytes;
use vstd::prelude::*;

verus! {

/// The identifier of a node: its Ed25519 public key.
#[derive(Clone, Copy, Debug, Eq, Hash, PartialOrd, Ord)]
pub struct NodeId {
    pub bytes: [u8; 32],
}

impl View for NodeId {
    type V = Seq<u8>;

    open spec fn view(&self) -> Seq<u8> {
        self.bytes@
    }
}

impl PartialEq for NodeId {
    fn eq(&self, other: &Self) -> (same: bool) {
        bytes::same_bytes(&self.bytes, &other.bytes)
    }
}

impl vstd::std_specs::cmp::PartialEqSpecImpl for NodeId {
    open spec fn obeys_eq_spec() -> bool {
        true
    }

    open spec fn eq_spec(&self, other: &Self) -> bool {
        self@ == other@
    }
}

/// Identifiers with the same bytes are the same.
pub broadcast proof fn lemma_node_id_equal(a: NodeId, b: NodeId)
    requires
        #[trigger] a@ == #[trigger] b@,
    ensures
        a == b,
{
    assert(a.bytes =~= b.bytes);
}

impl NodeId {
    /// The identifier with the given bytes.
    pub fn from_bytes(bytes: [u8; 32]) -> (id: NodeId)
        ensures
            id@ == bytes@,
    {
        NodeId { bytes }
    }

    /// The bytes of the identifier.
    pub fn as_bytes(&self) -> (bytes: &[u8; 32])
        ensures
            bytes@ == self@,
    {
        &self.bytes
    }

    /// The identifier as 64 lower-case hexadecimal digits.
    pub fn to_hex(&self) -> (text: String)
        ensures
            text@ == hexadecimal::hex_text(self@),
    {
        hexadecimal::hex_encode(self.bytes.as_slice())
    }
}

}
