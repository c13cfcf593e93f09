//! Random bytes.

use crate::net::dht;
use crate::types::node_id::NodeId;
use rand::seq::SliceRandom;
use rand::Rng;
use rand::RngCore;
use vstd::prelude::*;

verus! {

/// `rand::Rng::gen` on the thread's generator. Any byte may come back.
#[verifier::external_body]
pub(crate) fn random_byte() -> u8 {
    rand::thread_rng().gen()
}

/// `rand::Rng::gen_range` over `1..=255` on the thread's generator. Any byte of that range
/// may come back, so never zero.
#[verifier::external_body]
pub(crate) fn random_nonzero_byte() -> (b: u8)
    ensures
        b != 0,
{
    rand::thread_rng().gen_range(1..=255)
}

/// `rand::RngCore::fill_bytes` of the operating system's generator, on 32 bytes. Any 32
/// bytes may come back.
#[verifier::external_body]
pub(crate) fn random_key() -> [u8; 32] {
    let mut key = [0u8; 32];
    rand::rngs::OsRng.fill_bytes(&mut key);
    key
}

/// `rand::seq::SliceRandom::choose_multiple` on the thread's generator, with copies of the
/// chosen nodes: nodes at distinct places of the slice, as many as asked for or all where
/// there are fewer. Any such choice, in any order, may come back.
#[verifier::external_body]
pub(crate) fn choose_nodes(nodes: &[NodeId], amount: usize) -> (chosen: Vec<NodeId>)
    ensures
        dht::picked_from(chosen@, nodes@),
        chosen@.len() == if amount < nodes@.len() {
            amount as nat
        } else {
            nodes@.len()
        },
{
    nodes.choose_multiple(&mut rand::thread_rng(), amount).copied().collect()
}

/// `rand::seq::SliceRandom::choose` on the thread's generator, with a copy of the chosen
/// node: none of an empty slice, else any node of the slice may come back.
#[verifier::external_body]
pub(crate) fn choose_node(nodes: &[NodeId]) -> (chosen: Option<NodeId>)
    ensures
        chosen is None <==> nodes@.len() == 0,
        chosen matches Some(id) ==> nodes@.contains(id),
{
    nodes.choose(&mut rand::thread_rng()).copied()
}

}
