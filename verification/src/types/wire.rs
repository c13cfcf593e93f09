//! Messages between nodes.

use crate::types::cid::Cid;
use crate::types::node_id::NodeId;
use crate::types::piece::CodedPiece;
use vstd::prelude::*;

verus! {

/// A message from one node to another.
#[derive(Debug)]
pub enum WireMessage {
    /// Asks for a sign of life.
    Ping { nonce: u64 },
    /// Answers a `Ping`.
    Pong { nonce: u64 },
    /// Asks for pieces of a content.
    PieceRequest { cid: Cid, piece_indices: Vec<u32>, request_id: u64 },
    /// Brings pieces.
    PieceResponse { pieces: Vec<CodedPiece>, request_id: u64 },
    /// Tells that a node provides a content.
    ProviderAnnounce { cid: Cid, node_id: NodeId },
    /// A write to a database, signed by its writer.
    SignedWrite { payload: Vec<u8>, signature: [u8; 64], writer: NodeId, cas_version: u64 },
    /// A node asks to be admitted.
    SwimJoin { node_id: NodeId, listen_port: u16 },
    /// A node is alive.
    SwimAlive { node_id: NodeId, incarnation: u64 },
    /// A node is suspected to have failed.
    SwimSuspect { node_id: NodeId, incarnation: u64, from: NodeId },
    /// A node is declared dead.
    SwimDead { node_id: NodeId, incarnation: u64, from: NodeId },
    /// Probes a node and brings news about others.
    SwimPing { from: NodeId, nonce: u64, piggyback: Vec<WireMessage> },
    /// Answers a `SwimPing`.
    SwimPingAck { from: NodeId, nonce: u64, incarnation: u64 },
    /// Tells how many pieces of a content are to be had.
    HealthReport { cid: Cid, available_pieces: u32, target_pieces: u32 },
}

impl WireMessage {
    /// Whether the message belongs to the membership protocol.
    pub open spec fn is_membership(&self) -> bool {
        ||| self is SwimJoin
        ||| self is SwimAlive
        ||| self is SwimSuspect
        ||| self is SwimDead
        ||| self is SwimPing
        ||| self is SwimPingAck
    }

    /// Whether the message belongs to the membership protocol.
    pub fn is_swim(&self) -> (yes: bool)
        ensures
            yes == self.is_membership(),
    {
        match self {
            WireMessage::SwimJoin { .. } => true,
            WireMessage::SwimAlive { .. } => true,
            WireMessage::SwimSuspect { .. } => true,
            WireMessage::SwimDead { .. } => true,
            WireMessage::SwimPing { .. } => true,
            WireMessage::SwimPingAck { .. } => true,
            _ => false,
        }
    }
}

}
