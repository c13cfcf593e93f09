//! Events that the parts of a node tell each other.

use crate::types::cid::Cid;
use crate::types::node_id::NodeId;
use vstd::prelude::*;

verus! {

/// Something that happened in a node.
#[derive(Clone, Copy, Debug, PartialEq, Eq)]
pub enum Event {
    /// An object was written.
    CidWritten { cid: Cid },
    /// A database has a new root.
    PageCommitted { db_id: Cid, page_num: u32, root_cid: Cid },
    /// A peer connected.
    PeerConnected { node_id: NodeId },
    /// A peer disconnected.
    PeerDisconnected { node_id: NodeId },
    /// A content has too few pieces.
    RepairNeeded { cid: Cid },
    /// The disk is nearly full.
    DiskWatermarkHit { usage_percent: u8 },
    /// The node shuts down.
    ShutdownSignal,
}

}
