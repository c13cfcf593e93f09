//! Requests of clients and their answers.

use crate::types::cid::Cid;
use crate::types::node_id::NodeId;
use vstd::prelude::*;

verus! {

/// A value in a row of an answer.
#[derive(Debug, PartialEq, Eq)]
pub enum RpcValue {
    /// No value.
    Null,
    /// An integer.
    Integer(i64),
    /// A real number, by the bits of its double-precision form.
    Real { bits: u64 },
    /// A text.
    Text(String),
    /// Bytes.
    Blob(Vec<u8>),
}

/// What a client asks for.
#[derive(Debug)]
pub enum RpcRequest {
    /// How the node is.
    Status,
    /// To store an object.
    StorePut { data: Vec<u8> },
    /// To fetch an object.
    StoreGet { cid: Cid },
    /// Which objects there are.
    StoreList,
    /// To read from the database.
    SqlQuery { sql: String },
    /// To write to the database.
    SqlExecute { sql: String, writer: NodeId, signature: [u8; 64] },
    /// Which peers there are.
    Peers,
    /// Which pieces of a content there are.
    PieceInfo { cid: Cid },
}

/// What a client is answered.
#[derive(Debug)]
pub enum RpcResponse {
    /// How the node is.
    Status {
        node_id: NodeId,
        alive_peers: usize,
        store_objects: usize,
        db_root_cid: Cid,
        uptime_secs: u64,
    },
    /// The object is stored.
    StorePut { cid: Cid },
    /// The object, if there is one.
    StoreGet { data: Option<Vec<u8>> },
    /// The objects.
    StoreList { cids: Vec<Cid> },
    /// The rows.
    SqlQuery { rows: Vec<Vec<RpcValue>> },
    /// The database has a new root.
    SqlExecute { root_cid: Cid },
    /// The peers.
    Peers { peers: Vec<NodeId>, count: usize },
    /// The pieces of a content.
    PieceInfo { cid: Cid, available: u32, k: Option<u32>, holders: Vec<NodeId> },
    /// The request failed.
    Error { code: u32, message: String },
}

}
