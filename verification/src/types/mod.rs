//! Identifiers, coded pieces and messages that all parts of a node share.

pub mod bytes;
pub mod cid;
pub mod event;
pub mod laws;
pub mod node_id;
pub mod order;
pub mod parse;
pub mod piece;
pub mod rpc;
pub mod table;
pub mod text;
pub mod wire;
