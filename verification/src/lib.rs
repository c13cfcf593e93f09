//! Craftec: the verified core of a peer-to-peer storage node.

pub mod com;
pub mod crypto;
pub mod health;
pub mod net;
pub mod node;
pub mod obj;
pub mod outside;
pub mod rlnc;
pub mod sql;
pub mod types;
