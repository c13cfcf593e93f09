//! The database of a node: who may write, what is signed, and what a write changes.

pub mod commit;
pub mod database;
pub mod error;
pub mod laws;
pub mod rpc_write;
pub mod schema;
