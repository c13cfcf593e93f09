//! Membership, providers, pending requests and connections.

pub mod connection;
pub mod dht;
pub mod endpoint;
pub mod error;
pub mod laws;
pub mod pending;
pub mod pool;
pub mod swim;
