//! The node: its parts put together, and what it does about messages, requests and events.

pub mod cli;
pub mod config;
pub mod handler;
pub mod laws;
pub mod node;
pub mod piece_store;
pub mod rpc;
