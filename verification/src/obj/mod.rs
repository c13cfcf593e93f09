//! The content-addressed object store.

pub mod bloom;
pub mod cache;
pub mod error;
pub mod laws;
pub mod shard;
pub mod store;
