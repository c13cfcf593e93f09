//! Calls into other crates. Every function here states what the crate behind it is
//! trusted to do; the rest of the library is proved from these statements.

pub mod bloom;
pub mod digest;
pub mod ed25519;
pub mod hexadecimal;
pub mod json;
pub mod random;
pub mod recency;
pub mod slots;
pub mod unicode;
pub mod wasm;
