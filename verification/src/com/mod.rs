//! Agents: WebAssembly programs, what they may ask of their host, and their life cycle.

pub mod agent;
pub mod error;
pub mod host;
pub mod laws;
pub mod runtime;
pub mod scheduler;
