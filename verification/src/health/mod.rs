//! Which pieces are where, what is missing, and who repairs it.

pub mod coordinator;
pub mod error;
pub mod laws;
pub mod repair;
pub mod scanner;
pub mod tracker;
