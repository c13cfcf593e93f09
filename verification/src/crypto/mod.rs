//! Hashing, message authentication codes and signatures.

pub mod hash;
pub mod hommac;
pub mod sign;
