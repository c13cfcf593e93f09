//! Random linear network coding over GF(2⁸).

pub mod decoder;
pub mod encoder;
pub mod engine;
pub mod error;
pub mod field;
pub mod gf256;
pub mod laws;
pub mod linear;
pub mod parts;
pub mod rank;
pub mod recoder;
