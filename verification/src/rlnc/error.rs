//! Errors of the coding layer.

use crate::types::text;
use vstd::prelude::*;
use vstd::string::*;

verus! {

/// Why a coding operation failed.
#[derive(Debug, PartialEq, Eq)]
pub enum RlncError {
    /// Fewer independent pieces than the generation needs.
    InsufficientPieces { have: u32, need: u32 },
    /// A piece that adds nothing to those received.
    LinearlyDependent,
    /// Elimination did not come out.
    DecodeFailed(String),
    /// A piece of the wrong size.
    InvalidPieceSize { expected: usize, got: usize },
    /// No more coding operations are admitted.
    SemaphoreError,
    /// A coding vector of the wrong length.
    CodingVectorLengthMismatch { expected: usize, got: usize },
    /// Fewer than two pieces to recode.
    InsufficientRecodeInputs { got: usize },
    /// Pieces of different contents to recode.
    MismatchedCids,
}

impl RlncError {
    /// The error in words.
    pub open spec fn words(&self) -> Seq<char> {
        match self {
            RlncError::InsufficientPieces { have, need } => "insufficient pieces: have "@
                + text::decimal(*have as nat) + ", need "@ + text::decimal(*need as nat),
            RlncError::LinearlyDependent =>
                "coded piece is linearly dependent on existing matrix rows"@,
            RlncError::DecodeFailed(why) => "decode failed: "@ + why@,
            RlncError::InvalidPieceSize { expected, got } => "invalid piece size: expected "@
                + text::decimal(*expected as nat) + " bytes, got "@ + text::decimal(*got as nat),
            RlncError::SemaphoreError =>
                "RLNC engine semaphore closed (engine is shutting down)"@,
            RlncError::CodingVectorLengthMismatch { expected, got } => "coding vector length "@
                + text::decimal(*got as nat) + " does not match generation size "@ + text::decimal(
                *expected as nat,
            ),
            RlncError::InsufficientRecodeInputs { got } =>
                "recode requires at least 2 input pieces, got "@ + text::decimal(*got as nat),
            RlncError::MismatchedCids => "recode input pieces have mismatched CIDs"@,
        }
    }

    /// The error in words.
    pub fn message(&self) -> (text: String)
        ensures
            text@ == self.words(),
    {
        match self {
            RlncError::InsufficientPieces { have, need } => two_numbers(
                "insufficient pieces: have ",
                *have as u64,
                ", need ",
                *need as u64,
            ),
            RlncError::LinearlyDependent => String::from_str(
                "coded piece is linearly dependent on existing matrix rows",
            ),
            RlncError::DecodeFailed(why) => text::join2("decode failed: ", why.as_str()),
            RlncError::InvalidPieceSize { expected, got } => two_numbers(
                "invalid piece size: expected ",
                *expected as u64,
                " bytes, got ",
                *got as u64,
            ),
            RlncError::SemaphoreError => String::from_str(
                "RLNC engine semaphore closed (engine is shutting down)",
            ),
            RlncError::CodingVectorLengthMismatch { expected, got } => two_numbers(
                "coding vector length ",
                *got as u64,
                " does not match generation size ",
                *expected as u64,
            ),
            RlncError::InsufficientRecodeInputs { got } => {
                let mut words = String::from_str("recode requires at least 2 input pieces, got ");
                text::push_decimal(&mut words, *got as u64);
                words
            },
            RlncError::MismatchedCids => String::from_str(
                "recode input pieces have mismatched CIDs",
            ),
        }
    }
}

fn two_numbers(a: &str, m: u64, b: &str, n: u64) -> (words: String)
    ensures
        words@ == a@ + text::decimal(m as nat) + b@ + text::decimal(n as nat),
{
    let mut words = text::with_number(a, m, b);
    text::push_decimal(&mut words, n);
    words
}

}
