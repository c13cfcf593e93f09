//! Errors of the health layer.

use crate::types::text;
use vstd::prelude::*;
use vstd::string::*;

verus! {

/// Why a health operation failed.
#[derive(Debug, PartialEq, Eq)]
pub enum HealthError {
    /// Fewer pieces than an operation needs.
    InsufficientPieces { cid: String, k: u32, available: u32 },
    /// A repair could not be finished.
    RepairFailed { cid: String, reason: String },
    /// No coordinator could be elected.
    CoordinatorElectionFailed(String),
    /// A scan could not be finished.
    ScanFailed(String),
    /// The network failed.
    NetworkError(String),
}

impl HealthError {
    /// The error in words.
    pub open spec fn words(&self) -> Seq<char> {
        match self {
            HealthError::InsufficientPieces { cid, k, available } => "insufficient pieces for CID "@
                + cid@ + ": need "@ + text::decimal(*k as nat) + ", have "@ + text::decimal(
                *available as nat,
            ),
            HealthError::RepairFailed { cid, reason } => "repair failed for CID "@ + cid@ + ": "@
                + reason@,
            HealthError::CoordinatorElectionFailed(why) => "coordinator election failed: "@ + why@,
            HealthError::ScanFailed(why) => "scan failed: "@ + why@,
            HealthError::NetworkError(why) => "network error: "@ + why@,
        }
    }

    /// The error in words.
    pub fn message(&self) -> (words: String)
        ensures
            words@ == self.words(),
    {
        match self {
            HealthError::InsufficientPieces { cid, k, available } => {
                let mut words = text::join3("insufficient pieces for CID ", cid.as_str(), ": need ");
                text::push_decimal(&mut words, *k as u64);
                words.append(", have ");
                text::push_decimal(&mut words, *available as u64);
                words
            },
            HealthError::RepairFailed { cid, reason } => {
                let mut words = text::join3("repair failed for CID ", cid.as_str(), ": ");
                words.append(reason.as_str());
                words
            },
            HealthError::CoordinatorElectionFailed(why) => text::join2(
                "coordinator election failed: ",
                why.as_str(),
            ),
            HealthError::ScanFailed(why) => text::join2("scan failed: ", why.as_str()),
            HealthError::NetworkError(why) => text::join2("network error: ", why.as_str()),
        }
    }
}

}
