//! Errors of the object store.

use vstd::prelude::*;
use vstd::string::*;

use crate::types::text;

verus! {

/// Why an operation on the store failed.
#[derive(Debug, PartialEq, Eq)]
pub enum ObjError {
    /// The bytes stored under an identifier do not hash to it.
    IntegrityViolation { cid: String, msg: String },
    /// There is no object under an identifier.
    NotFound { cid: String },
    /// The file system failed.
    IoError(String),
    /// The file system is full.
    StoreFull,
    /// A text that is no identifier.
    InvalidCid { value: String, reason: String },
}

impl ObjError {
    /// The error in words.
    pub open spec fn words(&self) -> Seq<char> {
        match self {
            ObjError::IntegrityViolation { cid, msg } => "integrity violation for CID "@ + cid@
                + ": "@ + msg@,
            ObjError::NotFound { cid } => "object not found: "@ + cid@,
            ObjError::IoError(why) => "I/O error: "@ + why@,
            ObjError::StoreFull => "store is full — no space left on device"@,
            ObjError::InvalidCid { value, reason } => "invalid CID '"@ + value@ + "': "@ + reason@,
        }
    }

    /// The error in words.
    pub fn message(&self) -> (words: String)
        ensures
            words@ == self.words(),
    {
        match self {
            ObjError::IntegrityViolation { cid, msg } => {
                let mut words = text::join3("integrity violation for CID ", cid.as_str(), ": ");
                words.append(msg.as_str());
                words
            },
            ObjError::NotFound { cid } => text::join2("object not found: ", cid.as_str()),
            ObjError::IoError(why) => text::join2("I/O error: ", why.as_str()),
            ObjError::StoreFull => String::from_str("store is full — no space left on device"),
            ObjError::InvalidCid { value, reason } => {
                let mut words = text::join3("invalid CID '", value.as_str(), "': ");
                words.append(reason.as_str());
                words
            },
        }
    }
}

}
