//! Errors of the network layer.

use crate::types::text;
use vstd::prelude::*;
use vstd::string::*;

verus! {

/// Why a network operation failed.
#[derive(Debug, PartialEq, Eq)]
pub enum NetError {
    /// No connection to a peer.
    ConnectionFailed { peer: String, reason: String },
    /// No answer in time.
    Timeout { millis: u64 },
    /// A peer that nothing is known of.
    PeerNotFound(String),
    /// A message that breaks the protocol.
    ProtocolError(String),
    /// No bootstrap peer could be reached.
    BootstrapFailed(String),
    /// A message that could not be written or read.
    SerializationError(String),
    /// A stream or socket failed.
    Io(String),
}

impl NetError {
    /// The error in words.
    pub open spec fn words(&self) -> Seq<char> {
        match self {
            NetError::ConnectionFailed { peer, reason } => "connection failed to peer "@ + peer@
                + ": "@ + reason@,
            NetError::Timeout { millis } => "network operation timed out after "@ + text::decimal(
                *millis as nat,
            ) + "ms"@,
            NetError::PeerNotFound(peer) => "peer not found: "@ + peer@,
            NetError::ProtocolError(why) => "protocol error: "@ + why@,
            NetError::BootstrapFailed(why) => "bootstrap failed: "@ + why@,
            NetError::SerializationError(why) => "serialization error: "@ + why@,
            NetError::Io(why) => "I/O error: "@ + why@,
        }
    }

    /// The error in words.
    pub fn message(&self) -> (words: String)
        ensures
            words@ == self.words(),
    {
        match self {
            NetError::ConnectionFailed { peer, reason } => {
                let mut words = text::join3("connection failed to peer ", peer.as_str(), ": ");
                words.append(reason.as_str());
                words
            },
            NetError::Timeout { millis } => text::with_number(
                "network operation timed out after ",
                *millis,
                "ms",
            ),
            NetError::PeerNotFound(peer) => text::join2("peer not found: ", peer.as_str()),
            NetError::ProtocolError(why) => text::join2("protocol error: ", why.as_str()),
            NetError::BootstrapFailed(why) => text::join2("bootstrap failed: ", why.as_str()),
            NetError::SerializationError(why) => text::join2("serialization error: ", why.as_str()),
            NetError::Io(why) => text::join2("I/O error: ", why.as_str()),
        }
    }
}

}
