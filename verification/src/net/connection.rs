//! Handlers of incoming messages.

use crate::types::node_id::NodeId;
use crate::types::wire::WireMessage;
use vstd::prelude::*;

verus! {

/// A handler that drops every message and never replies.
pub struct NullHandler;

impl NullHandler {
    /// Drops the message.
    pub fn handle_message(&self, from: NodeId, msg: WireMessage) -> (reply: Option<WireMessage>)
        ensures
            reply is None,
    {
        None
    }
}

}
