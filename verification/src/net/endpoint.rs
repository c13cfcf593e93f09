//! Decisions of the endpoint: which protocol a connection speaks, what becomes of what
//! arrives on it, and how a node joins the network.

use crate::net::error::NetError;
use crate::net::pool::ConnectionPool;
use crate::net::pool::PooledConnection;
use crate::net::swim;
use crate::net::swim::SwimMembership;
use crate::outside::hexadecimal;
use crate::types::node_id::NodeId;
use crate::types::text;
use crate::types::wire::WireMessage;
use vstd::prelude::*;
use vstd::string::*;

verus! {

/// The protocol name `craftec/0.1`, for messages between nodes.
pub const ALPN_CRAFTEC: [u8; 11] = [0x63, 0x72, 0x61, 0x66, 0x74, 0x65, 0x63, 0x2f, 0x30, 0x2e, 0x31];

/// The protocol name `craftec-swim/0.1`, for membership.
pub const ALPN_SWIM: [u8; 16] = [
    0x63, 0x72, 0x61, 0x66, 0x74, 0x65, 0x63, 0x2d, 0x73, 0x77, 0x69, 0x6d, 0x2f, 0x30, 0x2e, 0x31,
];

/// The protocol name `/craftec/rpc/1`, for clients.
pub const ALPN_RPC: [u8; 14] = [0x2f, 0x63, 0x72, 0x61, 0x66, 0x74, 0x65, 0x63, 0x2f, 0x72, 0x70, 0x63, 0x2f, 0x31];

/// How many requests of one client connection run at a time.
pub const MAX_CONCURRENT_RPC_STREAMS: usize = 16;

/// Milliseconds after which reading from a stream is given up.
pub const STREAM_READ_TIMEOUT: u64 = 30_000;

/// The largest message, in bytes.
pub const MAX_MESSAGE_BYTES: usize = 4_194_304;

/// The largest message on a membership connection, in bytes.
pub const MAX_SWIM_BYTES: usize = 65_536;

/// What becomes of an incoming connection.
#[derive(Clone, Copy, Debug, PartialEq, Eq, Structural)]
pub enum Route {
    /// Messages between nodes; the connection is kept for sending.
    Node,
    /// Membership messages.
    Swim,
    /// Requests of a client.
    Rpc,
    /// The connection is dropped.
    Drop,
}

/// The route for a protocol name.
pub open spec fn route_for(alpn: Seq<u8>, has_rpc: bool) -> Route {
    if alpn == ALPN_CRAFTEC@ {
        Route::Node
    } else if alpn == ALPN_SWIM@ {
        Route::Swim
    } else if alpn == ALPN_RPC@ && has_rpc {
        Route::Rpc
    } else {
        Route::Drop
    }
}

fn same_slice(a: &[u8], b: &[u8]) -> (same: bool)
    ensures
        same == (a@ == b@),
{
    if a.len() != b.len() {
        return false;
    }
    let mut i: usize = 0;
    while i < a.len()
        invariant
            i <= a@.len(),
            a@.len() == b@.len(),
            forall|j: int| 0 <= j < i ==> a@[j] == b@[j],
        decreases a@.len() - i,
    {
        if a[i] != b[i] {
            return false;
        }
        i = i + 1;
    }
    assert(a@ =~= b@);
    true
}

/// Decides by its protocol name what becomes of a connection. Requests of clients are taken
/// only where a handler for them is registered.
pub fn route(alpn: &[u8], has_rpc: bool) -> (route: Route)
    ensures
        route == route_for(alpn@, has_rpc),
{
    if same_slice(alpn, ALPN_CRAFTEC.as_slice()) {
        Route::Node
    } else if same_slice(alpn, ALPN_SWIM.as_slice()) {
        Route::Swim
    } else if same_slice(alpn, ALPN_RPC.as_slice()) && has_rpc {
        Route::Rpc
    } else {
        Route::Drop
    }
}

/// The three protocol names differ.
pub proof fn lemma_alpn_distinct()
    ensures
        ALPN_CRAFTEC@ != ALPN_SWIM@,
        ALPN_CRAFTEC@ != ALPN_RPC@,
        ALPN_SWIM@ != ALPN_RPC@,
{
    assert(ALPN_CRAFTEC@.len() == 11 && ALPN_SWIM@.len() == 16 && ALPN_RPC@.len() == 14);
}

/// Where a message stream comes from.
#[derive(Clone, Copy, Debug, PartialEq, Eq, Structural)]
pub enum StreamKind {
    /// A connection that another node opened for messages.
    Node,
    /// A connection that another node opened for membership.
    Swim,
    /// A connection that this node opened.
    Outbound,
}

/// What happened on a connection.
pub enum StreamEvent {
    /// The connection gives no more streams.
    Closed,
    /// Reading a stream failed.
    ReadFailed,
    /// Reading a stream took too long.
    TimedOut,
    /// What was read is no message.
    Undecodable,
    /// A message arrived; `clock_ok` tells whether its time stamp was acceptable.
    Received { msg: WireMessage, clock_ok: bool },
    /// An answer could not be sent.
    ReplyFailed,
}

/// What to do next on a connection.
pub enum StreamAction {
    /// Give the connection up.
    Stop,
    /// Wait for the next stream.
    Next,
    /// Hand the message to the membership.
    Membership(WireMessage),
    /// Hand the message to the node's handler.
    Handle(WireMessage),
}

/// What to do next on a connection, after an event.
pub open spec fn stream_action(kind: StreamKind, event: StreamEvent) -> StreamAction {
    match event {
        StreamEvent::Closed => StreamAction::Stop,
        StreamEvent::ReadFailed => StreamAction::Stop,
        StreamEvent::ReplyFailed => StreamAction::Stop,
        StreamEvent::TimedOut => StreamAction::Next,
        StreamEvent::Undecodable => StreamAction::Next,
        StreamEvent::Received { msg, clock_ok } => if !clock_ok && kind != StreamKind::Outbound {
            StreamAction::Next
        } else if msg.is_membership() || kind == StreamKind::Swim {
            StreamAction::Membership(msg)
        } else if kind == StreamKind::Node {
            StreamAction::Handle(msg)
        } else {
            StreamAction::Next
        },
    }
}

/// Decides what to do next on a connection. A message with an unacceptable time stamp is
/// dropped, except on connections that this node opened.
pub fn on_stream_event(kind: StreamKind, event: StreamEvent) -> (action: StreamAction)
    ensures
        action == stream_action(kind, event),
{
    match event {
        StreamEvent::Closed => StreamAction::Stop,
        StreamEvent::ReadFailed => StreamAction::Stop,
        StreamEvent::ReplyFailed => StreamAction::Stop,
        StreamEvent::TimedOut => StreamAction::Next,
        StreamEvent::Undecodable => StreamAction::Next,
        StreamEvent::Received { msg, clock_ok } => {
            if !clock_ok && kind != StreamKind::Outbound {
                StreamAction::Next
            } else if msg.is_swim() || kind == StreamKind::Swim {
                StreamAction::Membership(msg)
            } else if kind == StreamKind::Node {
                StreamAction::Handle(msg)
            } else {
                StreamAction::Next
            }
        },
    }
}

/// The beliefs after a membership message from a connection, and the reply.
pub open spec fn swim_exchange(b: swim::Beliefs, msg: WireMessage, now: u64) -> (
    swim::Beliefs,
    Option<WireMessage>,
) {
    match msg {
        WireMessage::SwimPingAck { from, incarnation, .. } => (
            swim::after_alive(b, from@, incarnation),
            None,
        ),
        WireMessage::SwimPing { from, nonce, piggyback } => {
            let met = swim::after_alive(b, from@, 0);
            let next = swim::after_messages(met, piggyback@, piggyback@.len(), now).0;
            (
                next,
                Some(
                    WireMessage::SwimPingAck {
                        from: next.local,
                        nonce,
                        incarnation: next.incarnation,
                    },
                ),
            )
        },
        WireMessage::SwimAlive { node_id, incarnation } => (
            swim::after_alive(b, node_id@, incarnation),
            None,
        ),
        WireMessage::SwimSuspect { node_id, incarnation, .. } => (
            swim::after_suspect(b, node_id@, incarnation, now),
            None,
        ),
        WireMessage::SwimDead { node_id, incarnation, .. } => (
            swim::after_dead(b, node_id@, incarnation),
            None,
        ),
        WireMessage::SwimJoin { node_id, .. } => {
            let next = swim::after_alive(b, node_id@, 0);
            (next, Some(swim::own_alive(next)))
        },
        _ => (b, None),
    }
}

/// Takes in one membership message and returns the one reply it calls for, if any: a probe
/// is acknowledged, a joining node is told of this one, and nothing else is answered.
pub fn handle_swim_msg(msg: &WireMessage, membership: &mut SwimMembership, now: u64) -> (reply:
    Option<WireMessage>)
    requires
        old(membership).wf(),
    ensures
        final(membership).wf(),
        final(membership).same_settings(old(membership)),
        (final(membership).beliefs(), reply) == swim_exchange(
            old(membership).beliefs(),
            *msg,
            now,
        ),
{
    match msg {
        WireMessage::SwimPingAck { from, incarnation, .. } => {
            membership.mark_alive(from, *incarnation);
            None
        },
        WireMessage::SwimPing { from, nonce, piggyback } => {
            membership.mark_alive(from, 0);
            let ghost met = membership.beliefs();
            let mut i: usize = 0;
            while i < piggyback.len()
                invariant
                    i <= piggyback@.len(),
                    membership.wf(),
                    membership.same_settings(old(membership)),
                    membership.beliefs() == swim::after_messages(
                        met,
                        piggyback@,
                        i as nat,
                        now,
                    ).0,
                decreases piggyback@.len() - i,
            {
                membership.handle_message(&piggyback[i], now);
                i = i + 1;
            }
            Some(
                WireMessage::SwimPingAck {
                    from: *membership.node_id(),
                    nonce: *nonce,
                    incarnation: membership.current_incarnation(),
                },
            )
        },
        WireMessage::SwimAlive { node_id, incarnation } => {
            membership.mark_alive(node_id, *incarnation);
            None
        },
        WireMessage::SwimSuspect { node_id, incarnation, .. } => {
            membership.mark_suspect(node_id, *incarnation, now);
            None
        },
        WireMessage::SwimDead { node_id, incarnation, .. } => {
            membership.mark_dead(node_id, *incarnation);
            None
        },
        WireMessage::SwimJoin { node_id, .. } => {
            membership.mark_alive(node_id, 0);
            Some(
                WireMessage::SwimAlive {
                    node_id: *membership.node_id(),
                    incarnation: membership.current_incarnation(),
                },
            )
        },
        _ => None,
    }
}

/// A probe is always acknowledged under its own nonce, and nothing but a probe or a request
/// to join is answered: no exchange of replies goes on for ever.
pub proof fn lemma_no_amplification(b: swim::Beliefs, msg: WireMessage, now: u64)
    ensures
        swim_exchange(b, msg, now).1 matches Some(reply) ==> {
            &&& msg is SwimPing || msg is SwimJoin
            &&& forall|c: swim::Beliefs, t: u64| (#[trigger] swim_exchange(c, reply, t)).1 is None
        },
        msg matches WireMessage::SwimPing { nonce, .. } ==> (swim_exchange(b, msg, now).1 matches Some(
            WireMessage::SwimPingAck { nonce: echoed, .. },
        ) && echoed == nonce),
{
}

/// A configured bootstrap peer.
pub enum PeerAddress {
    /// `<node id in hexadecimal>@<address>`: a node and where to reach it.
    Direct { node_id: NodeId, address: String },
    /// A text without `@`, taken for a public key.
    Key(String),
    /// A text with `@` behind something that is no node id.
    Malformed,
}

/// The place of the first `@` from place `i` on; the length where there is none.
pub open spec fn at_sign(text: Seq<char>, i: int) -> int
    decreases text.len() - i,
{
    if i < 0 || i >= text.len() || text[i] == '@' {
        i
    } else {
        at_sign(text, i + 1)
    }
}

/// Whether the text is a node id of 32 bytes in hexadecimal.
pub open spec fn is_node_hex(text: Seq<char>) -> bool {
    hexadecimal::is_hex_text(text) && hexadecimal::hex_bytes(text).len() == 32
}

/// Reads one configured peer.
pub fn parse_peer(peer: &str) -> (address: PeerAddress)
    ensures
        ({
            let at = at_sign(peer@, 0);
            match address {
                PeerAddress::Key(key) => at >= peer@.len() && key@ == peer@,
                PeerAddress::Malformed => at < peer@.len() && !is_node_hex(peer@.take(at)),
                PeerAddress::Direct { node_id, address } => {
                    &&& at < peer@.len()
                    &&& is_node_hex(peer@.take(at))
                    &&& node_id@ == hexadecimal::hex_bytes(peer@.take(at))
                    &&& address@ == peer@.skip(at + 1)
                },
            }
        }),
{
    let len: usize = peer.unicode_len();
    let mut at: usize = 0;
    while at < len && peer.get_char(at) != '@'
        invariant
            at <= len,
            len == peer@.len(),
            at_sign(peer@, 0) == at_sign(peer@, at as int),
        decreases len - at,
    {
        at = at + 1;
    }
    if at == len {
        return PeerAddress::Key(String::from_str(peer));
    }
    let id_text = peer.substring_char(0, at);
    let rest = peer.substring_char(at + 1, len);
    proof {
        assert(id_text@ =~= peer@.take(at as int));
        assert(rest@ =~= peer@.skip(at as int + 1));
    }
    match parse_node_hex(id_text) {
        Some(node_id) => PeerAddress::Direct { node_id, address: String::from_str(rest) },
        None => PeerAddress::Malformed,
    }
}

/// Reads a node id of 32 bytes in hexadecimal.
pub fn parse_node_hex(id_text: &str) -> (id: Option<NodeId>)
    ensures
        id is Some <==> is_node_hex(id_text@),
        id matches Some(node_id) ==> node_id@ == hexadecimal::hex_bytes(id_text@),
{
    match hexadecimal::hex_decode(id_text) {
        None => None,
        Some(bytes) => {
            if bytes.len() != 32 {
                return None;
            }
            let mut id: [u8; 32] = [0u8; 32];
            let mut i: usize = 0;
            while i < 32
                invariant
                    i <= 32,
                    bytes@.len() == 32,
                    forall|j: int| 0 <= j < i ==> id@[j] == bytes@[j],
                decreases 32 - i,
            {
                id[i] = bytes[i];
                i = i + 1;
            }
            assert(id@ =~= bytes@);
            Some(NodeId::from_bytes(id))
        },
    }
}

/// A text that was written for a node and an address is read back.
pub proof fn lemma_peer_round_trip(id: Seq<u8>, address: Seq<char>)
    requires
        id.len() == 32,
    ensures
        ({
            let text = hexadecimal::hex_text(id) + seq!['@'] + address;
            let at = at_sign(text, 0);
            &&& at == 64
            &&& is_node_hex(text.take(at))
            &&& hexadecimal::hex_bytes(text.take(at)) == id
            &&& text.skip(at + 1) == address
        }),
{
    let hex = hexadecimal::hex_text(id);
    let text = hex + seq!['@'] + address;
    hexadecimal::lemma_hex_round_trip(id);
    assert(text[64] == '@');
    assert forall|i: int| 0 <= i < 64 implies #[trigger] text[i] != '@' by {
        assert(text[i] == hex[i]);
        assert(hexadecimal::is_hex_char(hex[i]));
    }
    lemma_at_sign(text, 0, 64);
    assert(text.take(64) =~= hex);
    assert(text.skip(65) =~= address);
}

proof fn lemma_at_sign(text: Seq<char>, i: int, at: int)
    requires
        0 <= i <= at < text.len(),
        text[at] == '@',
        forall|j: int| i <= j < at ==> #[trigger] text[j] != '@',
    ensures
        at_sign(text, i) == at,
    decreases at - i,
{
    if i < at {
        lemma_at_sign(text, i + 1, at);
    }
}

/// Joining the network: works through the configured peers and counts those joined.
pub struct Bootstrap {
    total: usize,
    joined: usize,
}

impl Bootstrap {
    /// How many peers are configured.
    pub closed spec fn peers(&self) -> nat {
        self.total as nat
    }

    /// How many peers were joined.
    pub closed spec fn reached(&self) -> nat {
        self.joined as nat
    }

    /// Begins with a number of configured peers.
    pub fn start(total: usize) -> (bootstrap: Bootstrap)
        ensures
            bootstrap.peers() == total,
            bootstrap.reached() == 0,
    {
        Bootstrap { total, joined: 0 }
    }

    /// The message with which a node asks to join.
    pub fn join_message(node_id: &NodeId) -> (msg: WireMessage)
        ensures
            msg == (WireMessage::SwimJoin { node_id: *node_id, listen_port: 0 }),
    {
        WireMessage::SwimJoin { node_id: *node_id, listen_port: 0 }
    }

    /// Takes note of one peer: it counts where it was connected and the request to join was
    /// sent.
    pub fn record(&mut self, connected: bool, sent: bool)
        requires
            old(self).reached() < old(self).peers(),
        ensures
            final(self).peers() == old(self).peers(),
            final(self).reached() == old(self).reached() + if connected && sent {
                1int
            } else {
                0int
            },
    {
        if connected && sent {
            self.joined = self.joined + 1;
        }
    }

    /// The outcome: a node without configured peers runs alone; else it must have joined
    /// one.
    pub fn finish(&self) -> (outcome: Result<usize, NetError>)
        ensures
            match outcome {
                Ok(joined) => joined == self.reached() && (self.peers() == 0 || self.reached() > 0),
                Err(NetError::BootstrapFailed(why)) => self.peers() > 0 && self.reached() == 0
                    && why@ == "could not reach any of "@ + text::decimal(self.peers())
                    + " configured bootstrap peers"@,
                Err(_) => false,
            },
    {
        if self.total > 0 && self.joined == 0 {
            return Err(
                NetError::BootstrapFailed(
                    text::with_number(
                        "could not reach any of ",
                        self.total as u64,
                        " configured bootstrap peers",
                    ),
                ),
            );
        }
        Ok(self.joined)
    }
}

/// Whether anything is known of a peer: it has an entry in the membership, or there is a
/// connection to it.
pub open spec fn is_known(
    peer: Seq<u8>,
    members: Map<Seq<u8>, swim::MemberState>,
    connections: Map<Seq<u8>, PooledConnection>,
) -> bool {
    members.contains_key(peer) || connections.contains_key(peer)
}

/// Whether an error tells that nothing is known of a peer.
pub open spec fn tells_unknown(e: NetError, peer: NodeId) -> bool {
    e matches NetError::PeerNotFound(name) && name@ == hexadecimal::hex_text(peer@)
}

/// Checks that something is known of a peer.
pub fn peer_known(peer: &NodeId, swim: &SwimMembership, pool: &ConnectionPool) -> (r: Result<
    (),
    NetError,
>)
    requires
        swim.wf(),
        pool.wf(),
    ensures
        r is Err <==> !swim.beliefs().members.contains_key(peer@)
            && !pool.connections().contains_key(peer@),
        r matches Err(e) ==> tells_unknown(e, *peer),
{
    if swim.is_member(peer) || pool.contains(peer) {
        Ok(())
    } else {
        Err(NetError::PeerNotFound(peer.to_hex()))
    }
}

/// A message that is to be sent.
#[derive(Debug)]
pub struct Sending {
    /// The connection to use; where there is none, the peer is to be dialled.
    pub over: Option<u64>,
    /// The bytes to send.
    pub bytes: Vec<u8>,
}

/// Begins to send a message to a peer, given the encoded message: over the connection of
/// the pool, which counts as used now, or over a fresh one. A peer of which nothing is known
/// is neither dialled nor sent anything.
pub fn send_message(
    peer: &NodeId,
    encoded: Result<Vec<u8>, String>,
    swim: &SwimMembership,
    pool: &mut ConnectionPool,
    now: u64,
) -> (result: Result<Sending, NetError>)
    requires
        swim.wf(),
        old(pool).wf(),
    ensures
        final(pool).wf(),
        final(pool).limit() == old(pool).limit(),
        final(pool).order() == old(pool).order(),
        match encoded {
            Err(why) => {
                &&& result matches Err(NetError::SerializationError(e)) && e@
                    == "encode_framed failed: "@ + why@
                &&& final(pool).connections() == old(pool).connections()
            },
            Ok(bytes) => if !is_known(
                peer@,
                swim.beliefs().members,
                old(pool).connections(),
            ) {
                &&& result matches Err(e) && tells_unknown(e, *peer)
                &&& final(pool).connections() == old(pool).connections()
            } else {
                &&& result matches Ok(sending)
                &&& sending.bytes == bytes
                &&& match sending.over {
                    None => {
                        &&& !old(pool).connections().contains_key(peer@)
                        &&& final(pool).connections() == old(pool).connections()
                    },
                    Some(connection) => {
                        &&& old(pool).connections().contains_key(peer@)
                        &&& connection == old(pool).connections()[peer@].connection
                        &&& final(pool).connections() == old(pool).connections().insert(
                            peer@,
                            PooledConnection {
                                last_used: now,
                                ..old(pool).connections()[peer@]
                            },
                        )
                    },
                }
            },
        },
{
    let bytes = match encoded {
        Ok(bytes) => bytes,
        Err(why) => {
            return Err(
                NetError::SerializationError(text::join2("encode_framed failed: ", why.as_str())),
            );
        },
    };
    match peer_known(peer, swim, pool) {
        Ok(()) => {},
        Err(e) => {
            return Err(e);
        },
    }
    Ok(Sending { over: pool.get(peer, now), bytes })
}

/// What came of sending a message that was to be sent.
pub enum SendOutcome {
    /// The peer could not be dialled.
    NotConnected(String),
    /// No stream could be opened.
    NotOpened(String),
    /// The message could not be written.
    NotWritten(String),
    /// The stream could not be finished.
    NotFinished(String),
    /// The message was sent.
    Sent,
}

impl SendOutcome {
    /// Why the message was not sent, in words; none where it was.
    pub open spec fn reason(&self) -> Option<Seq<char>> {
        match self {
            SendOutcome::NotConnected(why) => Some(why@),
            SendOutcome::NotOpened(why) => Some("open_uni failed: "@ + why@),
            SendOutcome::NotWritten(why) => Some("write_all failed: "@ + why@),
            SendOutcome::NotFinished(why) => Some("stream finish failed: "@ + why@),
            SendOutcome::Sent => None,
        }
    }
}

/// Whether an error tells that a connection to a peer failed for a reason.
pub open spec fn tells_failure(e: NetError, peer: NodeId, why: Seq<char>) -> bool {
    e matches NetError::ConnectionFailed { peer: name, reason } && name@ == hexadecimal::hex_text(
        peer@,
    ) && reason@ == why
}

/// Finishes sending a message to a peer.
pub fn finish_send(peer: &NodeId, outcome: SendOutcome) -> (result: Result<(), NetError>)
    ensures
        match outcome.reason() {
            Some(why) => result matches Err(e) && tells_failure(e, *peer, why),
            None => result is Ok,
        },
{
    let reason = match outcome {
        SendOutcome::NotConnected(why) => why,
        SendOutcome::NotOpened(why) => text::join2("open_uni failed: ", why.as_str()),
        SendOutcome::NotWritten(why) => text::join2("write_all failed: ", why.as_str()),
        SendOutcome::NotFinished(why) => text::join2("stream finish failed: ", why.as_str()),
        SendOutcome::Sent => {
            return Ok(());
        },
    };
    Err(NetError::ConnectionFailed { peer: peer.to_hex(), reason })
}

}
