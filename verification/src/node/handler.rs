//! What a node does about a message of another node.

use crate::crypto::hommac;
use crate::crypto::hommac::HomMacKey;
use crate::health::tracker;
use crate::health::tracker::PieceHolder;
use crate::health::tracker::PieceTracker;
use crate::health::tracker::TrackerView;
use crate::net::dht;
use crate::net::dht::DhtProviders;
use crate::net::pending;
use crate::net::pending::PendingEntry;
use crate::net::pending::PendingFetches;
use crate::node::laws as node_laws;
use crate::obj::error::ObjError;
use crate::outside::digest;
use crate::rlnc::encoder;
use crate::rlnc::field;
use crate::rlnc::laws;
use crate::rlnc::linear;
use crate::sql::database::SignedWrite;
use crate::types::cid::Cid;
use crate::types::node_id::NodeId;
use crate::types::piece;
use crate::types::piece::CodedPiece;
use crate::types::wire::WireMessage;
use vstd::prelude::*;

verus! {

/// What is left to be done about a message.
pub enum Handled {
    /// To send a reply, if there is one.
    Reply(Option<WireMessage>),
    /// To fetch an object, for a reply with a number.
    Fetch { cid: Cid, request_id: u64 },
    /// To hand pieces to those who wait for them, by their tickets.
    Deliver(Vec<(u64, CodedPiece)>),
    /// To read a write, and to execute it.
    Write { payload: Vec<u8>, signature: [u8; 64], writer: NodeId },
}

/// Those who wait once some pieces were handed out, and to whom each piece went.
pub open spec fn handed_out(
    waiting: Map<Seq<u8>, Seq<PendingEntry>>,
    pieces: Seq<CodedPiece>,
) -> (Map<Seq<u8>, Seq<PendingEntry>>, Seq<(u64, piece::PieceView)>)
    decreases pieces.len(),
{
    if pieces.len() == 0 {
        (waiting, Seq::empty())
    } else {
        let (rest, done) = handed_out(waiting, pieces.drop_last());
        let p = pieces.last();
        (
            rest.remove(p.cid@),
            done + pending::entries_of(rest, p.cid@).map_values(
                |e: PendingEntry| (e.ticket, p@),
            ),
        )
    }
}

/// The deliveries of a list.
pub open spec fn delivery_views(list: Seq<(u64, CodedPiece)>) -> Seq<(u64, piece::PieceView)> {
    list.map_values(|d: (u64, CodedPiece)| (d.0, d.1@))
}

/// The holders after a report: the sender with the pieces that it has, if it has any.
pub open spec fn after_report(
    view: TrackerView,
    from: NodeId,
    cid: Seq<u8>,
    available: u32,
    now: u64,
) -> TrackerView {
    if available == 0 {
        view
    } else {
        TrackerView {
            holders: view.holders.insert(
                cid,
                tracker::recorded(
                    tracker::holders_of(view, cid),
                    PieceHolder { node_id: from, piece_count: available, last_seen: now },
                ),
            ),
            ..view
        }
    }
}

/// Handles messages.
pub struct NodeMessageHandler;

impl NodeMessageHandler {
    /// Handles a message of a node: records what it tells, and says what is left to be done.
    pub fn handle_message(
        from: &NodeId,
        msg: WireMessage,
        tracker: &mut PieceTracker,
        dht: &mut DhtProviders,
        pending: &mut PendingFetches,
        now: u64,
    ) -> (handled: Handled)
        requires
            old(tracker).wf(),
            old(dht).wf(),
            old(pending).wf(),
        ensures
            final(tracker).wf(),
            final(dht).wf(),
            final(pending).wf(),
            final(pending).next() == old(pending).next(),
            final(tracker)@ == (match msg {
                WireMessage::HealthReport { cid, available_pieces, .. } => after_report(
                    old(tracker)@,
                    *from,
                    cid@,
                    available_pieces,
                    now,
                ),
                _ => old(tracker)@,
            }),
            msg matches WireMessage::HealthReport { cid, available_pieces, .. } ==> (
            available_pieces > 0 ==> exists|i: int|
                0 <= i < final(tracker)@.holders[cid@].len() && {
                    let h = #[trigger] final(tracker)@.holders[cid@][i];
                    h.node_id@ == from@ && h.piece_count >= available_pieces && h.last_seen == now
                }),
            final(dht).providers() == (match msg {
                WireMessage::ProviderAnnounce { cid, node_id } => old(dht).providers().insert(
                    cid@,
                    dht::providers_of(old(dht).providers(), cid@).insert(node_id@),
                ),
                _ => old(dht).providers(),
            }),
            final(pending).waiting() == (match msg {
                WireMessage::PieceResponse { pieces, .. } => handed_out(
                    old(pending).waiting(),
                    pieces@,
                ).0,
                _ => old(pending).waiting(),
            }),
            match msg {
                WireMessage::Ping { nonce } => handled == Handled::Reply(
                    Some(WireMessage::Pong { nonce }),
                ),
                WireMessage::PieceRequest { cid, request_id, .. } => handled == (Handled::Fetch {
                    cid,
                    request_id,
                }),
                WireMessage::PieceResponse { pieces, .. } => handled matches Handled::Deliver(list)
                    && delivery_views(list@) == handed_out(old(pending).waiting(), pieces@).1,
                WireMessage::SignedWrite { payload, signature, writer, .. } => handled == (
                Handled::Write { payload, signature, writer }),
                _ => handled == Handled::Reply(None),
            },
    {
        match msg {
            WireMessage::Ping { nonce } => Handled::Reply(Some(WireMessage::Pong { nonce })),
            WireMessage::PieceRequest { cid, request_id, .. } => Handled::Fetch {
                cid,
                request_id,
            },
            WireMessage::PieceResponse { pieces, .. } => Handled::Deliver(
                deliver(pending, &pieces),
            ),
            WireMessage::ProviderAnnounce { cid, node_id } => {
                dht.announce_provider(&cid, &node_id);
                Handled::Reply(None)
            },
            WireMessage::HealthReport { cid, available_pieces, .. } => {
                if available_pieces > 0 {
                    let news = PieceHolder {
                        node_id: *from,
                        piece_count: available_pieces,
                        last_seen: now,
                    };
                    tracker.record_piece(&cid, news);
                    proof {
                        node_laws::lemma_report(
                            old(tracker)@,
                            *from,
                            cid@,
                            available_pieces,
                            now,
                            cid@,
                            news,
                        );
                    }
                }
                Handled::Reply(None)
            },
            WireMessage::SignedWrite { payload, signature, writer, .. } => Handled::Write {
                payload,
                signature,
                writer,
            },
            _ => Handled::Reply(None),
        }
    }

    /// The reply to a request for pieces, given what came of fetching the object: the object
    /// as its only piece, no piece where there is no object, and no reply where the store
    /// failed.
    pub fn piece_reply(
        cid: Cid,
        request_id: u64,
        fetched: Result<Option<Vec<u8>>, ObjError>,
    ) -> (reply: Option<WireMessage>)
        ensures
            match fetched {
                Ok(Some(data)) => {
                    &&& reply matches Some(WireMessage::PieceResponse { pieces, request_id: id })
                    &&& id == request_id
                    &&& pieces@.len() == 1
                    &&& pieces@[0]@ == whole_piece(cid@, data@)
                },
                Ok(None) => {
                    &&& reply matches Some(WireMessage::PieceResponse { pieces, request_id: id })
                    &&& id == request_id
                    &&& pieces@.len() == 0
                },
                Err(_) => reply is None,
            },
    {
        match fetched {
            Ok(Some(data)) => {
                let mut vector: Vec<u8> = Vec::new();
                vector.push(1);
                proof {
                    assert(vector@ =~= seq![1u8]);
                }
                let key = HomMacKey::from_bytes(*cid.as_bytes());
                let tag = hommac::compute_tag(&key, vector.as_slice(), data.as_slice());
                let mut pieces: Vec<CodedPiece> = Vec::new();
                pieces.push(CodedPiece::new(cid, vector, data, tag));
                Some(WireMessage::PieceResponse { pieces, request_id })
            },
            Ok(None) => Some(WireMessage::PieceResponse { pieces: Vec::new(), request_id }),
            Err(_) => None,
        }
    }

    /// A write as it is executed: with the writer and the signature of the message that
    /// brought it.
    pub fn adopt_write(write: SignedWrite, writer: NodeId, signature: [u8; 64]) -> (adopted:
        SignedWrite)
        ensures
            adopted == (SignedWrite { writer, signature, ..write }),
    {
        SignedWrite { writer, sql: write.sql, expected_root: write.expected_root, signature }
    }
}

/// A content as its only piece, of a generation of one.
pub open spec fn whole_piece(cid: Seq<u8>, data: Seq<u8>) -> piece::PieceView {
    piece::piece_of(cid, seq![1u8], data, hommac::piece_tag(cid, seq![1u8], data))
}

/// The piece that stands for a whole content is a piece of it, of a generation of one, so
/// that it alone gives back the content. An empty content is left out: its source block has
/// a byte, which the piece has not.
pub proof fn lemma_whole_piece(data: Seq<u8>)
    requires
        data.len() > 0,
    ensures
        laws::is_piece_of(whole_piece(digest::blake3_digest(data), data), data, 1),
{
    let blocks = encoder::source_blocks(data, 1);
    let c = seq![1u8];
    assert(encoder::block_len(data.len(), 1) == data.len());
    assert(blocks[0] =~= data);
    assert forall|b: int| 0 <= b < data.len() implies #[trigger] data[b] == linear::dot(
        c,
        linear::column(blocks, b),
    ) by {
        let x = linear::column(blocks, b);
        assert(x.last() == data[b]);
        assert(c.drop_last() =~= Seq::<u8>::empty());
        assert(linear::dot(c.drop_last(), x.drop_last()) == 0);
        field::lemma_mul_one(data[b]);
        field::lemma_add_zero(data[b]);
        let v = data[b];
        assert(0u8 ^ v == v) by (bit_vector);
    }
    assert(data =~= linear::combination(c, blocks, data.len()));
}

fn deliver(pending: &mut PendingFetches, pieces: &Vec<CodedPiece>) -> (list: Vec<(u64, CodedPiece)>)
    requires
        old(pending).wf(),
    ensures
        final(pending).wf(),
        final(pending).next() == old(pending).next(),
        final(pending).waiting() == handed_out(old(pending).waiting(), pieces@).0,
        delivery_views(list@) == handed_out(old(pending).waiting(), pieces@).1,
{
    let ghost before = pending.waiting();
    let mut list: Vec<(u64, CodedPiece)> = Vec::new();
    let mut i: usize = 0;
    proof {
        assert(pieces@.take(0) =~= Seq::<CodedPiece>::empty());
        assert(delivery_views(list@) =~= Seq::<(u64, piece::PieceView)>::empty());
    }
    while i < pieces.len()
        invariant
            i <= pieces@.len(),
            pending.wf(),
            pending.next() == old(pending).next(),
            pending.waiting() == handed_out(before, pieces@.take(i as int)).0,
            delivery_views(list@) == handed_out(before, pieces@.take(i as int)).1,
        decreases pieces@.len() - i,
    {
        let ghost p = pieces@[i as int];
        let ghost rest = pending.waiting();
        let ghost done = list@;
        proof {
            assert(pieces@.take(i + 1).drop_last() =~= pieces@.take(i as int));
            assert(pieces@.take(i + 1).last() == p);
        }
        let mut more = pending.resolve(&pieces[i].cid, pieces[i].clone());
        proof {
            let ghost views = pending::entries_of(rest, p.cid@).map_values(
                |e: PendingEntry| (e.ticket, p@),
            );
            assert(delivery_views(more@) =~= views);
        }
        list.append(&mut more);
        proof {
            assert(delivery_views(list@) =~= handed_out(before, pieces@.take(i + 1)).1);
        }
        i = i + 1;
    }
    proof {
        assert(pieces@.take(i as int) =~= pieces@);
    }
    list
}

}
