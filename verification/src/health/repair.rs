//! Repairs: a fresh piece recoded from local ones, sent to a peer.

use crate::health::coordinator;
use crate::health::coordinator::NaturalSelectionCoordinator;
use crate::health::coordinator::NodeRanking;
use crate::health::error::HealthError;
use crate::health::tracker;
use crate::health::tracker::PieceHolder;
use crate::health::tracker::PieceTracker;
use crate::net::dht;
use crate::outside::hexadecimal;
use crate::outside::random;
use crate::rlnc::engine;
use crate::rlnc::engine::RlncEngine;
use crate::rlnc::engine::RlncMetrics;
use crate::rlnc::error::RlncError;
use crate::rlnc::recoder;
use crate::types::cid::Cid;
use crate::types::node_id::NodeId;
use crate::types::piece;
use crate::types::piece::CodedPiece;
use crate::types::text;
use crate::types::wire::WireMessage;
use vstd::prelude::*;
use vstd::string::*;

verus! {

/// A content with too few pieces.
#[derive(Clone, Copy, Debug, PartialEq, Eq)]
pub enum RepairRequest {
    /// Fewer pieces than it takes to decode.
    Critical { cid: Cid, available: u32, k: u32 },
    /// Fewer pieces than there should be.
    Normal { cid: Cid, available: u32, target: u32 },
}

impl RepairRequest {
    /// The content.
    pub open spec fn content(&self) -> Cid {
        match self {
            RepairRequest::Critical { cid, .. } => *cid,
            RepairRequest::Normal { cid, .. } => *cid,
        }
    }

    /// How many pieces there should be.
    pub open spec fn wanted(&self) -> u32 {
        match self {
            RepairRequest::Critical { k, .. } => *k,
            RepairRequest::Normal { target, .. } => *target,
        }
    }

    /// How many pieces there are.
    pub open spec fn present(&self) -> u32 {
        match self {
            RepairRequest::Critical { available, .. } => *available,
            RepairRequest::Normal { available, .. } => *available,
        }
    }

    /// How many pieces are missing.
    pub open spec fn deficit(&self) -> nat {
        if self.wanted() > self.present() {
            (self.wanted() - self.present()) as nat
        } else {
            0
        }
    }

    /// The content.
    pub fn cid(&self) -> (cid: &Cid)
        ensures
            *cid == self.content(),
    {
        match self {
            RepairRequest::Critical { cid, .. } => cid,
            RepairRequest::Normal { cid, .. } => cid,
        }
    }

    /// How urgent the request is, in a word.
    pub fn severity(&self) -> (label: &'static str)
        ensures
            label@ == (if self is Critical {
                "critical"@
            } else {
                "normal"@
            }),
    {
        match self {
            RepairRequest::Critical { .. } => "critical",
            RepairRequest::Normal { .. } => "normal",
        }
    }

    /// How many pieces there should be.
    pub fn target_count(&self) -> (n: u32)
        ensures
            n == self.wanted(),
    {
        match self {
            RepairRequest::Critical { k, .. } => *k,
            RepairRequest::Normal { target, .. } => *target,
        }
    }

    /// How many pieces there are.
    pub fn available_count(&self) -> (n: u32)
        ensures
            n == self.present(),
    {
        match self {
            RepairRequest::Critical { available, .. } => *available,
            RepairRequest::Normal { available, .. } => *available,
        }
    }
}

/// Tells which pieces of a content are stored.
pub trait PieceCidLookup {
    /// Whether the lookup can be asked.
    spec fn ready(&self) -> bool;

    /// The stored pieces of a content, if any are known.
    spec fn pieces_of(&self, content: Seq<u8>) -> Option<Seq<Cid>>;

    /// The stored pieces of a content, if any are known.
    fn piece_cids(&self, content_cid: &Cid) -> (cids: Option<Vec<Cid>>)
        requires
            self.ready(),
        ensures
            match cids {
                Some(list) => self.pieces_of(content_cid@) == Some(list@),
                None => self.pieces_of(content_cid@) is None,
            },
    ;
}

/// The reputation of every node, as long as none is known.
pub const NEUTRAL_REPUTATION: u64 = 500_000;

/// How many pieces a recoding takes.
pub const RECODE_INPUTS: u32 = 2;

/// The holders of at least two pieces that are alive or this node: those who can repair.
pub open spec fn repairers(
    holders: Seq<PieceHolder>,
    alive: Seq<NodeId>,
    me: Seq<u8>,
) -> Seq<NodeRanking>
    decreases holders.len(),
{
    if holders.len() == 0 {
        Seq::empty()
    } else {
        let front = repairers(holders.drop_last(), alive, me);
        let h = holders.last();
        if h.piece_count >= 2 && (dht::id_set(alive).contains(h.node_id@) || h.node_id@ == me) {
            front.push(
                NodeRanking {
                    node_id: h.node_id,
                    uptime_secs: 0,
                    reputation_score: NEUTRAL_REPUTATION,
                },
            )
        } else {
            front
        }
    }
}

/// What a node does about a request.
#[derive(Clone, Copy, Debug, PartialEq, Eq, Structural)]
pub enum RepairStep {
    /// Nothing: no piece is missing.
    NoDeficit,
    /// Nothing: no one can repair.
    NoRepairers,
    /// Nothing: others are elected.
    NotElected,
    /// Recode a piece.
    Recode,
}

/// Whether a node is among the first `n` of a ranking.
pub open spec fn among_first(order: Seq<NodeRanking>, n: nat, me: Seq<u8>) -> bool {
    exists|i: int| 0 <= i < order.len() && i < n && (#[trigger] order[i]).node_id@ == me
}

/// What a node does about a request: as many repairers as pieces are missing are elected,
/// the best first, and each recodes one piece.
pub open spec fn step_spec(
    request: RepairRequest,
    holders: Seq<PieceHolder>,
    alive: Seq<NodeId>,
    me: Seq<u8>,
) -> RepairStep {
    let able = repairers(holders, alive, me);
    if request.deficit() == 0 {
        RepairStep::NoDeficit
    } else if able.len() == 0 {
        RepairStep::NoRepairers
    } else if among_first(coordinator::ranked(able), request.deficit(), me) {
        RepairStep::Recode
    } else {
        RepairStep::NotElected
    }
}

/// The holders of exactly one piece that are alive, without this node.
pub open spec fn one_piece_peers(
    holders: Seq<PieceHolder>,
    alive: Seq<NodeId>,
    me: Seq<u8>,
) -> Seq<NodeId>
    decreases holders.len(),
{
    if holders.len() == 0 {
        Seq::empty()
    } else {
        let front = one_piece_peers(holders.drop_last(), alive, me);
        let h = holders.last();
        if h.piece_count == 1 && dht::id_set(alive).contains(h.node_id@) && h.node_id@ != me {
            front.push(h.node_id)
        } else {
            front
        }
    }
}

/// The living nodes without this node and, where asked for, without the holders.
pub open spec fn peers(
    alive: Seq<NodeId>,
    holders: Seq<PieceHolder>,
    with_holders: bool,
    me: Seq<u8>,
) -> Seq<NodeId>
    decreases alive.len(),
{
    if alive.len() == 0 {
        Seq::empty()
    } else {
        let front = peers(alive.drop_last(), holders, with_holders, me);
        let id = alive.last();
        if id@ != me && (with_holders || !tracker::has_holder(holders, id@)) {
            front.push(id)
        } else {
            front
        }
    }
}

/// The nodes of which one gets the fresh piece: those with one piece, so that they can
/// recode from then on; if there are none, those without a piece; if there are none, any.
pub open spec fn candidates(
    holders: Seq<PieceHolder>,
    alive: Seq<NodeId>,
    me: Seq<u8>,
) -> Seq<NodeId> {
    if one_piece_peers(holders, alive, me).len() > 0 {
        one_piece_peers(holders, alive, me)
    } else if peers(alive, holders, false, me).len() > 0 {
        peers(alive, holders, false, me)
    } else {
        peers(alive, holders, true, me)
    }
}

/// Whether an error says that a repair failed for a reason.
pub open spec fn failed_because(e: HealthError, cid: Cid, reason: Seq<char>) -> bool {
    e matches HealthError::RepairFailed { cid: name, reason: why } && name@
        == hexadecimal::hex_text(cid@) && why@ == reason
}

/// The counters of an engine after one more recoding.
pub open spec fn one_recode_more(metrics: RlncMetrics) -> RlncMetrics {
    RlncMetrics { recodes: engine::counted(metrics.recodes, 1) as u64, ..metrics }
}

/// Whether an error says that there are too few pieces to recode.
pub open spec fn too_few(e: HealthError, cid: Cid, available: nat) -> bool {
    e matches HealthError::InsufficientPieces { cid: name, k, available: n } && name@
        == hexadecimal::hex_text(cid@) && k == RECODE_INPUTS && n == available
}

/// Repairs contents.
pub struct RepairExecutor {
    node_id: NodeId,
    next_request_id: u64,
}

impl RepairExecutor {
    /// This node.
    pub closed spec fn node(&self) -> NodeId {
        self.node_id
    }

    /// The number of the next message.
    pub closed spec fn next_id(&self) -> u64 {
        self.next_request_id
    }

    /// An executor that has sent nothing.
    pub fn new(node_id: NodeId) -> (executor: RepairExecutor)
        ensures
            executor.node() == node_id,
            executor.next_id() == 0,
    {
        RepairExecutor { node_id, next_request_id: 0 }
    }

    /// What this node does about a request.
    pub fn plan(
        &self,
        request: &RepairRequest,
        tracker: &PieceTracker,
        alive: &Vec<NodeId>,
    ) -> (step: RepairStep)
        requires
            tracker.wf(),
        ensures
            step == step_spec(
                *request,
                tracker::holders_of(tracker@, request.content()@),
                alive@,
                self.node()@,
            ),
    {
        let wanted: u32 = request.target_count();
        let present: u32 = request.available_count();
        if wanted <= present {
            return RepairStep::NoDeficit;
        }
        let deficit: u32 = wanted - present;
        let holders = tracker.get_holders(request.cid());
        let able = able_nodes(&holders, alive, &self.node_id);
        if able.len() == 0 {
            return RepairStep::NoRepairers;
        }
        let ranked = NaturalSelectionCoordinator::rank_providers(able.as_slice());
        let ghost order = coordinator::ranked(able@);
        let mut i: usize = 0;
        while i < ranked.len() && (i as u64) < deficit as u64
            invariant
                i <= ranked@.len(),
                i <= deficit,
                ranked@ == order.map_values(|r: NodeRanking| r.node_id),
                forall|j: int| 0 <= j < i ==> (#[trigger] order[j]).node_id@ != self.node()@,
                deficit == request.deficit(),
                deficit > 0,
                able@.len() > 0,
                order == coordinator::ranked(able@),
                able@ == repairers(
                    tracker::holders_of(tracker@, request.content()@),
                    alive@,
                    self.node()@,
                ),
            decreases ranked@.len() - i,
        {
            if ranked[i] == self.node_id {
                assert(order[i as int].node_id@ == self.node()@);
                return RepairStep::Recode;
            }
            i = i + 1;
        }
        RepairStep::NotElected
    }

    /// Picks the node that gets the fresh piece.
    pub fn select_distribution_target(
        &self,
        cid: &Cid,
        tracker: &PieceTracker,
        alive: &Vec<NodeId>,
    ) -> (result: Result<NodeId, HealthError>)
        requires
            tracker.wf(),
        ensures
            ({
                let able = candidates(
                    tracker::holders_of(tracker@, cid@),
                    alive@,
                    self.node()@,
                );
                match result {
                    Ok(target) => able.contains(target),
                    Err(e) => able.len() == 0 && failed_because(
                        e,
                        *cid,
                        "no candidate peers available for distribution"@,
                    ),
                }
            }),
    {
        let able = self.distribution_candidates(cid, tracker, alive);
        match random::choose_node(able.as_slice()) {
            Some(target) => Ok(target),
            None => Err(
                HealthError::RepairFailed {
                    cid: cid.to_hex(),
                    reason: String::from_str("no candidate peers available for distribution"),
                },
            ),
        }
    }

    /// The nodes of which one gets the fresh piece.
    pub fn distribution_candidates(
        &self,
        cid: &Cid,
        tracker: &PieceTracker,
        alive: &Vec<NodeId>,
    ) -> (able: Vec<NodeId>)
        requires
            tracker.wf(),
        ensures
            able@ == candidates(tracker::holders_of(tracker@, cid@), alive@, self.node()@),
    {
        let holders = tracker.get_holders(cid);
        let with_one = nodes_with_one(&holders, alive, &self.node_id);
        if with_one.len() > 0 {
            return with_one;
        }
        let with_none = other_nodes(alive, &holders, false, &self.node_id);
        if with_none.len() > 0 {
            return with_none;
        }
        other_nodes(alive, &holders, true, &self.node_id)
    }

    /// Repairs a content: if this node is elected, recodes a fresh piece from the pieces
    /// that it has stored, and says what to send to whom.
    pub fn execute_repair(
        &mut self,
        request: &RepairRequest,
        tracker: &PieceTracker,
        alive: &Vec<NodeId>,
        pieces: &[CodedPiece],
        engine: &mut RlncEngine,
    ) -> (result: Result<Option<(NodeId, WireMessage)>, HealthError>)
        requires
            tracker.wf(),
            pieces@.len() <= u32::MAX,
            pieces@.len() >= 2 && recoder::same_content(piece::piece_views(pieces@))
                ==> recoder::same_shape(piece::piece_views(pieces@)),
        ensures
            final(self).node() == old(self).node(),
            ({
                let holders = tracker::holders_of(tracker@, request.content()@);
                let me = old(self).node()@;
                let views = piece::piece_views(pieces@);
                if step_spec(*request, holders, alive@, me) != RepairStep::Recode {
                    &&& result matches Ok(None)
                    &&& *final(self) == *old(self)
                    &&& *final(engine) == *old(engine)
                } else if pieces@.len() < 2 {
                    &&& result matches Err(e) && too_few(e, request.content(), pieces@.len())
                    &&& *final(self) == *old(self)
                    &&& *final(engine) == *old(engine)
                } else if !recoder::same_content(views) {
                    &&& result matches Err(e) && failed_because(
                        e,
                        request.content(),
                        "RLNC recode failed: "@ + RlncError::MismatchedCids.words(),
                    )
                    &&& *final(self) == *old(self)
                    &&& *final(engine) == *old(engine)
                } else if candidates(holders, alive@, me).len() == 0 {
                    &&& result matches Err(e) && failed_because(
                        e,
                        request.content(),
                        "no candidate peers available for distribution"@,
                    )
                    &&& *final(self) == *old(self)
                    &&& final(engine).metrics == one_recode_more(old(engine).metrics)
                } else {
                    &&& result matches Ok(Some((target, message)))
                    &&& candidates(holders, alive@, me).contains(target)
                    &&& message matches WireMessage::PieceResponse { pieces: fresh, request_id }
                    &&& request_id == old(self).next_id()
                    &&& fresh@.len() == 1
                    &&& exists|scalars: Seq<u8>|
                        scalars.len() == views.len() && (forall|j: int|
                            0 <= j < scalars.len() ==> #[trigger] scalars[j] != 0) && fresh@[0]@
                            == #[trigger] recoder::recoded(views, scalars)
                    &&& final(self).next_id() == (old(self).next_id() + 1) % 0x1_0000_0000_0000_0000
                    &&& final(engine).metrics == one_recode_more(old(engine).metrics)
                }
            }),
    {
        let cid: Cid = *request.cid();
        match self.plan(request, tracker, alive) {
            RepairStep::Recode => {},
            _ => {
                return Ok(None);
            },
        }
        if pieces.len() < 2 {
            return Err(
                HealthError::InsufficientPieces {
                    cid: cid.to_hex(),
                    k: RECODE_INPUTS,
                    available: pieces.len() as u32,
                },
            );
        }
        let fresh = match engine.recode(pieces) {
            Ok(fresh) => fresh,
            Err(e) => {
                let why = e.message();
                return Err(
                    HealthError::RepairFailed {
                        cid: cid.to_hex(),
                        reason: text::join2("RLNC recode failed: ", why.as_str()),
                    },
                );
            },
        };
        let target = match self.select_distribution_target(&cid, tracker, alive) {
            Ok(target) => target,
            Err(e) => {
                return Err(e);
            },
        };
        let request_id: u64 = self.next_request_id;
        self.next_request_id = self.next_request_id.wrapping_add(1);
        let mut out: Vec<CodedPiece> = Vec::new();
        out.push(fresh);
        Ok(Some((target, WireMessage::PieceResponse { pieces: out, request_id })))
    }

    /// The error of a repair whose piece could not be sent.
    pub fn not_sent(request: &RepairRequest, why: &str) -> (e: HealthError)
        ensures
            failed_because(e, request.content(), "piece distribution failed: "@ + why@),
    {
        HealthError::RepairFailed {
            cid: request.cid().to_hex(),
            reason: text::join2("piece distribution failed: ", why),
        }
    }
}

fn able_nodes(holders: &Vec<PieceHolder>, alive: &Vec<NodeId>, me: &NodeId) -> (able: Vec<
    NodeRanking,
>)
    ensures
        able@ == repairers(holders@, alive@, me@),
{
    let mut able: Vec<NodeRanking> = Vec::new();
    let mut i: usize = 0;
    proof {
        assert(holders@.take(0) =~= Seq::<PieceHolder>::empty());
    }
    while i < holders.len()
        invariant
            i <= holders@.len(),
            able@ == repairers(holders@.take(i as int), alive@, me@),
        decreases holders@.len() - i,
    {
        let h: PieceHolder = holders[i];
        proof {
            assert(holders@.take(i + 1).drop_last() =~= holders@.take(i as int));
            assert(holders@.take(i + 1).last() == h);
        }
        if h.piece_count >= 2 && (dht::has_id(alive, &h.node_id) || h.node_id == *me) {
            able.push(
                NodeRanking {
                    node_id: h.node_id,
                    uptime_secs: 0,
                    reputation_score: NEUTRAL_REPUTATION,
                },
            );
        }
        i = i + 1;
    }
    proof {
        assert(holders@.take(i as int) =~= holders@);
    }
    able
}

fn nodes_with_one(holders: &Vec<PieceHolder>, alive: &Vec<NodeId>, me: &NodeId) -> (ids: Vec<
    NodeId,
>)
    ensures
        ids@ == one_piece_peers(holders@, alive@, me@),
{
    let mut ids: Vec<NodeId> = Vec::new();
    let mut i: usize = 0;
    proof {
        assert(holders@.take(0) =~= Seq::<PieceHolder>::empty());
    }
    while i < holders.len()
        invariant
            i <= holders@.len(),
            ids@ == one_piece_peers(holders@.take(i as int), alive@, me@),
        decreases holders@.len() - i,
    {
        let h: PieceHolder = holders[i];
        proof {
            assert(holders@.take(i + 1).drop_last() =~= holders@.take(i as int));
            assert(holders@.take(i + 1).last() == h);
        }
        if h.piece_count == 1 && dht::has_id(alive, &h.node_id) && h.node_id != *me {
            ids.push(h.node_id);
        }
        i = i + 1;
    }
    proof {
        assert(holders@.take(i as int) =~= holders@);
    }
    ids
}

fn is_holder(holders: &Vec<PieceHolder>, id: &NodeId) -> (found: bool)
    ensures
        found == tracker::has_holder(holders@, id@),
{
    let mut i: usize = 0;
    while i < holders.len()
        invariant
            i <= holders@.len(),
            forall|j: int| 0 <= j < i ==> (#[trigger] holders@[j]).node_id@ != id@,
        decreases holders@.len() - i,
    {
        if holders[i].node_id == *id {
            assert(holders@[i as int].node_id@ == id@);
            return true;
        }
        i = i + 1;
    }
    false
}

fn other_nodes(
    alive: &Vec<NodeId>,
    holders: &Vec<PieceHolder>,
    with_holders: bool,
    me: &NodeId,
) -> (ids: Vec<NodeId>)
    ensures
        ids@ == peers(alive@, holders@, with_holders, me@),
{
    let mut ids: Vec<NodeId> = Vec::new();
    let mut i: usize = 0;
    proof {
        assert(alive@.take(0) =~= Seq::<NodeId>::empty());
    }
    while i < alive.len()
        invariant
            i <= alive@.len(),
            ids@ == peers(alive@.take(i as int), holders@, with_holders, me@),
        decreases alive@.len() - i,
    {
        let id: NodeId = alive[i];
        proof {
            assert(alive@.take(i + 1).drop_last() =~= alive@.take(i as int));
            assert(alive@.take(i + 1).last() == id);
        }
        if id != *me && (with_holders || !is_holder(holders, &id)) {
            ids.push(id);
        }
        i = i + 1;
    }
    proof {
        assert(alive@.take(i as int) =~= alive@);
    }
    ids
}

/// Reads stored pieces of a content until there are two of them.
pub struct PieceLoad {
    cid: Cid,
    known: Vec<Cid>,
    next: usize,
    pieces: Vec<CodedPiece>,
}

impl PieceLoad {
    /// The content.
    pub closed spec fn content(&self) -> Cid {
        self.cid
    }

    /// The stored pieces.
    pub closed spec fn stored(&self) -> Seq<Cid> {
        self.known@
    }

    /// How many of them were read.
    pub closed spec fn read(&self) -> nat {
        self.next as nat
    }

    /// The pieces that were loaded.
    pub closed spec fn loaded(&self) -> Seq<CodedPiece> {
        self.pieces@
    }

    /// No more were read than are stored, and no more loaded than it takes.
    pub closed spec fn wf(&self) -> bool {
        self.next <= self.known@.len() && self.pieces@.len() <= 2
    }

    /// The piece to be read next: none when two are loaded, or when all were read.
    pub open spec fn wants(&self) -> Option<Cid> {
        if self.loaded().len() < 2 && self.read() < self.stored().len() {
            Some(self.stored()[self.read() as int])
        } else {
            None
        }
    }

    /// Begins to load pieces of a content. Fails where none is known.
    pub fn load_local_pieces<L: PieceCidLookup>(cid: &Cid, lookup: &L) -> (result: Result<
        PieceLoad,
        HealthError,
    >)
        requires
            lookup.ready(),
        ensures
            match lookup.pieces_of(cid@) {
                Some(list) => {
                    &&& result matches Ok(load)
                    &&& load.wf()
                    &&& load.content() == *cid
                    &&& load.stored() == list
                    &&& load.read() == 0
                    &&& load.loaded() == Seq::<CodedPiece>::empty()
                },
                None => result matches Err(e) && too_few(e, *cid, 0),
            },
    {
        match lookup.piece_cids(cid) {
            Some(known) => Ok(PieceLoad { cid: *cid, known, next: 0, pieces: Vec::new() }),
            None => Err(
                HealthError::InsufficientPieces {
                    cid: cid.to_hex(),
                    k: RECODE_INPUTS,
                    available: 0,
                },
            ),
        }
    }

    /// The piece to be read next.
    pub fn next_cid(&self) -> (cid: Option<Cid>)
        requires
            self.wf(),
        ensures
            cid == self.wants(),
    {
        if self.pieces.len() < 2 && self.next < self.known.len() {
            Some(self.known[self.next])
        } else {
            None
        }
    }

    /// Takes what came of reading the next piece; one that is missing or cannot be read is
    /// passed over.
    pub fn accept(&mut self, found: Option<CodedPiece>)
        requires
            old(self).wf(),
            old(self).wants() is Some,
        ensures
            final(self).wf(),
            final(self).content() == old(self).content(),
            final(self).stored() == old(self).stored(),
            final(self).read() == old(self).read() + 1,
            final(self).loaded() == (match found {
                Some(piece) => old(self).loaded().push(piece),
                None => old(self).loaded(),
            }),
    {
        assert(self.next < self.known.len());
        self.next = self.next + 1;
        if let Some(piece) = found {
            self.pieces.push(piece);
        }
    }

    /// The loaded pieces, or an error where there are fewer than two.
    pub fn finish(self) -> (result: Result<Vec<CodedPiece>, HealthError>)
        requires
            self.wf(),
        ensures
            if self.loaded().len() < 2 {
                result matches Err(e) && too_few(e, self.content(), self.loaded().len())
            } else {
                result matches Ok(pieces) && pieces@ == self.loaded()
            },
    {
        if self.pieces.len() < 2 {
            return Err(
                HealthError::InsufficientPieces {
                    cid: self.cid.to_hex(),
                    k: RECODE_INPUTS,
                    available: self.pieces.len() as u32,
                },
            );
        }
        Ok(self.pieces)
    }
}

/// Of the nodes that agree on a ranking, no more are elected than pieces are missing.
pub proof fn lemma_elected_bound(order: Seq<NodeRanking>, n: nat)
    ensures
        ({
            let elected = Set::new(|me: Seq<u8>| among_first(order, n, me));
            elected.finite() && elected.len() <= n
        }),
    decreases n,
{
    let elected = Set::new(|me: Seq<u8>| among_first(order, n, me));
    if n == 0 {
        assert(elected =~= Set::<Seq<u8>>::empty());
    } else {
        let m = (n - 1) as nat;
        let fewer = Set::new(|me: Seq<u8>| among_first(order, m, me));
        lemma_elected_bound(order, m);
        if m < order.len() {
            let last = order[m as int].node_id@;
            assert forall|me: Seq<u8>| elected.contains(me) <==> fewer.insert(last).contains(
                me,
            ) by {
                if among_first(order, n, me) {
                    let i = choose|i: int|
                        0 <= i < order.len() && i < n && (#[trigger] order[i]).node_id@ == me;
                    if i < m {
                        assert(order[i].node_id@ == me);
                    }
                }
                if among_first(order, m, me) {
                    let i = choose|i: int|
                        0 <= i < order.len() && i < m && (#[trigger] order[i]).node_id@ == me;
                    assert(order[i].node_id@ == me);
                }
                assert(order[m as int].node_id@ == last);
            }
            assert(elected =~= fewer.insert(last));
        } else {
            assert(elected =~= fewer) by {
                assert forall|me: Seq<u8>| elected.contains(me) <==> fewer.contains(me) by {
                    if among_first(order, n, me) {
                        let i = choose|i: int|
                            0 <= i < order.len() && i < n && (#[trigger] order[i]).node_id@ == me;
                        assert(order[i].node_id@ == me);
                    }
                }
            }
        }
    }
}

/// Whoever gets the fresh piece is alive and another node. Where a living peer has exactly
/// one piece, the piece goes to such a peer; else, where a living peer has none, to one of
/// those.
pub proof fn lemma_distribution_priority(
    holders: Seq<PieceHolder>,
    alive: Seq<NodeId>,
    me: Seq<u8>,
    target: NodeId,
)
    requires
        candidates(holders, alive, me).contains(target),
    ensures
        target@ != me,
        dht::id_set(alive).contains(target@),
        (exists|i: int|
            0 <= i < holders.len() && (#[trigger] holders[i]).piece_count == 1 && dht::id_set(
                alive,
            ).contains(holders[i].node_id@) && holders[i].node_id@ != me) ==> exists|i: int|
            0 <= i < holders.len() && (#[trigger] holders[i]).piece_count == 1
                && holders[i].node_id == target,
        (forall|i: int|
            0 <= i < holders.len() && (#[trigger] holders[i]).piece_count == 1 ==> !dht::id_set(
                alive,
            ).contains(holders[i].node_id@) || holders[i].node_id@ == me) && (exists|i: int|
            0 <= i < alive.len() && (#[trigger] alive[i])@ != me && !tracker::has_holder(
                holders,
                alive[i]@,
            )) ==> !tracker::has_holder(holders, target@),
{
    lemma_one_piece_peers(holders, alive, me);
    lemma_peers(alive, holders, false, me);
    lemma_peers(alive, holders, true, me);
    let ones = one_piece_peers(holders, alive, me);
    let nones = peers(alive, holders, false, me);
    let rest = peers(alive, holders, true, me);
    if ones.len() > 0 {
        let k = choose|k: int| 0 <= k < ones.len() && ones[k] == target;
        assert(ones[k] == target);
    } else if nones.len() > 0 {
        let k = choose|k: int| 0 <= k < nones.len() && nones[k] == target;
        assert(nones[k] == target);
    } else {
        let k = choose|k: int| 0 <= k < rest.len() && rest[k] == target;
        assert(rest[k] == target);
    }
}

proof fn lemma_one_piece_peers(holders: Seq<PieceHolder>, alive: Seq<NodeId>, me: Seq<u8>)
    ensures
        ({
            let ids = one_piece_peers(holders, alive, me);
            &&& forall|k: int|
                0 <= k < ids.len() ==> (#[trigger] ids[k])@ != me && dht::id_set(alive).contains(
                    ids[k]@,
                ) && exists|i: int|
                    0 <= i < holders.len() && (#[trigger] holders[i]).piece_count == 1
                        && holders[i].node_id == ids[k]
            &&& (exists|i: int|
                0 <= i < holders.len() && (#[trigger] holders[i]).piece_count == 1 && dht::id_set(
                    alive,
                ).contains(holders[i].node_id@) && holders[i].node_id@ != me) ==> ids.len() > 0
        }),
    decreases holders.len(),
{
    if holders.len() > 0 {
        let rest = holders.drop_last();
        lemma_one_piece_peers(rest, alive, me);
        let front = one_piece_peers(rest, alive, me);
        let ids = one_piece_peers(holders, alive, me);
        assert forall|k: int| 0 <= k < ids.len() implies (#[trigger] ids[k])@ != me && dht::id_set(
            alive,
        ).contains(ids[k]@) && exists|i: int|
            0 <= i < holders.len() && (#[trigger] holders[i]).piece_count == 1
                && holders[i].node_id == ids[k] by {
            if k < front.len() {
                assert(ids[k] == front[k]);
                let i = choose|i: int|
                    0 <= i < rest.len() && (#[trigger] rest[i]).piece_count == 1
                        && rest[i].node_id == front[k];
                assert(holders[i] == rest[i]);
            } else {
                assert(holders[holders.len() - 1].node_id == ids[k]);
            }
        }
        if exists|i: int|
            0 <= i < holders.len() && (#[trigger] holders[i]).piece_count == 1 && dht::id_set(
                alive,
            ).contains(holders[i].node_id@) && holders[i].node_id@ != me {
            let i = choose|i: int|
                0 <= i < holders.len() && (#[trigger] holders[i]).piece_count == 1 && dht::id_set(
                    alive,
                ).contains(holders[i].node_id@) && holders[i].node_id@ != me;
            if i < rest.len() {
                assert(rest[i] == holders[i]);
            }
        }
    }
}

proof fn lemma_peers(alive: Seq<NodeId>, holders: Seq<PieceHolder>, with: bool, me: Seq<u8>)
    ensures
        ({
            let ids = peers(alive, holders, with, me);
            &&& forall|k: int|
                0 <= k < ids.len() ==> (#[trigger] ids[k])@ != me && dht::id_set(alive).contains(
                    ids[k]@,
                ) && (with || !tracker::has_holder(holders, ids[k]@))
            &&& (exists|i: int|
                0 <= i < alive.len() && (#[trigger] alive[i])@ != me && (with
                    || !tracker::has_holder(holders, alive[i]@))) ==> ids.len() > 0
        }),
    decreases alive.len(),
{
    if alive.len() > 0 {
        let rest = alive.drop_last();
        lemma_peers(rest, holders, with, me);
        let front = peers(rest, holders, with, me);
        let ids = peers(alive, holders, with, me);
        assert forall|k: int| 0 <= k < ids.len() implies (#[trigger] ids[k])@ != me && dht::id_set(
            alive,
        ).contains(ids[k]@) && (with || !tracker::has_holder(holders, ids[k]@)) by {
            if k < front.len() {
                assert(ids[k] == front[k]);
                let i = choose|i: int| 0 <= i < rest.len() && (#[trigger] rest[i])@ == front[k]@;
                assert(alive[i] == rest[i]);
            } else {
                assert(alive[alive.len() - 1]@ == ids[k]@);
            }
        }
        if exists|i: int|
            0 <= i < alive.len() && (#[trigger] alive[i])@ != me && (with || !tracker::has_holder(
                holders,
                alive[i]@,
            )) {
            let i = choose|i: int|
                0 <= i < alive.len() && (#[trigger] alive[i])@ != me && (with
                    || !tracker::has_holder(holders, alive[i]@));
            if i < rest.len() {
                assert(rest[i] == alive[i]);
            }
        }
    }
}

}
