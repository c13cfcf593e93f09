//! Membership by the SWIM protocol.
//!
//! Each node keeps what it believes of every other node: alive, suspected or dead, with the
//! incarnation number under which that was learnt. A node counts its own incarnation up to
//! refute a suspicion.

use crate::types::node_id::NodeId;
use crate::types::table::KeyTable;
use crate::types::wire::WireMessage;
use vstd::prelude::*;

verus! {

/// Milliseconds after which a suspected node is declared dead.
pub const DEFAULT_SUSPECT_TIMEOUT: u64 = 1500;

/// Milliseconds from one probe to the next.
pub const DEFAULT_PROTOCOL_PERIOD: u64 = 500;

/// How many updates a probe carries at most.
pub const GOSSIP_LIMIT: usize = 4;

/// What is believed of a node.
#[derive(Clone, Copy, Debug, PartialEq, Eq, Structural)]
pub enum MemberState {
    /// The node is healthy.
    Alive { incarnation: u64 },
    /// The node failed to answer; `since` is the time in milliseconds of the suspicion.
    Suspect { incarnation: u64, since: u64 },
    /// The node is gone.
    Dead { incarnation: u64 },
}

impl MemberState {
    /// The incarnation under which the state was learnt.
    pub open spec fn number(self) -> u64 {
        match self {
            MemberState::Alive { incarnation } => incarnation,
            MemberState::Suspect { incarnation, .. } => incarnation,
            MemberState::Dead { incarnation } => incarnation,
        }
    }
}

/// The beliefs of a node.
#[verifier::ext_equal]
pub struct Beliefs {
    /// The node itself.
    pub local: NodeId,
    /// Its own incarnation.
    pub incarnation: u64,
    /// What it believes of others.
    pub members: Map<Seq<u8>, MemberState>,
}

/// Whether news that a node is alive are newer than what is believed.
pub open spec fn alive_is_news(members: Map<Seq<u8>, MemberState>, id: Seq<u8>, inc: u64) -> bool {
    !members.contains_key(id) || match members[id] {
        MemberState::Alive { incarnation } => inc > incarnation,
        MemberState::Suspect { incarnation, .. } => inc >= incarnation,
        MemberState::Dead { incarnation } => inc > incarnation,
    }
}

/// Whether a suspicion is newer than what is believed.
pub open spec fn suspect_is_news(
    members: Map<Seq<u8>, MemberState>,
    id: Seq<u8>,
    inc: u64,
) -> bool {
    !members.contains_key(id) || match members[id] {
        MemberState::Alive { incarnation } => inc >= incarnation,
        MemberState::Suspect { incarnation, .. } => inc > incarnation,
        MemberState::Dead { .. } => false,
    }
}

/// Whether news that a node is dead are newer than what is believed.
pub open spec fn dead_is_news(members: Map<Seq<u8>, MemberState>, id: Seq<u8>, inc: u64) -> bool {
    !members.contains_key(id) || match members[id] {
        MemberState::Dead { incarnation } => inc > incarnation,
        _ => true,
    }
}

/// The beliefs after news that a node is alive.
pub open spec fn after_alive(b: Beliefs, id: Seq<u8>, inc: u64) -> Beliefs {
    if id != b.local@ && alive_is_news(b.members, id, inc) {
        Beliefs { members: b.members.insert(id, MemberState::Alive { incarnation: inc }), ..b }
    } else {
        b
    }
}

/// The beliefs after a suspicion at time `now`. A suspicion of the node itself raises its
/// incarnation, which wraps around at the largest number.
pub open spec fn after_suspect(b: Beliefs, id: Seq<u8>, inc: u64, now: u64) -> Beliefs {
    if id == b.local@ {
        Beliefs { incarnation: ((b.incarnation + 1) % 0x1_0000_0000_0000_0000) as u64, ..b }
    } else if suspect_is_news(b.members, id, inc) {
        Beliefs {
            members: b.members.insert(id, MemberState::Suspect { incarnation: inc, since: now }),
            ..b
        }
    } else {
        b
    }
}

/// The beliefs after news that a node is dead. News of the node's own death are ignored.
pub open spec fn after_dead(b: Beliefs, id: Seq<u8>, inc: u64) -> Beliefs {
    if id != b.local@ && dead_is_news(b.members, id, inc) {
        Beliefs { members: b.members.insert(id, MemberState::Dead { incarnation: inc }), ..b }
    } else {
        b
    }
}

/// The announcement that the node itself is alive.
pub open spec fn own_alive(b: Beliefs) -> WireMessage {
    WireMessage::SwimAlive { node_id: b.local, incarnation: b.incarnation }
}

/// The beliefs after a message, and the messages to pass on.
pub open spec fn after_message(b: Beliefs, msg: WireMessage, now: u64) -> (
    Beliefs,
    Seq<WireMessage>,
)
    decreases msg, 0nat,
{
    match msg {
        WireMessage::SwimJoin { node_id, .. } => {
            let next = after_alive(b, node_id@, 0);
            (next, seq![own_alive(next)])
        },
        WireMessage::SwimAlive { node_id, incarnation } => (
            after_alive(b, node_id@, incarnation),
            seq![msg],
        ),
        WireMessage::SwimSuspect { node_id, incarnation, .. } => (
            after_suspect(b, node_id@, incarnation, now),
            seq![msg],
        ),
        WireMessage::SwimDead { node_id, incarnation, .. } => (
            after_dead(b, node_id@, incarnation),
            seq![msg],
        ),
        WireMessage::SwimPing { piggyback, .. } => {
            let (next, out) = after_messages(b, piggyback@, piggyback@.len(), now);
            (next, out.push(own_alive(next)))
        },
        _ => (b, Seq::empty()),
    }
}

/// The beliefs after the first `n` of a list of messages, and the messages to pass on.
pub open spec fn after_messages(b: Beliefs, msgs: Seq<WireMessage>, n: nat, now: u64) -> (
    Beliefs,
    Seq<WireMessage>,
)
    decreases msgs, n,
{
    if n == 0 || n > msgs.len() {
        (b, Seq::empty())
    } else {
        let (mid, out) = after_messages(b, msgs, (n - 1) as nat, now);
        let (next, more) = after_message(mid, msgs[n - 1], now);
        (next, out + more)
    }
}

/// Milliseconds from `since` to `now`; none where `since` is later.
pub open spec fn elapsed(now: u64, since: u64) -> int {
    if now >= since {
        now - since
    } else {
        0
    }
}

/// A state after suspicions as old as `timeout` were turned into declarations of death.
pub open spec fn expired(state: MemberState, now: u64, timeout: u64) -> MemberState {
    match state {
        MemberState::Suspect { incarnation, since } => if elapsed(now, since) >= timeout {
            MemberState::Dead { incarnation }
        } else {
            state
        },
        _ => state,
    }
}

/// The keys, in their order, whose state is of the given rank: alive, suspected, dead.
pub open spec fn keys_of_rank(
    keys: Seq<Seq<u8>>,
    members: Map<Seq<u8>, MemberState>,
    rank: int,
) -> Seq<Seq<u8>>
    decreases keys.len(),
{
    if keys.len() == 0 {
        Seq::empty()
    } else {
        let before = keys_of_rank(keys.drop_last(), members, rank);
        if state_rank(members[keys.last()]) == rank {
            before.push(keys.last())
        } else {
            before
        }
    }
}

proof fn lemma_ranked_distinct(
    keys: Seq<Seq<u8>>,
    members: Map<Seq<u8>, MemberState>,
    rank: int,
)
    requires
        keys.no_duplicates(),
    ensures
        keys_of_rank(keys, members, rank).no_duplicates(),
        forall|i: int|
            0 <= i < keys_of_rank(keys, members, rank).len() ==> keys.contains(
                #[trigger] keys_of_rank(keys, members, rank)[i],
            ),
    decreases keys.len(),
{
    if keys.len() > 0 {
        let shorter = keys.drop_last();
        lemma_ranked_distinct(shorter, members, rank);
        let before = keys_of_rank(shorter, members, rank);
        let all = keys_of_rank(keys, members, rank);
        assert forall|i: int| 0 <= i < before.len() implies before[i] != keys.last()
            && keys.contains(#[trigger] before[i]) by {
            let j = choose|j: int| 0 <= j < shorter.len() && shorter[j] == before[i];
            assert(keys[j] == before[i]);
        }
        assert forall|i: int| 0 <= i < all.len() implies keys.contains(#[trigger] all[i]) by {
            if i < before.len() {
                assert(all[i] == before[i]);
            } else {
                assert(keys[keys.len() - 1] == all[i]);
            }
        }
        assert forall|i: int, j: int|
            0 <= i < all.len() && 0 <= j < all.len() && i != j implies all[i] != all[j] by {
            if i < before.len() {
                assert(all[i] == before[i]);
            }
            if j < before.len() {
                assert(all[j] == before[j]);
            }
        }
    }
}

/// The order in which states are passed on: alive, suspected, dead.
pub open spec fn state_rank(state: MemberState) -> int {
    match state {
        MemberState::Alive { .. } => 0,
        MemberState::Suspect { .. } => 1,
        MemberState::Dead { .. } => 2,
    }
}

/// All keys, the alive first and the dead last, else in their order.
pub open spec fn gossip_keys(keys: Seq<Seq<u8>>, members: Map<Seq<u8>, MemberState>) -> Seq<
    Seq<u8>,
> {
    keys_of_rank(keys, members, 0) + keys_of_rank(keys, members, 1) + keys_of_rank(
        keys,
        members,
        2,
    )
}

/// Whether a message tells the state of a member.
pub open spec fn tells(msg: WireMessage, id: Seq<u8>, state: MemberState, teller: NodeId) -> bool {
    match state {
        MemberState::Alive { incarnation } => msg matches WireMessage::SwimAlive {
            node_id,
            incarnation: inc,
        } && node_id@ == id && inc == incarnation,
        MemberState::Suspect { incarnation, .. } => msg matches WireMessage::SwimSuspect {
            node_id,
            incarnation: inc,
            from,
        } && node_id@ == id && inc == incarnation && from == teller,
        MemberState::Dead { incarnation } => msg matches WireMessage::SwimDead {
            node_id,
            incarnation: inc,
            from,
        } && node_id@ == id && inc == incarnation && from == teller,
    }
}

/// Whether the messages tell the states of the first keys of a list, at most `limit`.
pub open spec fn tell_first(
    msgs: Seq<WireMessage>,
    keys: Seq<Seq<u8>>,
    members: Map<Seq<u8>, MemberState>,
    teller: NodeId,
    limit: nat,
) -> bool {
    &&& msgs.len() == if keys.len() < limit {
        keys.len()
    } else {
        limit
    }
    &&& forall|i: int|
        0 <= i < msgs.len() ==> tells(#[trigger] msgs[i], keys[i], members[keys[i]], teller)
}

/// Keeps the membership and runs the protocol.
pub struct SwimMembership {
    members: KeyTable<MemberState>,
    incarnation: u64,
    local_id: NodeId,
    /// Milliseconds after which a suspected node is declared dead.
    pub suspect_timeout: u64,
    /// Milliseconds from one probe to the next.
    pub protocol_period: u64,
    probe_index: usize,
}

impl SwimMembership {
    /// What the node believes.
    pub closed spec fn beliefs(&self) -> Beliefs {
        Beliefs { local: self.local_id, incarnation: self.incarnation, members: self.members@ }
    }

    /// The members in the order in which they are walked.
    pub closed spec fn order(&self) -> Seq<Seq<u8>> {
        self.members.key_list()
    }

    /// How many probes were sent, modulo the largest number.
    pub closed spec fn probes(&self) -> usize {
        self.probe_index
    }

    /// Milliseconds after which a suspected node is declared dead.
    pub closed spec fn timeout(&self) -> u64 {
        self.suspect_timeout
    }

    /// Milliseconds from one probe to the next.
    pub closed spec fn period(&self) -> u64 {
        self.protocol_period
    }

    /// Whether the settings and the number of probes are the same.
    pub open spec fn same_settings(&self, other: &SwimMembership) -> bool {
        &&& self.timeout() == other.timeout()
        &&& self.period() == other.period()
        &&& self.probes() == other.probes()
    }

    /// The node itself is no member, and the order lists each member once.
    pub open spec fn wf(&self) -> bool {
        &&& self.table_ok()
        &&& !self.beliefs().members.contains_key(self.beliefs().local@)
    }

    /// The table of members is in order.
    pub closed spec fn table_ok(&self) -> bool {
        self.members.wf()
    }

    /// The order lists each member once, and only members.
    pub proof fn lemma_order(&self)
        requires
            self.wf(),
        ensures
            self.order().no_duplicates(),
            self.order().to_set() == self.beliefs().members.dom(),
            self.beliefs().members.dom().finite(),
            self.order().len() == self.beliefs().members.dom().len(),
    {
        self.members.lemma_keys();
    }

    /// No member is listed twice among those that are alive.
    pub proof fn lemma_alive_distinct(&self)
        requires
            self.wf(),
        ensures
            keys_of_rank(self.order(), self.beliefs().members, 0).no_duplicates(),
    {
        self.lemma_order();
        lemma_ranked_distinct(self.order(), self.beliefs().members, 0);
    }

    /// A node that knows of no other.
    pub fn new(local_id: NodeId) -> (swim: SwimMembership)
        ensures
            swim.wf(),
            swim.beliefs() == (Beliefs {
                local: local_id,
                incarnation: 0,
                members: Map::empty(),
            }),
            swim.order() == Seq::<Seq<u8>>::empty(),
            swim.timeout() == DEFAULT_SUSPECT_TIMEOUT,
            swim.period() == DEFAULT_PROTOCOL_PERIOD,
            swim.probes() == 0,
    {
        SwimMembership {
            members: KeyTable::new(),
            incarnation: 0,
            local_id,
            suspect_timeout: DEFAULT_SUSPECT_TIMEOUT,
            protocol_period: DEFAULT_PROTOCOL_PERIOD,
            probe_index: 0,
        }
    }

    /// The members that are alive.
    pub fn alive_members(&self) -> (alive: Vec<NodeId>)
        requires
            self.wf(),
        ensures
            alive@.map_values(|id: NodeId| id@) == keys_of_rank(
                self.order(),
                self.beliefs().members,
                0,
            ),
    {
        let n: usize = self.members.len();
        let mut alive: Vec<NodeId> = Vec::new();
        let mut i: usize = 0;
        proof {
            assert(self.order().take(0) =~= Seq::<Seq<u8>>::empty());
            assert(alive@.map_values(|id: NodeId| id@) =~= Seq::<Seq<u8>>::empty());
        }
        while i < n
            invariant
                self.wf(),
                i <= n,
                n == self.order().len(),
                alive@.map_values(|id: NodeId| id@) == keys_of_rank(
                    self.order().take(i as int),
                    self.beliefs().members,
                    0,
                ),
            decreases n - i,
        {
            let ghost before = alive@;
            if let MemberState::Alive { .. } = self.members.row_at(i) {
                alive.push(NodeId::from_bytes(self.members.key_at(i)));
                assert(alive@.map_values(|id: NodeId| id@) =~= before.map_values(
                    |id: NodeId| id@,
                ).push(self.order()[i as int]));
            }
            proof {
                let more = self.order().take(i as int + 1);
                assert(more.drop_last() =~= self.order().take(i as int));
                assert(more.last() == self.order()[i as int]);
            }
            i = i + 1;
        }
        assert(self.order().take(n as int) =~= self.order());
        alive
    }

    /// The number of members in any state.
    pub fn member_count(&self) -> (n: usize)
        requires
            self.wf(),
        ensures
            n == self.beliefs().members.dom().len(),
    {
        self.members.len()
    }

    /// Whether a member is alive.
    pub fn is_alive(&self, node_id: &NodeId) -> (alive: bool)
        requires
            self.wf(),
        ensures
            alive == (self.beliefs().members.contains_key(node_id@)
                && self.beliefs().members[node_id@] is Alive),
    {
        match self.members.get(node_id.as_bytes()) {
            Some(MemberState::Alive { .. }) => true,
            _ => false,
        }
    }

    /// Whether a node has an entry, in whatever state.
    pub fn is_member(&self, node_id: &NodeId) -> (member: bool)
        requires
            self.wf(),
        ensures
            member == self.beliefs().members.contains_key(node_id@),
    {
        self.members.contains(node_id.as_bytes())
    }

    /// The node's own incarnation.
    pub fn current_incarnation(&self) -> (n: u64)
        ensures
            n == self.beliefs().incarnation,
    {
        self.incarnation
    }

    /// The node itself.
    pub fn node_id(&self) -> (id: &NodeId)
        ensures
            *id == self.beliefs().local,
    {
        &self.local_id
    }

    /// Takes in news that a node is alive.
    pub fn mark_alive(&mut self, node_id: &NodeId, incarnation: u64)
        requires
            old(self).wf(),
        ensures
            final(self).wf(),
            final(self).beliefs() == after_alive(old(self).beliefs(), node_id@, incarnation),
            final(self).same_settings(old(self)),
            old(self).beliefs().members.contains_key(node_id@) ==> final(self).order() == old(
                self,
            ).order(),
    {
        if *node_id == self.local_id {
            return ;
        }
        let news = match self.members.get(node_id.as_bytes()) {
            Some(MemberState::Alive { incarnation: inc }) => incarnation > *inc,
            Some(MemberState::Suspect { incarnation: inc, .. }) => incarnation >= *inc,
            Some(MemberState::Dead { incarnation: inc }) => incarnation > *inc,
            None => true,
        };
        if news {
            self.members.set(node_id.bytes, MemberState::Alive { incarnation });
        }
    }

    /// Takes in a suspicion. A suspicion of the node itself is refuted by raising its own
    /// incarnation.
    pub fn mark_suspect(&mut self, node_id: &NodeId, incarnation: u64, now: u64)
        requires
            old(self).wf(),
        ensures
            final(self).wf(),
            final(self).beliefs() == after_suspect(
                old(self).beliefs(),
                node_id@,
                incarnation,
                now,
            ),
            final(self).same_settings(old(self)),
            old(self).beliefs().members.contains_key(node_id@) ==> final(self).order() == old(
                self,
            ).order(),
    {
        if *node_id == self.local_id {
            self.incarnation = self.incarnation.wrapping_add(1);
            return ;
        }
        let news = match self.members.get(node_id.as_bytes()) {
            Some(MemberState::Alive { incarnation: inc }) => incarnation >= *inc,
            Some(MemberState::Suspect { incarnation: inc, .. }) => incarnation > *inc,
            Some(MemberState::Dead { .. }) => false,
            None => true,
        };
        if news {
            self.members.set(node_id.bytes, MemberState::Suspect { incarnation, since: now });
        }
    }

    /// Takes in news that a node is dead. News of the node's own death are ignored.
    pub fn mark_dead(&mut self, node_id: &NodeId, incarnation: u64)
        requires
            old(self).wf(),
        ensures
            final(self).wf(),
            final(self).beliefs() == after_dead(old(self).beliefs(), node_id@, incarnation),
            final(self).same_settings(old(self)),
            old(self).beliefs().members.contains_key(node_id@) ==> final(self).order() == old(
                self,
            ).order(),
    {
        if *node_id == self.local_id {
            return ;
        }
        let news = match self.members.get(node_id.as_bytes()) {
            Some(MemberState::Dead { incarnation: inc }) => incarnation > *inc,
            _ => true,
        };
        if news {
            self.members.set(node_id.bytes, MemberState::Dead { incarnation });
        }
    }

    /// Takes in a message and returns the messages to pass on.
    pub fn handle_message(&mut self, msg: &WireMessage, now: u64) -> (out: Vec<WireMessage>)
        requires
            old(self).wf(),
        ensures
            final(self).wf(),
            (final(self).beliefs(), out@) == after_message(old(self).beliefs(), *msg, now),
            final(self).same_settings(old(self)),
        decreases msg,
    {
        let mut out: Vec<WireMessage> = Vec::new();
        match msg {
            WireMessage::SwimJoin { node_id, .. } => {
                self.mark_alive(node_id, 0);
                out.push(
                    WireMessage::SwimAlive {
                        node_id: self.local_id,
                        incarnation: self.incarnation,
                    },
                );
            },
            WireMessage::SwimAlive { node_id, incarnation } => {
                self.mark_alive(node_id, *incarnation);
                out.push(
                    WireMessage::SwimAlive { node_id: *node_id, incarnation: *incarnation },
                );
            },
            WireMessage::SwimSuspect { node_id, incarnation, from } => {
                self.mark_suspect(node_id, *incarnation, now);
                out.push(
                    WireMessage::SwimSuspect {
                        node_id: *node_id,
                        incarnation: *incarnation,
                        from: *from,
                    },
                );
            },
            WireMessage::SwimDead { node_id, incarnation, from } => {
                self.mark_dead(node_id, *incarnation);
                out.push(
                    WireMessage::SwimDead {
                        node_id: *node_id,
                        incarnation: *incarnation,
                        from: *from,
                    },
                );
            },
            WireMessage::SwimPing { piggyback, .. } => {
                let mut i: usize = 0;
                while i < piggyback.len()
                    invariant
                        i <= piggyback@.len(),
                        *msg matches WireMessage::SwimPing { piggyback: p, .. } && p == *piggyback,
                        self.wf(),
                        (self.beliefs(), out@) == after_messages(
                            old(self).beliefs(),
                            piggyback@,
                            i as nat,
                            now,
                        ),
                        self.same_settings(old(self)),
                    decreases piggyback@.len() - i,
                {
                    let mut more = self.handle_message(&piggyback[i], now);
                    out.append(&mut more);
                    i = i + 1;
                }
                out.push(
                    WireMessage::SwimAlive {
                        node_id: self.local_id,
                        incarnation: self.incarnation,
                    },
                );
            },
            _ => {},
        }
        proof {
            let expected = after_message(old(self).beliefs(), *msg, now);
            assert(out@ =~= expected.1);
            assert(self.beliefs() =~= expected.0);
        }
        out
    }

    /// One round of the protocol: turns suspicions that are old enough into declarations of
    /// death, and returns the probe to send, if any member is alive. The members are probed
    /// in turn.
    pub fn protocol_tick(&mut self, now: u64) -> (probes: Vec<(NodeId, WireMessage)>)
        requires
            old(self).wf(),
        ensures
            final(self).wf(),
            final(self).timeout() == old(self).timeout(),
            final(self).period() == old(self).period(),
            final(self).order() == old(self).order(),
            final(self).beliefs().local == old(self).beliefs().local,
            final(self).beliefs().incarnation == old(self).beliefs().incarnation,
            final(self).beliefs().members == old(self).beliefs().members.map_values(
                |s: MemberState| expired(s, now, old(self).timeout()),
            ),
            ({
                let members = final(self).beliefs().members;
                let alive = keys_of_rank(final(self).order(), members, 0);
                if alive.len() == 0 {
                    probes@.len() == 0 && final(self).probes() == old(self).probes()
                } else {
                    &&& probes@.len() == 1
                    &&& probes@[0].0@ == alive[old(self).probes() as int % alive.len() as int]
                    &&& probes@[0].1 matches WireMessage::SwimPing { from, nonce, piggyback }
                        && from == final(self).beliefs().local && nonce == 0 && tell_first(
                        piggyback@,
                        gossip_keys(final(self).order(), members),
                        members,
                        from,
                        GOSSIP_LIMIT as nat,
                    )
                    &&& final(self).probes() == (old(self).probes() + 1) % (usize::MAX + 1)
                }
            }),
    {
        let ghost before = self.beliefs().members;
        let ghost timeout = self.suspect_timeout;
        let n: usize = self.members.len();
        let mut i: usize = 0;
        proof {
            self.lemma_order();
        }
        while i < n
            invariant
                i <= n,
                n == self.order().len(),
                self.wf(),
                timeout == self.suspect_timeout,
                self.same_settings(old(self)),
                self.order() == old(self).order(),
                self.order().no_duplicates(),
                self.order().to_set() == before.dom(),
                self.beliefs().local == old(self).beliefs().local,
                self.beliefs().incarnation == old(self).beliefs().incarnation,
                self.beliefs().members.dom() == before.dom(),
                forall|j: int|
                    0 <= j < i ==> self.beliefs().members[#[trigger] self.order()[j]] == expired(
                        before[self.order()[j]],
                        now,
                        timeout,
                    ),
                forall|j: int|
                    i <= j < n ==> self.beliefs().members[#[trigger] self.order()[j]]
                        == before[self.order()[j]],
            decreases n - i,
        {
            let key = self.members.key_at(i);
            let state: MemberState = *self.members.row_at(i);
            assert(self.order().to_set().contains(key@));
            if let MemberState::Suspect { incarnation, since } = state {
                if now >= since {
                    if now - since >= self.suspect_timeout {
                        self.members.set(key, MemberState::Dead { incarnation });
                    }
                } else if self.suspect_timeout == 0 {
                    self.members.set(key, MemberState::Dead { incarnation });
                }
            }
            proof {
                assert(self.beliefs().members.dom() =~= before.dom());
            }
            i = i + 1;
        }
        proof {
            assert forall|k: Seq<u8>| before.contains_key(k) implies #[trigger] self.beliefs().members[k]
                == expired(before[k], now, timeout) by {
                assert(self.order().to_set().contains(k));
                let j = choose|j: int| 0 <= j < n && self.order()[j] == k;
                assert(self.order()[j] == k);
            }
            assert(self.beliefs().members =~= before.map_values(
                |s: MemberState| expired(s, now, timeout),
            ));
        }
        let alive = self.alive_members();
        let ghost ids = alive@.map_values(|id: NodeId| id@);
        let mut probes: Vec<(NodeId, WireMessage)> = Vec::new();
        if alive.len() == 0 {
            return probes;
        }
        let turn: usize = self.probe_index % alive.len();
        assert(ids[turn as int] == alive@[turn as int]@);
        self.probe_index = self.probe_index.wrapping_add(1);
        let piggyback = self.collect_gossip_msgs(GOSSIP_LIMIT);
        probes.push(
            (alive[turn], WireMessage::SwimPing { from: self.local_id, nonce: 0, piggyback }),
        );
        probes
    }

    /// The states of the first members, at most `limit`, as messages; the alive come first
    /// and the dead last.
    pub fn collect_gossip_msgs(&self, limit: usize) -> (msgs: Vec<WireMessage>)
        requires
            self.wf(),
        ensures
            tell_first(
                msgs@,
                gossip_keys(self.order(), self.beliefs().members),
                self.beliefs().members,
                self.beliefs().local,
                limit as nat,
            ),
    {
        let mut msgs: Vec<WireMessage> = Vec::new();
        self.collect_rank(0, limit, Ghost(Seq::empty()), &mut msgs);
        let ghost first = keys_of_rank(self.order(), self.beliefs().members, 0);
        proof {
            assert(Seq::<Seq<u8>>::empty() + first =~= first);
        }
        self.collect_rank(1, limit, Ghost(first), &mut msgs);
        let ghost second = first + keys_of_rank(self.order(), self.beliefs().members, 1);
        self.collect_rank(2, limit, Ghost(second), &mut msgs);
        msgs
    }

    fn collect_rank(
        &self,
        rank: u8,
        limit: usize,
        Ghost(done): Ghost<Seq<Seq<u8>>>,
        msgs: &mut Vec<WireMessage>,
    )
        requires
            self.wf(),
            tell_first(
                old(msgs)@,
                done,
                self.beliefs().members,
                self.beliefs().local,
                limit as nat,
            ),
        ensures
            tell_first(
                final(msgs)@,
                done + keys_of_rank(self.order(), self.beliefs().members, rank as int),
                self.beliefs().members,
                self.beliefs().local,
                limit as nat,
            ),
    {
        let n: usize = self.members.len();
        let mut i: usize = 0;
        let ghost members = self.beliefs().members;
        proof {
            assert(self.order().take(0) =~= Seq::<Seq<u8>>::empty());
            assert(done + keys_of_rank(self.order().take(0), members, rank as int) =~= done);
        }
        while i < n
            invariant
                i <= n,
                n == self.order().len(),
                self.wf(),
                members == self.beliefs().members,
                tell_first(
                    msgs@,
                    done + keys_of_rank(self.order().take(i as int), members, rank as int),
                    members,
                    self.beliefs().local,
                    limit as nat,
                ),
            decreases n - i,
        {
            let state: MemberState = *self.members.row_at(i);
            let key = self.members.key_at(i);
            let node_id = NodeId::from_bytes(key);
            let ghost known = done + keys_of_rank(self.order().take(i as int), members, rank as int);
            let state_of: u8 = match state {
                MemberState::Alive { .. } => 0,
                MemberState::Suspect { .. } => 1,
                MemberState::Dead { .. } => 2,
            };
            let ghost before = msgs@;
            if state_of == rank && msgs.len() < limit {
                let update = match state {
                    MemberState::Alive { incarnation } => WireMessage::SwimAlive {
                        node_id,
                        incarnation,
                    },
                    MemberState::Suspect { incarnation, .. } => WireMessage::SwimSuspect {
                        node_id,
                        incarnation,
                        from: self.local_id,
                    },
                    MemberState::Dead { incarnation } => WireMessage::SwimDead {
                        node_id,
                        incarnation,
                        from: self.local_id,
                    },
                };
                msgs.push(update);
            }
            proof {
                let more = self.order().take(i as int + 1);
                assert(more.drop_last() =~= self.order().take(i as int));
                assert(more.last() == key@);
                let next = done + keys_of_rank(more, members, rank as int);
                if state_of == rank {
                    assert(next =~= known.push(key@));
                } else {
                    assert(next =~= known);
                }
                assert forall|j: int| 0 <= j < msgs@.len() implies tells(
                    #[trigger] msgs@[j],
                    next[j],
                    members[next[j]],
                    self.beliefs().local,
                ) by {
                    if j < before.len() {
                        assert(msgs@[j] == before[j]);
                        assert(tells(before[j], known[j], members[known[j]], self.beliefs().local));
                    }
                }
            }
            i = i + 1;
        }
        assert(self.order().take(n as int) =~= self.order());
    }
}

/// News that a node is alive or suspected never lower its incarnation. (News of its death
/// may: death is taken in under any incarnation.)
pub proof fn lemma_incarnation_grows(b: Beliefs, id: Seq<u8>, inc: u64, now: u64)
    requires
        b.members.contains_key(id),
    ensures
        after_alive(b, id, inc).members[id].number() >= b.members[id].number(),
        after_suspect(b, id, inc, now).members[id].number() >= b.members[id].number(),
{
}

/// Death is final for a suspicion and for an announcement of life under the same or a lower
/// incarnation; an announcement under a higher one revives.
pub proof fn lemma_dead_is_final(b: Beliefs, id: Seq<u8>, inc: u64, now: u64)
    requires
        b.members.contains_key(id),
        b.members[id] is Dead,
        id != b.local@,
    ensures
        after_suspect(b, id, inc, now) == b,
        inc <= b.members[id].number() ==> after_alive(b, id, inc) == b,
        inc > b.members[id].number() ==> after_alive(b, id, inc).members[id]
            == (MemberState::Alive { incarnation: inc }),
{
}

/// A suspicion under a lower incarnation does not touch a node that is alive.
pub proof fn lemma_stale_suspicion(b: Beliefs, id: Seq<u8>, inc: u64, now: u64)
    requires
        b.members.contains_key(id),
        b.members[id] is Alive,
        inc < b.members[id].number(),
        id != b.local@,
    ensures
        after_suspect(b, id, inc, now) == b,
{
}

/// A node refutes a suspicion of itself by announcing itself under its raised incarnation:
/// everyone who believed the suspicion then believes it alive.
pub proof fn lemma_refutation(own: Beliefs, other: Beliefs, now: u64)
    requires
        own.incarnation < u64::MAX,
        other.local@ != own.local@,
        other.members.contains_key(own.local@),
        other.members[own.local@] is Suspect,
        other.members[own.local@].number() <= own.incarnation,
    ensures
        ({
            let raised = after_suspect(own, own.local@, own.incarnation, now);
            let told = after_message(other, own_alive(raised), now).0;
            &&& raised.incarnation == own.incarnation + 1
            &&& raised.members == own.members
            &&& told.members[own.local@] == (MemberState::Alive {
                incarnation: (own.incarnation + 1) as u64,
            })
        }),
{
}

/// Taking in the same news twice is the same as taking it in once.
pub proof fn lemma_news_idempotent(b: Beliefs, id: Seq<u8>, inc: u64)
    ensures
        after_alive(after_alive(b, id, inc), id, inc) == after_alive(b, id, inc),
        after_dead(after_dead(b, id, inc), id, inc) == after_dead(b, id, inc),
{
}

/// No message makes a node a member of its own table, changes who it is, or forgets a
/// member.
pub proof fn lemma_message_keeps(b: Beliefs, msg: WireMessage, now: u64)
    requires
        !b.members.contains_key(b.local@),
    ensures
        after_message(b, msg, now).0.local == b.local,
        !after_message(b, msg, now).0.members.contains_key(b.local@),
        b.members.dom().subset_of(after_message(b, msg, now).0.members.dom()),
    decreases msg, 0nat,
{
    if let WireMessage::SwimPing { piggyback, .. } = msg {
        lemma_messages_keep(b, piggyback@, piggyback@.len(), now);
    }
}

/// As [`lemma_message_keeps`], for the first `n` of a list of messages.
pub proof fn lemma_messages_keep(b: Beliefs, msgs: Seq<WireMessage>, n: nat, now: u64)
    requires
        !b.members.contains_key(b.local@),
    ensures
        after_messages(b, msgs, n, now).0.local == b.local,
        !after_messages(b, msgs, n, now).0.members.contains_key(b.local@),
        b.members.dom().subset_of(after_messages(b, msgs, n, now).0.members.dom()),
    decreases msgs, n,
{
    if n > 0 && n <= msgs.len() {
        lemma_messages_keep(b, msgs, (n - 1) as nat, now);
        let mid = after_messages(b, msgs, (n - 1) as nat, now).0;
        lemma_message_keeps(mid, msgs[n - 1], now);
    }
}

/// A joining node is answered with an announcement from which it learns of the node that it
/// joined, and it is known there as alive or was known before.
pub proof fn lemma_join_introduces(b: Beliefs, joiner: NodeId, port: u16, now: u64)
    requires
        !b.members.contains_key(b.local@),
        joiner@ != b.local@,
    ensures
        ({
            let (next, out) = after_message(
                b,
                WireMessage::SwimJoin { node_id: joiner, listen_port: port },
                now,
            );
            &&& out == seq![own_alive(b)]
            &&& next.members.contains_key(joiner@)
            &&& !b.members.contains_key(joiner@) ==> next.members[joiner@] is Alive
        }),
{
}

/// After a round of the protocol, no suspicion is as old as the timeout, and the members
/// that were alive are the members that are.
pub proof fn lemma_tick_expires(state: MemberState, now: u64, timeout: u64)
    ensures
        expired(state, now, timeout) matches MemberState::Suspect { since, .. } ==> elapsed(
            now,
            since,
        ) < timeout,
        expired(state, now, timeout) is Alive <==> state is Alive,
        expired(state, now, timeout).number() == state.number(),
        state is Dead ==> expired(state, now, timeout) == state,
{
}

}
