//! What membership, providers, pending fetches, connections and streams promise.

use crate::net::dht;
use crate::net::endpoint;
use crate::net::endpoint::Route;
use crate::net::endpoint::SendOutcome;
use crate::net::endpoint::StreamAction;
use crate::net::endpoint::StreamEvent;
use crate::net::endpoint::StreamKind;
use crate::net::error::NetError;
use crate::net::pending;
use crate::net::pending::PendingEntry;
use crate::net::pool;
use crate::net::pool::PooledConnection;
use crate::net::swim;
use crate::net::swim::Beliefs;
use crate::net::swim::MemberState;
use crate::outside::hexadecimal;
use crate::types;
use crate::types::node_id::NodeId;
use crate::types::text;
use crate::types::wire::WireMessage;
use vstd::prelude::*;

verus! {

/// Whether two states of belief differ at most in what is believed of one node.
pub open spec fn differ_in(b: Beliefs, c: Beliefs, id: Seq<u8>) -> bool {
    &&& b.local == c.local
    &&& b.incarnation == c.incarnation
    &&& forall|k: Seq<u8>|
        k != id ==> (#[trigger] b.members.contains_key(k) <==> c.members.contains_key(k))
    &&& forall|k: Seq<u8>| k != id ==> #[trigger] b.members[k] == c.members[k]
}

/// An announcement of life makes another node alive under its incarnation where the node was
/// unknown, alive or dead under a lower one, or suspected under no higher one; else nothing
/// changes. It touches no other node, and is passed on.
pub proof fn lemma_alive_message(b: Beliefs, node_id: NodeId, incarnation: u64, now: u64)
    ensures
        ({
            let msg = WireMessage::SwimAlive { node_id, incarnation };
            let (after, out) = swim::after_message(b, msg, now);
            let known = b.members.contains_key(node_id@);
            let state = b.members[node_id@];
            let news = !known || (state matches MemberState::Alive { incarnation: i } && incarnation
                > i) || (state matches MemberState::Suspect { incarnation: i, .. } && incarnation
                >= i) || (state matches MemberState::Dead { incarnation: i } && incarnation > i);
            &&& out == seq![msg]
            &&& differ_in(b, after, node_id@)
            &&& node_id@ == b.local@ || !news ==> after == b
            &&& node_id@ != b.local@ && news ==> after.members.contains_key(node_id@)
                && after.members[node_id@] == (MemberState::Alive { incarnation })
        }),
{
}

/// A suspicion of another node makes it suspected under the incarnation of the message, from
/// now on, where it was unknown, alive under no higher incarnation, or suspected under a lower
/// one; else nothing changes. A suspicion of the node itself raises its own incarnation. It
/// touches no other node, and is passed on.
pub proof fn lemma_suspect_message(
    b: Beliefs,
    node_id: NodeId,
    incarnation: u64,
    from: NodeId,
    now: u64,
)
    ensures
        ({
            let msg = WireMessage::SwimSuspect { node_id, incarnation, from };
            let (after, out) = swim::after_message(b, msg, now);
            let known = b.members.contains_key(node_id@);
            let state = b.members[node_id@];
            let news = !known || (state matches MemberState::Alive { incarnation: i } && incarnation
                >= i) || (state matches MemberState::Suspect { incarnation: i, .. } && incarnation
                > i);
            &&& out == seq![msg]
            &&& node_id@ != b.local@ ==> differ_in(b, after, node_id@)
            &&& node_id@ != b.local@ && !news ==> after == b
            &&& node_id@ != b.local@ && news ==> after.members.contains_key(node_id@)
                && after.members[node_id@] == (MemberState::Suspect { incarnation, since: now })
            &&& node_id@ == b.local@ ==> after.members == b.members && after.local == b.local
            &&& node_id@ == b.local@ && b.incarnation < u64::MAX ==> after.incarnation
                == b.incarnation + 1
        }),
{
}

/// News of the death of another node make it dead under the incarnation of the message, unless
/// it was dead under the same or a higher one already. News of the node's own death change
/// nothing. They touch no other node, and are passed on.
pub proof fn lemma_dead_message(
    b: Beliefs,
    node_id: NodeId,
    incarnation: u64,
    from: NodeId,
    now: u64,
)
    ensures
        ({
            let msg = WireMessage::SwimDead { node_id, incarnation, from };
            let (after, out) = swim::after_message(b, msg, now);
            let known = b.members.contains_key(node_id@);
            let old = known && (b.members[node_id@] matches MemberState::Dead { incarnation: i } && i
                >= incarnation);
            &&& out == seq![msg]
            &&& differ_in(b, after, node_id@)
            &&& node_id@ == b.local@ || old ==> after == b
            &&& node_id@ != b.local@ && !old ==> after.members.contains_key(node_id@)
                && after.members[node_id@] == (MemberState::Dead { incarnation })
        }),
{
}

/// Who joins is taken in like one that announces itself under incarnation zero, and is told of
/// this node under its own incarnation.
pub proof fn lemma_join_message(b: Beliefs, node_id: NodeId, listen_port: u16, now: u64)
    ensures
        ({
            let (after, out) = swim::after_message(
                b,
                WireMessage::SwimJoin { node_id, listen_port },
                now,
            );
            &&& after == swim::after_message(
                b,
                WireMessage::SwimAlive { node_id, incarnation: 0 },
                now,
            ).0
            &&& out == seq![
                WireMessage::SwimAlive { node_id: b.local, incarnation: b.incarnation },
            ]
        }),
{
}

/// A message that is not about membership changes nothing and is not passed on; nor is an
/// acknowledgement.
pub proof fn lemma_other_message(b: Beliefs, msg: WireMessage, now: u64)
    requires
        !(msg is SwimJoin),
        !(msg is SwimAlive),
        !(msg is SwimSuspect),
        !(msg is SwimDead),
        !(msg is SwimPing),
    ensures
        swim::after_message(b, msg, now).0 == b,
        swim::after_message(b, msg, now).1.len() == 0,
{
}

/// Whether a message may change what is believed of a node: it is about that node, or it
/// carries other messages.
pub open spec fn may_touch(msg: WireMessage, id: Seq<u8>) -> bool {
    match msg {
        WireMessage::SwimJoin { node_id, .. } => node_id@ == id,
        WireMessage::SwimAlive { node_id, .. } => node_id@ == id,
        WireMessage::SwimSuspect { node_id, .. } => node_id@ == id,
        WireMessage::SwimDead { node_id, .. } => node_id@ == id,
        WireMessage::SwimPing { .. } => true,
        _ => false,
    }
}

/// The messages that a probe carries are taken in one after the other, and what each gives to
/// pass on is passed on in that order, the announcement of this node last.
pub proof fn lemma_ping_message(
    b: Beliefs,
    from: NodeId,
    nonce: u64,
    piggyback: Vec<WireMessage>,
    now: u64,
    steps: Seq<(Beliefs, Seq<WireMessage>)>,
)
    requires
        steps.len() == piggyback@.len() + 1,
        steps[0] == (b, Seq::<WireMessage>::empty()),
        forall|i: int|
            0 <= i < piggyback@.len() ==> #[trigger] steps[i + 1] == ({
                let (next, more) = swim::after_message(steps[i].0, piggyback@[i], now);
                (next, steps[i].1 + more)
            }),
    ensures
        ({
            let (after, out) = swim::after_message(
                b,
                WireMessage::SwimPing { from, nonce, piggyback },
                now,
            );
            let last = steps[piggyback@.len() as int];
            &&& after == last.0
            &&& out == last.1.push(
                WireMessage::SwimAlive { node_id: after.local, incarnation: after.incarnation },
            )
        }),
{
    lemma_steps(b, piggyback@, now, steps, piggyback@.len());
}

proof fn lemma_steps(
    b: Beliefs,
    msgs: Seq<WireMessage>,
    now: u64,
    steps: Seq<(Beliefs, Seq<WireMessage>)>,
    n: nat,
)
    requires
        n <= msgs.len(),
        steps.len() == msgs.len() + 1,
        steps[0] == (b, Seq::<WireMessage>::empty()),
        forall|i: int|
            0 <= i < msgs.len() ==> #[trigger] steps[i + 1] == ({
                let (next, more) = swim::after_message(steps[i].0, msgs[i], now);
                (next, steps[i].1 + more)
            }),
    ensures
        swim::after_messages(b, msgs, n, now) == steps[n as int],
    decreases n,
{
    if n > 0 {
        lemma_steps(b, msgs, now, steps, (n - 1) as nat);
        assert(steps[(n - 1) + 1] == steps[n as int]);
    }
}

/// A message that is not about a node, and carries none that is, leaves what is believed of
/// the node.
pub proof fn lemma_untouched(b: Beliefs, msg: WireMessage, now: u64, id: Seq<u8>)
    requires
        !may_touch(msg, id),
    ensures
        ({
            let after = swim::after_message(b, msg, now).0;
            &&& after.local == b.local
            &&& after.members.contains_key(id) <==> b.members.contains_key(id)
            &&& after.members[id] == b.members[id]
        }),
{
}

/// News that a probe carries take effect like any others: what is believed of a node after
/// the last message about it is believed after the probe.
pub proof fn lemma_ping_takes_news(
    b: Beliefs,
    from: NodeId,
    nonce: u64,
    piggyback: Vec<WireMessage>,
    now: u64,
    i: int,
    id: Seq<u8>,
)
    requires
        0 <= i < piggyback@.len(),
        forall|j: int| i < j < piggyback@.len() ==> !may_touch(#[trigger] piggyback@[j], id),
    ensures
        ({
            let before = swim::after_messages(b, piggyback@, i as nat, now).0;
            let taken = swim::after_message(before, piggyback@[i], now).0;
            let after = swim::after_message(
                b,
                WireMessage::SwimPing { from, nonce, piggyback },
                now,
            ).0;
            &&& after.members.contains_key(id) <==> taken.members.contains_key(id)
            &&& after.members[id] == taken.members[id]
        }),
{
    lemma_later_untouched(b, piggyback@, now, i, id, piggyback@.len());
}

proof fn lemma_later_untouched(
    b: Beliefs,
    msgs: Seq<WireMessage>,
    now: u64,
    i: int,
    id: Seq<u8>,
    n: nat,
)
    requires
        0 <= i < n <= msgs.len(),
        forall|j: int| i < j < msgs.len() ==> !may_touch(#[trigger] msgs[j], id),
    ensures
        ({
            let before = swim::after_messages(b, msgs, i as nat, now).0;
            let taken = swim::after_message(before, msgs[i], now).0;
            let after = swim::after_messages(b, msgs, n, now).0;
            &&& after.members.contains_key(id) <==> taken.members.contains_key(id)
            &&& after.members[id] == taken.members[id]
        }),
    decreases n,
{
    if n > i + 1 {
        lemma_later_untouched(b, msgs, now, i, id, (n - 1) as nat);
        let mid = swim::after_messages(b, msgs, (n - 1) as nat, now).0;
        lemma_untouched(mid, msgs[n - 1], now, id);
    }
}

/// A death that a probe tells of takes effect: a node that the probe calls dead, and does not
/// speak of again, is dead afterwards, unless it was dead under a higher incarnation.
pub proof fn lemma_ping_tells_death(
    b: Beliefs,
    from: NodeId,
    nonce: u64,
    piggyback: Vec<WireMessage>,
    now: u64,
    i: int,
)
    requires
        !b.members.contains_key(b.local@),
        0 <= i < piggyback@.len(),
        piggyback@[i] is SwimDead,
        piggyback@[i]->SwimDead_node_id@ != b.local@,
        forall|j: int|
            0 <= j < piggyback@.len() && j != i ==> !may_touch(
                #[trigger] piggyback@[j],
                piggyback@[i]->SwimDead_node_id@,
            ),
    ensures
        ({
            let id = piggyback@[i]->SwimDead_node_id@;
            let inc = piggyback@[i]->SwimDead_incarnation;
            let after = swim::after_message(
                b,
                WireMessage::SwimPing { from, nonce, piggyback },
                now,
            ).0;
            let old = b.members.contains_key(id) && (b.members[id] matches MemberState::Dead {
                incarnation: k,
            } && k >= inc);
            &&& after.members.contains_key(id)
            &&& after.members[id] == if old {
                b.members[id]
            } else {
                MemberState::Dead { incarnation: inc }
            }
        }),
{
    let id = piggyback@[i]->SwimDead_node_id@;
    lemma_ping_takes_news(b, from, nonce, piggyback, now, i, id);
    lemma_earlier_untouched(b, piggyback@, now, id, i as nat);
    let before = swim::after_messages(b, piggyback@, i as nat, now).0;
    match piggyback@[i] {
        WireMessage::SwimDead { node_id, incarnation, from } => {
            lemma_dead_message(before, node_id, incarnation, from, now);
        },
        _ => {},
    }
}

proof fn lemma_earlier_untouched(
    b: Beliefs,
    msgs: Seq<WireMessage>,
    now: u64,
    id: Seq<u8>,
    n: nat,
)
    requires
        n <= msgs.len(),
        forall|j: int| 0 <= j < n ==> !may_touch(#[trigger] msgs[j], id),
    ensures
        ({
            let after = swim::after_messages(b, msgs, n, now).0;
            &&& after.local == b.local
            &&& after.members.contains_key(id) <==> b.members.contains_key(id)
            &&& after.members[id] == b.members[id]
        }),
    decreases n,
{
    if n > 0 {
        lemma_earlier_untouched(b, msgs, now, id, (n - 1) as nat);
        let mid = swim::after_messages(b, msgs, (n - 1) as nat, now).0;
        lemma_untouched(mid, msgs[n - 1], now, id);
    }
}

/// A suspicion that a probe carries takes effect: a node that the probe calls suspected, and
/// does not speak of again, is suspected afterwards where it was alive under no higher
/// incarnation.
pub proof fn lemma_ping_tells_suspicion(
    b: Beliefs,
    from: NodeId,
    nonce: u64,
    piggyback: Vec<WireMessage>,
    now: u64,
    i: int,
)
    requires
        0 <= i < piggyback@.len(),
        piggyback@[i] is SwimSuspect,
        piggyback@[i]->SwimSuspect_node_id@ != b.local@,
        b.members.contains_key(piggyback@[i]->SwimSuspect_node_id@),
        b.members[piggyback@[i]->SwimSuspect_node_id@] matches MemberState::Alive { incarnation }
            && incarnation <= piggyback@[i]->SwimSuspect_incarnation,
        forall|j: int|
            0 <= j < piggyback@.len() && j != i ==> !may_touch(
                #[trigger] piggyback@[j],
                piggyback@[i]->SwimSuspect_node_id@,
            ),
    ensures
        swim::after_message(b, WireMessage::SwimPing { from, nonce, piggyback }, now).0.members[
        piggyback@[i]->SwimSuspect_node_id@] == (MemberState::Suspect {
            incarnation: piggyback@[i]->SwimSuspect_incarnation,
            since: now,
        }),
{
    let id = piggyback@[i]->SwimSuspect_node_id@;
    lemma_ping_takes_news(b, from, nonce, piggyback, now, i, id);
    lemma_earlier_untouched(b, piggyback@, now, id, i as nat);
    let before = swim::after_messages(b, piggyback@, i as nat, now).0;
    match piggyback@[i] {
        WireMessage::SwimSuspect { node_id, incarnation, from } => {
            lemma_suspect_message(before, node_id, incarnation, from, now);
        },
        _ => {},
    }
}

/// A suspicion that is as old as the timeout becomes death under the same incarnation; a
/// younger one stays, and so do life and death.
pub proof fn lemma_suspicion_expires(incarnation: u64, since: u64, now: u64, timeout: u64)
    ensures
        ({
            let suspect = MemberState::Suspect { incarnation, since };
            let alive = MemberState::Alive { incarnation };
            let dead = MemberState::Dead { incarnation };
            &&& now >= since + timeout ==> swim::expired(suspect, now, timeout) == dead
            &&& since <= now < since + timeout ==> swim::expired(suspect, now, timeout) == suspect
            &&& now < since && timeout > 0 ==> swim::expired(suspect, now, timeout) == suspect
            &&& swim::expired(alive, now, timeout) == alive
            &&& swim::expired(dead, now, timeout) == dead
        }),
{
}

/// One member more is listed behind the others exactly if its state is the one asked for:
/// the living under zero, the suspected under one, the dead under two.
pub proof fn lemma_listed_step(
    keys: Seq<Seq<u8>>,
    members: Map<Seq<u8>, MemberState>,
    key: Seq<u8>,
    rank: int,
)
    ensures
        swim::keys_of_rank(Seq::empty(), members, rank).len() == 0,
        ({
            let asked = rank == 0 && members[key] is Alive || rank == 1 && members[key] is Suspect
                || rank == 2 && members[key] is Dead;
            swim::keys_of_rank(keys.push(key), members, rank) == if asked {
                swim::keys_of_rank(keys, members, rank).push(key)
            } else {
                swim::keys_of_rank(keys, members, rank)
            }
        }),
{
    assert(keys.push(key).drop_last() =~= keys);
}

proof fn lemma_listed(
    keys: Seq<Seq<u8>>,
    members: Map<Seq<u8>, MemberState>,
    rank: int,
    key: Seq<u8>,
)
    ensures
        swim::keys_of_rank(keys, members, rank).contains(key) <==> keys.contains(key) && (rank == 0
            && members[key] is Alive || rank == 1 && members[key] is Suspect || rank == 2
            && members[key] is Dead),
    decreases keys.len(),
{
    if keys.len() > 0 {
        let front = keys.drop_last();
        assert(front.push(keys.last()) =~= keys);
        lemma_listed(front, members, rank, key);
        lemma_listed_step(front, members, keys.last(), rank);
        let before = swim::keys_of_rank(front, members, rank);
        let after = swim::keys_of_rank(keys, members, rank);
        if before.contains(key) {
            let j = choose|j: int| 0 <= j < before.len() && before[j] == key;
            assert(after[j] == key);
        }
        if after.contains(key) {
            let j = choose|j: int| 0 <= j < after.len() && after[j] == key;
            if j < before.len() {
                assert(before[j] == key);
            }
        }
        if front.contains(key) {
            let j = choose|j: int| 0 <= j < front.len() && front[j] == key;
            assert(keys[j] == key);
        }
        if keys.contains(key) {
            let j = choose|j: int| 0 <= j < keys.len() && keys[j] == key;
            if j < front.len() {
                assert(front[j] == key);
            } else if after.len() > before.len() {
                assert(after[after.len() - 1] == key);
            }
        }
        if key == keys.last() {
            assert(keys[keys.len() - 1] == key);
        }
    }
}

/// Among the living is exactly who is a member and believed alive.
pub proof fn lemma_alive_listed(
    keys: Seq<Seq<u8>>,
    members: Map<Seq<u8>, MemberState>,
    key: Seq<u8>,
)
    ensures
        swim::keys_of_rank(keys, members, 0).contains(key) <==> keys.contains(key)
            && members[key] is Alive,
{
    lemma_listed(keys, members, 0, key);
}

/// Gossip speaks of the living first, then of the suspected, then of the dead, of every
/// member, and of as many as there is room for.
pub proof fn lemma_gossip_order(
    keys: Seq<Seq<u8>>,
    members: Map<Seq<u8>, MemberState>,
    i: int,
    j: int,
    key: Seq<u8>,
    msgs: Seq<WireMessage>,
    teller: NodeId,
    limit: nat,
)
    ensures
        ({
            let all = swim::gossip_keys(keys, members);
            &&& all.contains(key) <==> keys.contains(key)
            &&& 0 <= i < j < all.len() ==> {
                &&& members[all[j]] is Alive ==> members[all[i]] is Alive
                &&& members[all[i]] is Dead ==> members[all[j]] is Dead
            }
            &&& swim::tell_first(msgs, all, members, teller, limit) ==> msgs.len() <= limit && (
            msgs.len() == limit || msgs.len() == all.len())
        }),
{
    let a = swim::keys_of_rank(keys, members, 0);
    let b = swim::keys_of_rank(keys, members, 1);
    let c = swim::keys_of_rank(keys, members, 2);
    let all = swim::gossip_keys(keys, members);
    lemma_listed(keys, members, 0, key);
    lemma_listed(keys, members, 1, key);
    lemma_listed(keys, members, 2, key);
    assert(all =~= a + b + c);
    if all.contains(key) {
        let k = choose|k: int| 0 <= k < all.len() && all[k] == key;
        if k < a.len() {
            assert(a[k] == key);
        } else if k < a.len() + b.len() {
            assert(b[k - a.len()] == key);
        } else {
            assert(c[k - a.len() - b.len()] == key);
        }
    }
    if a.contains(key) {
        let k = choose|k: int| 0 <= k < a.len() && a[k] == key;
        assert(all[k] == key);
    }
    if b.contains(key) {
        let k = choose|k: int| 0 <= k < b.len() && b[k] == key;
        assert(all[a.len() + k] == key);
    }
    if c.contains(key) {
        let k = choose|k: int| 0 <= k < c.len() && c[k] == key;
        assert(all[a.len() + b.len() + k] == key);
    }
    if 0 <= i < j < all.len() {
        lemma_segment(keys, members, all, i);
        lemma_segment(keys, members, all, j);
    }
}

proof fn lemma_segment(
    keys: Seq<Seq<u8>>,
    members: Map<Seq<u8>, MemberState>,
    all: Seq<Seq<u8>>,
    i: int,
)
    requires
        all == swim::gossip_keys(keys, members),
        0 <= i < all.len(),
    ensures
        ({
            let a = swim::keys_of_rank(keys, members, 0).len();
            let b = swim::keys_of_rank(keys, members, 1).len();
            &&& i < a <==> members[all[i]] is Alive
            &&& a <= i < a + b <==> members[all[i]] is Suspect
        }),
{
    let a = swim::keys_of_rank(keys, members, 0);
    let b = swim::keys_of_rank(keys, members, 1);
    let c = swim::keys_of_rank(keys, members, 2);
    assert(all =~= a + b + c);
    lemma_listed(keys, members, 0, all[i]);
    lemma_listed(keys, members, 1, all[i]);
    lemma_listed(keys, members, 2, all[i]);
    if i < a.len() {
        assert(a[i] == all[i]);
        assert(a.contains(all[i]));
    } else if i < a.len() + b.len() {
        assert(b[i - a.len()] == all[i]);
        assert(b.contains(all[i]));
    } else {
        assert(c[i - a.len() - b.len()] == all[i]);
        assert(c.contains(all[i]));
    }
}

/// Whoever is told the state of a node that it does not know believes it afterwards. A bad
/// word names who passes it on.
pub proof fn lemma_gossip_teaches(
    b: Beliefs,
    msg: WireMessage,
    id: Seq<u8>,
    state: MemberState,
    teller: NodeId,
    now: u64,
)
    requires
        swim::tells(msg, id, state, teller),
        id != b.local@,
        !b.members.contains_key(id),
    ensures
        ({
            let after = swim::after_message(b, msg, now).0;
            &&& after.members.contains_key(id)
            &&& msg matches WireMessage::SwimSuspect { from, .. } ==> from@ == teller@
            &&& msg matches WireMessage::SwimDead { from, .. } ==> from@ == teller@
            &&& match state {
                MemberState::Alive { incarnation } => after.members[id] == (MemberState::Alive {
                    incarnation,
                }),
                MemberState::Suspect { incarnation, .. } => after.members[id] == (
                MemberState::Suspect { incarnation, since: now }),
                MemberState::Dead { incarnation } => after.members[id] == (MemberState::Dead {
                    incarnation,
                }),
            }
        }),
{
}

/// A connection for one of the three protocols goes where it belongs, one of a client only
/// where someone answers, and any other is dropped.
pub proof fn lemma_routes(alpn: Seq<u8>, has_rpc: bool)
    ensures
        endpoint::route_for(alpn, has_rpc) == Route::Node <==> alpn == endpoint::ALPN_CRAFTEC@,
        endpoint::route_for(alpn, has_rpc) == Route::Swim <==> alpn == endpoint::ALPN_SWIM@,
        endpoint::route_for(alpn, has_rpc) == Route::Rpc <==> alpn == endpoint::ALPN_RPC@
            && has_rpc,
        endpoint::ALPN_CRAFTEC@.len() == 11,
        endpoint::ALPN_SWIM@.len() == 16,
        endpoint::ALPN_RPC@.len() == 14,
{
    endpoint::lemma_alpn_distinct();
}

/// The messages about membership are those of the membership protocol.
pub proof fn lemma_membership_messages(msg: WireMessage)
    ensures
        msg.is_membership() <==> (msg is SwimJoin || msg is SwimAlive || msg is SwimSuspect
            || msg is SwimDead || msg is SwimPing || msg is SwimPingAck),
{
}

/// A connection is given up when it is closed, when reading fails, or when an answer cannot be
/// sent, and not for a slow or unreadable stream. A message with a bad time is dropped on the
/// connections that others opened; else the membership gets its messages, and on a membership
/// connection all, and the handler gets the others on a connection that a node opened.
pub proof fn lemma_stream(kind: StreamKind, msg: WireMessage, clock_ok: bool)
    ensures
        endpoint::stream_action(kind, StreamEvent::Closed) is Stop,
        endpoint::stream_action(kind, StreamEvent::ReadFailed) is Stop,
        endpoint::stream_action(kind, StreamEvent::ReplyFailed) is Stop,
        endpoint::stream_action(kind, StreamEvent::TimedOut) is Next,
        endpoint::stream_action(kind, StreamEvent::Undecodable) is Next,
        ({
            let action = endpoint::stream_action(kind, StreamEvent::Received { msg, clock_ok });
            let about_members = msg is SwimJoin || msg is SwimAlive || msg is SwimSuspect
                || msg is SwimDead || msg is SwimPing || msg is SwimPingAck;
            &&& kind != StreamKind::Outbound && !clock_ok ==> action is Next
            &&& (clock_ok || kind == StreamKind::Outbound) && (about_members || kind
                == StreamKind::Swim) ==> action == StreamAction::Membership(msg)
            &&& clock_ok && kind == StreamKind::Node && !about_members ==> action
                == StreamAction::Handle(msg)
            &&& kind == StreamKind::Outbound && !about_members ==> action is Next
        }),
{
}

/// A membership message from a connection is taken in like any other; an acknowledgement makes
/// its sender alive under its incarnation, and a probe makes it alive first and then has its
/// messages taken in. A probe is acknowledged with its number and the incarnation that then
/// is, a join with an announcement, and nothing else is answered.
pub proof fn lemma_exchange(b: Beliefs, msg: WireMessage, now: u64)
    ensures
        ({
            let (after, reply) = endpoint::swim_exchange(b, msg, now);
            &&& msg is SwimAlive || msg is SwimSuspect || msg is SwimDead ==> after
                == swim::after_message(b, msg, now).0 && reply is None
            &&& msg is SwimJoin ==> after == swim::after_message(b, msg, now).0 && reply == Some(
                WireMessage::SwimAlive { node_id: b.local, incarnation: b.incarnation },
            )
            &&& msg matches WireMessage::SwimPingAck { from, incarnation, .. } ==> reply is None
                && after == swim::after_message(
                b,
                WireMessage::SwimAlive { node_id: from, incarnation },
                now,
            ).0
            &&& msg matches WireMessage::SwimPing { from, nonce, .. } ==> {
                let met = swim::after_message(
                    b,
                    WireMessage::SwimAlive { node_id: from, incarnation: 0 },
                    now,
                ).0;
                &&& after == swim::after_message(met, msg, now).0
                &&& reply == Some(
                    WireMessage::SwimPingAck {
                        from: after.local,
                        nonce,
                        incarnation: after.incarnation,
                    },
                )
            }
            &&& !(msg is SwimAlive || msg is SwimSuspect || msg is SwimDead || msg is SwimJoin
                || msg is SwimPingAck || msg is SwimPing) ==> after == b && reply is None
        }),
{
}

/// The first `@` is found: none stands before it, and it is the length where there is none.
pub proof fn lemma_first_at(text: Seq<char>, i: int)
    requires
        0 <= i <= text.len(),
    ensures
        i <= endpoint::at_sign(text, i) <= text.len(),
        endpoint::at_sign(text, i) < text.len() ==> text[endpoint::at_sign(text, i)] == '@',
        forall|j: int| i <= j < endpoint::at_sign(text, i) ==> #[trigger] text[j] != '@',
    decreases text.len() - i,
{
    if i < text.len() && text[i] != '@' {
        lemma_first_at(text, i + 1);
    }
}

/// A node identifier in hexadecimal has 64 digits, and every 64 digits are one.
pub proof fn lemma_node_hex(text: Seq<char>)
    ensures
        endpoint::is_node_hex(text) <==> text.len() == 64 && forall|i: int|
            0 <= i < 64 ==> ('0' <= #[trigger] text[i] <= '9' || 'a' <= text[i] <= 'f' || 'A'
                <= text[i] <= 'F'),
{
}

/// Something is known of a peer exactly if it is a member or there is a connection to it.
pub proof fn lemma_known(
    peer: Seq<u8>,
    members: Map<Seq<u8>, MemberState>,
    connections: Map<Seq<u8>, PooledConnection>,
)
    ensures
        endpoint::is_known(peer, members, connections) <==> members.dom().contains(peer)
            || connections.dom().contains(peer),
{
}

/// Room is made in a full pool only, and by one connection: one that was unused for at least
/// as long as any other. All others stay as they were.
pub proof fn lemma_room_made(
    keys: Seq<Seq<u8>>,
    all: Map<Seq<u8>, PooledConnection>,
    max: nat,
    key: Seq<u8>,
)
    requires
        keys.no_duplicates(),
        keys.to_set() == all.dom(),
    ensures
        ({
            let kept = pool::after_eviction(keys, all, max);
            &&& keys.len() < max ==> kept == all
            &&& keys.len() >= max && keys.len() > 0 ==> exists|gone: Seq<u8>|
                all.contains_key(gone) && kept == #[trigger] all.remove(gone) && forall|k: Seq<u8>|
                    all.contains_key(k) ==> all[gone].last_used <= (#[trigger] all[k]).last_used
        }),
{
    if keys.len() >= max && keys.len() > 0 {
        let slot = pool::oldest_slot(keys, all, keys.len() as int);
        pool::lemma_oldest(keys, all, keys.len() as int);
        let gone = keys[slot];
        assert(keys.contains(gone));
        assert(keys.to_set().contains(gone));
        assert(pool::after_eviction(keys, all, max) == all.remove(gone));
        assert forall|k: Seq<u8>| all.contains_key(k) implies all[gone].last_used <= (
        #[trigger] all[k]).last_used by {
            assert(keys.to_set().contains(k));
            let i = choose|i: int| 0 <= i < keys.len() && keys[i] == k;
            assert(keys[i] == k);
        }
    }
}

/// One connection more counts as idle exactly if it was last used before the given time.
pub proof fn lemma_idle_step(
    keys: Seq<Seq<u8>>,
    all: Map<Seq<u8>, PooledConnection>,
    cutoff: int,
    n: int,
)
    requires
        0 <= n < keys.len(),
    ensures
        pool::idle_keys(keys, all, cutoff, 0).len() == 0,
        pool::idle_keys(keys, all, cutoff, n + 1) == (if all[keys[n]].last_used < cutoff {
            pool::idle_keys(keys, all, cutoff, n).push(keys[n])
        } else {
            pool::idle_keys(keys, all, cutoff, n)
        }),
{
}

/// A node that is no longer a provider of a content is none; the other providers stay, a
/// content without providers is forgotten, and other contents are not touched.
pub proof fn lemma_provider_removed(
    all: Map<Seq<u8>, Set<Seq<u8>>>,
    cid: Seq<u8>,
    id: Seq<u8>,
    other: Seq<u8>,
)
    requires
        all.contains_key(cid) ==> all[cid].finite(),
    ensures
        ({
            let after = dht::without_provider(all, cid, id);
            &&& !dht::providers_of(after, cid).contains(id)
            &&& other != id ==> (dht::providers_of(after, cid).contains(other)
                <==> dht::providers_of(all, cid).contains(other))
            &&& other != cid ==> (after.contains_key(other) <==> all.contains_key(other))
                && after[other] == all[other]
            &&& after.contains_key(cid) ==> after[cid].len() > 0
        }),
{
    let left = dht::providers_of(all, cid).remove(id);
    if all.contains_key(cid) && left.len() == 0 {
        assert(left =~= Set::<Seq<u8>>::empty());
        if dht::providers_of(all, cid).contains(other) && other != id {
            assert(left.contains(other));
        }
    }
}

/// The providers of a content are those on record, and none where nothing is.
pub proof fn lemma_providers_of(all: Map<Seq<u8>, Set<Seq<u8>>>, cid: Seq<u8>, id: Seq<u8>)
    ensures
        dht::providers_of(all, cid).contains(id) <==> all.contains_key(cid) && all[cid].contains(
            id,
        ),
{
}

/// Pairs of contents and providers are counted content by content.
pub proof fn lemma_pairs(all: Map<Seq<u8>, Set<Seq<u8>>>, keys: Seq<Seq<u8>>, n: int)
    requires
        0 <= n < keys.len(),
    ensures
        dht::pairs(all, keys, 0) == 0,
        dht::pairs(all, keys, n + 1) == dht::pairs(all, keys, n) + all[keys[n]].len(),
{
}

/// The fan-out is the least positive number whose power of `e` is no less than the number of
/// peers.
pub proof fn lemma_fanout_least(n: nat, m: nat)
    requires
        1 <= m <= 45,
        forall|j: int| 1 <= j < m ==> n > #[trigger] dht::E_POWERS@[j],
        m < 45 ==> n <= dht::E_POWERS@[m as int],
    ensures
        dht::fanout_from(n, 1) == m,
{
    lemma_fanout_walk(n, m, 1);
}

/// The powers start with one, and each is the one before times `e`, between 2.718281828 and
/// 2.718281829, as far as rounding down lets them.
pub proof fn lemma_e_powers(m: int)
    requires
        0 <= m < 44,
    ensures
        dht::E_POWERS@[0] == 1,
        1_000_000_000 * dht::E_POWERS@[m + 1] < 2_718_281_829 * (dht::E_POWERS@[m] + 1),
        1_000_000_000 * (dht::E_POWERS@[m + 1] + 1) > 2_718_281_828 * dht::E_POWERS@[m],
{
}

proof fn lemma_fanout_walk(n: nat, m: nat, from: nat)
    requires
        1 <= from <= m <= 45,
        forall|j: int| 1 <= j < m ==> n > #[trigger] dht::E_POWERS@[j],
        m < 45 ==> n <= dht::E_POWERS@[m as int],
    ensures
        dht::fanout_from(n, from) == m,
    decreases m - from,
{
    if from < m {
        assert(n > dht::E_POWERS@[from as int]);
        lemma_fanout_walk(n, m, from + 1);
    }
}

/// A task waits no longer once it has waited for the given time, or gave up.
pub proof fn lemma_waits(e: PendingEntry, now: u64, max_age: u64, closed: Seq<u64>)
    ensures
        closed.contains(e.ticket) ==> !pending::still_waits(e, now, max_age, closed),
        e.registered_at + max_age <= now ==> !pending::still_waits(e, now, max_age, closed),
        !closed.contains(e.ticket) && e.registered_at + max_age > now && max_age > 0
            ==> pending::still_waits(e, now, max_age, closed),
{
}

/// One task more stays behind the others exactly if it still waits; else its ticket is told.
pub proof fn lemma_waiting_step(
    row: Seq<PendingEntry>,
    e: PendingEntry,
    now: u64,
    max_age: u64,
    closed: Seq<u64>,
)
    ensures
        pending::waiting_entries(Seq::empty(), now, max_age, closed).len() == 0,
        pending::stale_in(Seq::empty(), now, max_age, closed).len() == 0,
        pending::still_waits(e, now, max_age, closed) ==> {
            &&& pending::waiting_entries(row.push(e), now, max_age, closed)
                == pending::waiting_entries(row, now, max_age, closed).push(e)
            &&& pending::stale_in(row.push(e), now, max_age, closed) == pending::stale_in(
                row,
                now,
                max_age,
                closed,
            )
        },
        !pending::still_waits(e, now, max_age, closed) ==> {
            &&& pending::waiting_entries(row.push(e), now, max_age, closed)
                == pending::waiting_entries(row, now, max_age, closed)
            &&& pending::stale_in(row.push(e), now, max_age, closed) == pending::stale_in(
                row,
                now,
                max_age,
                closed,
            ).push(e.ticket)
        },
{
    assert(row.push(e).drop_last() =~= row);
}

/// Tasks are counted content by content: all of them, and those that no longer wait, as many
/// as tickets are told. A number too large to tell is told as the largest.
pub proof fn lemma_pending_counts(
    all: Map<Seq<u8>, Seq<PendingEntry>>,
    keys: Seq<Seq<u8>>,
    n: int,
    now: u64,
    max_age: u64,
    closed: Seq<u64>,
    count: nat,
)
    requires
        0 <= n < keys.len(),
    ensures
        pending::entry_count(all, keys, 0) == 0,
        pending::entry_count(all, keys, n + 1) == pending::entry_count(all, keys, n)
            + all[keys[n]].len(),
        pending::stale_under(all, keys, 0, now, max_age, closed).len() == 0,
        pending::stale_under(all, keys, n + 1, now, max_age, closed) == pending::stale_under(
            all,
            keys,
            n,
            now,
            max_age,
            closed,
        ) + pending::stale_in(all[keys[n]], now, max_age, closed),
        pending::stale_count(all, keys, n + 1, now, max_age, closed) == pending::stale_under(
            all,
            keys,
            n + 1,
            now,
            max_age,
            closed,
        ).len(),
        count <= usize::MAX ==> pending::capped(count) == count,
        count > usize::MAX ==> pending::capped(count) == usize::MAX,
{
    lemma_stale_numbers(all, keys, n + 1, now, max_age, closed);
}

proof fn lemma_stale_numbers(
    all: Map<Seq<u8>, Seq<PendingEntry>>,
    keys: Seq<Seq<u8>>,
    n: int,
    now: u64,
    max_age: u64,
    closed: Seq<u64>,
)
    requires
        0 <= n <= keys.len(),
    ensures
        pending::stale_count(all, keys, n, now, max_age, closed) == pending::stale_under(
            all,
            keys,
            n,
            now,
            max_age,
            closed,
        ).len(),
    decreases n,
{
    if n > 0 {
        lemma_stale_numbers(all, keys, n - 1, now, max_age, closed);
        pending::lemma_stale_or_waiting(all[keys[n - 1]], now, max_age, closed);
    }
}

/// The tasks that wait for a content are those on record, and none where nothing is.
pub proof fn lemma_entries_of(all: Map<Seq<u8>, Seq<PendingEntry>>, cid: Seq<u8>)
    ensures
        all.contains_key(cid) ==> pending::entries_of(all, cid) == all[cid],
        !all.contains_key(cid) ==> pending::entries_of(all, cid).len() == 0,
{
}

/// A message was sent exactly if there is no reason why it was not, and the reason is what the
/// step that failed says. Errors name the peer.
pub proof fn lemma_send_told(outcome: SendOutcome, e: NetError, peer: NodeId, why: Seq<char>)
    ensures
        outcome.reason() is None <==> outcome is Sent,
        outcome matches SendOutcome::NotConnected(s) ==> outcome.reason() == Some(s@),
        outcome matches SendOutcome::NotOpened(s) ==> text::holds(outcome.reason()->0, s@),
        outcome matches SendOutcome::NotWritten(s) ==> text::holds(outcome.reason()->0, s@),
        outcome matches SendOutcome::NotFinished(s) ==> text::holds(outcome.reason()->0, s@),
        endpoint::tells_unknown(e, peer) ==> e is PeerNotFound && hexadecimal::hex_bytes(
            e->PeerNotFound_0@,
        ) == peer@,
        endpoint::tells_failure(e, peer, why) ==> e is ConnectionFailed && hexadecimal::hex_bytes(
            e->ConnectionFailed_peer@,
        ) == peer@ && e->ConnectionFailed_reason@ == why,
{
    let none = Seq::<char>::empty();
    hexadecimal::lemma_hex_round_trip(peer@);
    match outcome {
        SendOutcome::NotOpened(s) => {
            types::laws::lemma_parts_held("open_uni failed: "@, s@, none, none, none);
        },
        SendOutcome::NotWritten(s) => {
            types::laws::lemma_parts_held("write_all failed: "@, s@, none, none, none);
        },
        SendOutcome::NotFinished(s) => {
            types::laws::lemma_parts_held("stream finish failed: "@, s@, none, none, none);
        },
        _ => {},
    }
}

/// What is told of an error holds all that the error carries.
pub proof fn lemma_error_told(e: NetError)
    ensures
        e matches NetError::ConnectionFailed { peer, reason } ==> text::holds(e.words(), peer@)
            && text::holds(e.words(), reason@),
        e matches NetError::Timeout { millis } ==> text::holds(
            e.words(),
            text::decimal(millis as nat),
        ),
        e matches NetError::PeerNotFound(s) ==> text::holds(e.words(), s@),
        e matches NetError::ProtocolError(s) ==> text::holds(e.words(), s@),
        e matches NetError::BootstrapFailed(s) ==> text::holds(e.words(), s@),
        e matches NetError::SerializationError(s) ==> text::holds(e.words(), s@),
        e matches NetError::Io(s) ==> text::holds(e.words(), s@),
{
    let none = Seq::<char>::empty();
    match e {
        NetError::ConnectionFailed { peer, reason } => {
            types::laws::lemma_parts_held(
                "connection failed to peer "@,
                peer@,
                ": "@,
                reason@,
                none,
            );
        },
        NetError::Timeout { millis } => {
            types::laws::lemma_parts_held(
                "network operation timed out after "@,
                text::decimal(millis as nat),
                "ms"@,
                none,
                none,
            );
        },
        NetError::PeerNotFound(s) => {
            types::laws::lemma_parts_held("peer not found: "@, s@, none, none, none);
        },
        NetError::ProtocolError(s) => {
            types::laws::lemma_parts_held("protocol error: "@, s@, none, none, none);
        },
        NetError::BootstrapFailed(s) => {
            types::laws::lemma_parts_held("bootstrap failed: "@, s@, none, none, none);
        },
        NetError::SerializationError(s) => {
            types::laws::lemma_parts_held("serialization error: "@, s@, none, none, none);
        },
        NetError::Io(s) => {
            types::laws::lemma_parts_held("I/O error: "@, s@, none, none, none);
        },
    }
}

/// The limits: a node is suspected for three periods of half a second, gossip speaks of four
/// members at a time, a message has four mebibytes and one about membership a sixty-fourth of
/// that, a stream is read for half a minute, and of at most 256 connections the unused ones go
/// after five minutes. The three protocols are named in ASCII.
pub proof fn lemma_limits()
    ensures
        swim::DEFAULT_SUSPECT_TIMEOUT == 3 * swim::DEFAULT_PROTOCOL_PERIOD,
        2 * swim::DEFAULT_PROTOCOL_PERIOD == 1000,
        swim::GOSSIP_LIMIT == 4,
        endpoint::MAX_MESSAGE_BYTES == 4 * 1024 * 1024,
        64 * endpoint::MAX_SWIM_BYTES == endpoint::MAX_MESSAGE_BYTES,
        endpoint::STREAM_READ_TIMEOUT == 30 * 1000,
        endpoint::MAX_CONCURRENT_RPC_STREAMS == 16,
        pool::DEFAULT_MAX_CONNECTIONS == 256,
        pool::DEFAULT_IDLE_TIMEOUT == 5 * 60 * 1000,
{
}

/// Those who are picked are among the peers, at most as many as there are, and none is picked
/// more often than it is among them.
pub proof fn lemma_picked(picked: Seq<NodeId>, peers: Seq<NodeId>, i: int, j: int)
    requires
        dht::picked_from(picked, peers),
    ensures
        0 <= i < picked.len() ==> peers.contains(picked[i]),
        dht::ids_distinct(peers) && 0 <= i < j < picked.len() ==> picked[i]@ != picked[j]@,
        picked.len() <= peers.len(),
{
    let places = choose|places: Seq<int>| #[trigger] dht::places_ok(places, picked, peers);
    if 0 <= i < picked.len() {
        assert(picked[i] == peers[places[i]]);
    }
    if dht::ids_distinct(peers) && 0 <= i < j < picked.len() {
        assert(places[i] != places[j]);
        assert(picked[i] == peers[places[i]] && picked[j] == peers[places[j]]);
    }
    let all = Set::new(|x: int| 0 <= x < peers.len());
    vstd::set_lib::lemma_int_range(0, peers.len() as int);
    assert(all =~= vstd::set_lib::set_int_range(0, peers.len() as int));
    assert(places.to_set().subset_of(all)) by {
        assert forall|x: int| places.to_set().contains(x) implies all.contains(x) by {
            let at = choose|at: int| 0 <= at < places.len() && places[at] == x;
            assert(0 <= places[at] < peers.len());
        }
    }
    places.unique_seq_to_set();
    vstd::set_lib::lemma_len_subset(places.to_set(), all);
}

/// The messages of gossip tell the state of each member that they speak of, in its turn.
pub proof fn lemma_gossip_tells(
    msgs: Seq<WireMessage>,
    keys: Seq<Seq<u8>>,
    members: Map<Seq<u8>, MemberState>,
    teller: NodeId,
    limit: nat,
    i: int,
)
    requires
        swim::tell_first(msgs, keys, members, teller, limit),
        0 <= i < msgs.len(),
    ensures
        members[keys[i]] matches MemberState::Alive { incarnation: n } ==> (
        msgs[i] matches WireMessage::SwimAlive { node_id, incarnation } && node_id@ == keys[i]
            && incarnation == n),
        members[keys[i]] matches MemberState::Suspect { incarnation: n, .. } ==> (
        msgs[i] matches WireMessage::SwimSuspect { node_id, incarnation, from } && node_id@
            == keys[i] && incarnation == n && from == teller),
        members[keys[i]] matches MemberState::Dead { incarnation: n } ==> (
        msgs[i] matches WireMessage::SwimDead { node_id, incarnation, from } && node_id@ == keys[i]
            && incarnation == n && from == teller),
{
    assert(swim::tells(msgs[i], keys[i], members[keys[i]], teller));
}

}
