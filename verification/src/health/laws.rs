//! What holders, scans, elections and repairs promise.

use crate::health::coordinator;
use crate::health::coordinator::NodeRanking;
use crate::health::error::HealthError;
use crate::health::repair;
use crate::health::repair::RepairRequest;
use crate::health::repair::RepairStep;
use crate::health::scanner;
use crate::health::tracker;
use crate::health::tracker::Keep;
use crate::health::tracker::PieceHolder;
use crate::health::tracker::TrackerView;
use crate::outside::hexadecimal;
use crate::rlnc::engine::RlncMetrics;
use crate::types;
use crate::types::bytes;
use crate::types::cid::Cid;
use crate::types::node_id;
use crate::types::node_id::NodeId;
use crate::types::order;
use crate::types::text;
use vstd::prelude::*;

verus! {

/// The holders of a content are those on record, and none where nothing is.
pub proof fn lemma_holders_of(view: TrackerView, cid: Seq<u8>)
    ensures
        view.holders.contains_key(cid) ==> tracker::holders_of(view, cid) == view.holders[cid],
        !view.holders.contains_key(cid) ==> tracker::holders_of(view, cid).len() == 0,
{
}

/// Recording a node keeps every other record where it was. A node on record keeps its place,
/// with the larger of both counts and the new time; another one comes last, as it was told.
pub proof fn lemma_recorded(holders: Seq<PieceHolder>, news: PieceHolder)
    ensures
        ({
            let after = tracker::recorded(holders, news);
            let known = exists|i: int|
                0 <= i < holders.len() && (#[trigger] holders[i]).node_id@ == news.node_id@;
            &&& after.len() == holders.len() + if known {
                0int
            } else {
                1int
            }
            &&& !known ==> after.last() == news
            &&& forall|i: int|
                0 <= i < holders.len() && (#[trigger] holders[i]).node_id@ != news.node_id@
                    ==> after[i] == holders[i]
            &&& forall|i: int|
                0 <= i < holders.len() && (#[trigger] holders[i]).node_id@ == news.node_id@ ==> {
                    &&& after[i].node_id == holders[i].node_id
                    &&& after[i].last_seen == news.last_seen
                    &&& after[i].piece_count >= holders[i].piece_count
                    &&& after[i].piece_count >= news.piece_count
                    &&& after[i].piece_count == holders[i].piece_count || after[i].piece_count
                        == news.piece_count
                }
        }),
{
}

/// The total counts every piece of every holder once.
pub proof fn lemma_total(holders: Seq<PieceHolder>, h: PieceHolder)
    ensures
        tracker::total(Seq::empty()) == 0,
        tracker::total(holders.push(h)) == tracker::total(holders) + h.piece_count,
{
    assert(holders.push(h).drop_last() =~= holders);
}

/// Totals of lists add up.
pub proof fn lemma_totals_add(a: Seq<PieceHolder>, b: Seq<PieceHolder>)
    ensures
        tracker::total(a + b) == tracker::total(a) + tracker::total(b),
    decreases b.len(),
{
    if b.len() == 0 {
        assert(a + b =~= a);
    } else {
        assert((a + b).drop_last() =~= a + b.drop_last());
        lemma_totals_add(a, b.drop_last());
    }
}

/// A node holds as many pieces as its record says, and none without a record.
pub proof fn lemma_count(holders: Seq<PieceHolder>, node: Seq<u8>, i: int)
    requires
        forall|a: int, b: int|
            0 <= a < holders.len() && 0 <= b < holders.len() && a != b ==> (
            #[trigger] holders[a]).node_id@ != (#[trigger] holders[b]).node_id@,
    ensures
        0 <= i < holders.len() && holders[i].node_id@ == node ==> tracker::count_of(holders, node)
            == holders[i].piece_count,
        (forall|j: int| 0 <= j < holders.len() ==> (#[trigger] holders[j]).node_id@ != node)
            ==> tracker::count_of(holders, node) == 0,
{
    tracker::lemma_count_holds(holders, node);
}

/// One record more stays behind the others where it is of another node than the one that
/// goes, or was confirmed less than the age ago; else it goes. No other record is touched.
pub proof fn lemma_remaining_step(
    holders: Seq<PieceHolder>,
    h: PieceHolder,
    node: NodeId,
    max_age: u64,
    now: u64,
)
    ensures
        tracker::remaining(Seq::empty(), Keep::AllBut(node)).len() == 0,
        tracker::remaining(Seq::empty(), Keep::Younger { max_age, now }).len() == 0,
        tracker::remaining(holders.push(h), Keep::AllBut(node)) == (if h.node_id@ != node@ {
            tracker::remaining(holders, Keep::AllBut(node)).push(h)
        } else {
            tracker::remaining(holders, Keep::AllBut(node))
        }),
        tracker::remaining(holders.push(h), Keep::Younger { max_age, now }) == (if h.last_seen
            + max_age > now {
            tracker::remaining(holders, Keep::Younger { max_age, now }).push(h)
        } else {
            tracker::remaining(holders, Keep::Younger { max_age, now })
        }),
{
    assert(holders.push(h).drop_last() =~= holders);
}

/// Whether a rule lets a record stay.
spec fn lasts(rule: Keep, h: PieceHolder) -> bool {
    match rule {
        Keep::AllBut(node) => h.node_id@ != node@,
        Keep::Younger { max_age, now } => h.last_seen + max_age > now,
    }
}

proof fn lemma_remaining_members(holders: Seq<PieceHolder>, rule: Keep, h: PieceHolder)
    ensures
        tracker::remaining(holders, rule).contains(h) <==> holders.contains(h) && lasts(rule, h),
        tracker::remaining(holders, rule).len() <= holders.len(),
        tracker::remaining(holders, rule).len() > 0 <==> exists|i: int|
            0 <= i < holders.len() && lasts(rule, #[trigger] holders[i]),
    decreases holders.len(),
{
    if holders.len() > 0 {
        let front = holders.drop_last();
        let last = holders.last();
        lemma_remaining_members(front, rule, h);
        match rule {
            Keep::AllBut(node) => lemma_remaining_step(front, last, node, 0, 0),
            Keep::Younger { max_age, now } => lemma_remaining_step(
                front,
                last,
                NodeId { bytes: last.node_id.bytes },
                max_age,
                now,
            ),
        }
        assert(front.push(last) =~= holders);
        let before = tracker::remaining(front, rule);
        let all = tracker::remaining(holders, rule);
        if before.contains(h) {
            let j = choose|j: int| 0 <= j < before.len() && before[j] == h;
            assert(all[j] == h);
        }
        if all.contains(h) {
            let j = choose|j: int| 0 <= j < all.len() && all[j] == h;
            if j < before.len() {
                assert(before[j] == h);
            }
        }
        if holders.contains(h) {
            let j = choose|j: int| 0 <= j < holders.len() && holders[j] == h;
            if j < front.len() {
                assert(front[j] == h);
            } else if lasts(rule, h) {
                assert(all[all.len() - 1] == h);
            }
        }
        if front.contains(h) {
            let j = choose|j: int| 0 <= j < front.len() && front[j] == h;
            assert(holders[j] == h);
        }
        if h == last {
            assert(holders[holders.len() - 1] == h);
        }
        if before.len() > 0 {
            let i = choose|i: int| 0 <= i < front.len() && lasts(rule, #[trigger] front[i]);
            assert(lasts(rule, holders[i]));
        }
        if exists|i: int| 0 <= i < holders.len() && lasts(rule, #[trigger] holders[i]) {
            let i = choose|i: int| 0 <= i < holders.len() && lasts(rule, #[trigger] holders[i]);
            if i < front.len() {
                assert(lasts(rule, front[i]));
            }
        }
        if lasts(rule, last) {
            assert(lasts(rule, holders[holders.len() - 1]));
        }
    }
}

/// After a node was forgotten, the records of a content are those of the other nodes, and a
/// content is listed exactly if another node holds pieces of it. The contents whose sizes go
/// are those that had no other holder.
pub proof fn lemma_node_forgotten(
    before: Map<Seq<u8>, Seq<PieceHolder>>,
    after: Map<Seq<u8>, Seq<PieceHolder>>,
    node: NodeId,
    cid: Seq<u8>,
    h: PieceHolder,
)
    requires
        tracker::thinned(before, after, Keep::AllBut(node)),
    ensures
        after.contains_key(cid) <==> before.contains_key(cid) && exists|i: int|
            0 <= i < before[cid].len() && (#[trigger] before[cid][i]).node_id@ != node@,
        after.contains_key(cid) ==> (after[cid].contains(h) <==> before[cid].contains(h)
            && h.node_id@ != node@),
        tracker::emptied(before, Keep::AllBut(node)).contains(cid) <==> before.contains_key(cid)
            && forall|i: int|
            0 <= i < before[cid].len() ==> (#[trigger] before[cid][i]).node_id@ == node@,
{
    let rule = Keep::AllBut(node);
    lemma_remaining_members(before[cid], rule, h);
    if exists|i: int| 0 <= i < before[cid].len() && lasts(rule, #[trigger] before[cid][i]) {
        let i = choose|i: int| 0 <= i < before[cid].len() && lasts(rule, #[trigger] before[cid][i]);
        assert(before[cid][i].node_id@ != node@);
    }
    if exists|i: int|
        0 <= i < before[cid].len() && (#[trigger] before[cid][i]).node_id@ != node@ {
        let i = choose|i: int|
            0 <= i < before[cid].len() && (#[trigger] before[cid][i]).node_id@ != node@;
        assert(lasts(rule, before[cid][i]));
    }
}

/// After stale records were dropped, the records of a content are those confirmed less than
/// the age ago, and a content is listed exactly if it has such a record.
pub proof fn lemma_stale_dropped(
    before: Map<Seq<u8>, Seq<PieceHolder>>,
    after: Map<Seq<u8>, Seq<PieceHolder>>,
    max_age: u64,
    now: u64,
    cid: Seq<u8>,
    h: PieceHolder,
)
    requires
        tracker::thinned(before, after, Keep::Younger { max_age, now }),
    ensures
        after.contains_key(cid) <==> before.contains_key(cid) && exists|i: int|
            0 <= i < before[cid].len() && (#[trigger] before[cid][i]).last_seen + max_age > now,
        after.contains_key(cid) ==> (after[cid].contains(h) <==> before[cid].contains(h)
            && h.last_seen + max_age > now),
{
    let rule = Keep::Younger { max_age, now };
    lemma_remaining_members(before[cid], rule, h);
    if exists|i: int| 0 <= i < before[cid].len() && lasts(rule, #[trigger] before[cid][i]) {
        let i = choose|i: int| 0 <= i < before[cid].len() && lasts(rule, #[trigger] before[cid][i]);
        assert(before[cid][i].last_seen + max_age > now);
    }
    if exists|i: int|
        0 <= i < before[cid].len() && (#[trigger] before[cid][i]).last_seen + max_age > now {
        let i = choose|i: int|
            0 <= i < before[cid].len() && (#[trigger] before[cid][i]).last_seen + max_age > now;
        assert(lasts(rule, before[cid][i]));
    }
}

/// The number of records that go is counted content by content: what goes and what stays of
/// each is what there was. A number too large to tell is told as the largest.
pub proof fn lemma_dropped(
    holders: Map<Seq<u8>, Seq<PieceHolder>>,
    order: Seq<Seq<u8>>,
    n: int,
    rule: Keep,
    count: nat,
)
    requires
        0 <= n < order.len(),
    ensures
        tracker::dropped(holders, order, 0, rule) == 0,
        tracker::dropped(holders, order, n + 1, rule) + tracker::remaining(
            holders[order[n]],
            rule,
        ).len() == tracker::dropped(holders, order, n, rule) + holders[order[n]].len(),
        count <= usize::MAX ==> tracker::capped(count) == count,
        count > usize::MAX ==> tracker::capped(count) == usize::MAX,
{
    lemma_remaining_members(holders[order[n]], rule, holders[order[n]][0]);
}

/// The size of a generation is the one on record, and 32 where none is.
pub proof fn lemma_size(view: TrackerView, cid: Seq<u8>)
    ensures
        view.ks.contains_key(cid) ==> scanner::size_of(view, cid) == view.ks[cid],
        !view.ks.contains_key(cid) ==> scanner::size_of(view, cid) == 32,
{
}

/// The target is the least multiple of the generation size that is twice the size and
/// sixteen more, at least; a size of zero counts as one.
pub proof fn lemma_target_least(k: nat, multiple: nat, factor: nat)
    requires
        k > 0,
        multiple == factor * k,
    ensures
        scanner::target_spec(k) % k == 0,
        scanner::target_spec(k) >= 2 * k + 16,
        multiple >= 2 * k + 16 ==> scanner::target_spec(k) <= multiple,
        scanner::target_spec(0) == 18,
{
    scanner::lemma_target(k);
    let c = (16 + k - 1) as nat / k;
    if multiple >= 2 * k + 16 {
        assert(factor >= 2 + c) by (nonlinear_arith)
            requires
                factor * k >= 2 * k + 16,
                k > 0,
                c == (16 + k - 1) as nat / k,
        ;
        assert(factor * k >= k * (2 + c)) by (nonlinear_arith)
            requires
                factor >= 2 + c,
        ;
    }
    assert((16 + 1 - 1) as nat / 1 == 16) by (nonlinear_arith);
}

/// A request is made exactly for a content with fewer pieces than its target: a critical one
/// where they do not suffice for decoding, else a normal one, with the numbers that are.
pub proof fn lemma_need(view: TrackerView, cid: Cid, k: u32, target: u32, pieces: u32)
    requires
        k == scanner::size_of(view, cid@),
        pieces == tracker::total(tracker::holders_of(view, cid@)),
        target == scanner::target_spec(k as nat),
    ensures
        scanner::need(view, cid) is Some <==> pieces < target,
        pieces < k ==> scanner::need(view, cid) == Some(
            RepairRequest::Critical { cid, available: pieces, k },
        ),
        k <= pieces < target ==> scanner::need(view, cid) == Some(
            RepairRequest::Normal { cid, available: pieces, target },
        ),
        pieces >= target ==> scanner::need(view, cid) is None,
{
    if k > 0 {
        scanner::lemma_target(k as nat);
    } else {
        lemma_target_least(1, 0, 0);
    }
}

/// Every content that needs something is reported in its turn, with what it needs, and no
/// other.
pub proof fn lemma_needs_step(view: TrackerView, cids: Seq<Cid>, cid: Cid)
    ensures
        scanner::needs(view, Seq::empty()).len() == 0,
        scanner::need(view, cid) is None ==> scanner::needs(view, cids.push(cid))
            == scanner::needs(view, cids),
        scanner::need(view, cid) is Some ==> scanner::needs(view, cids.push(cid))
            == scanner::needs(view, cids).push(scanner::need(view, cid)->0),
{
    assert(cids.push(cid).drop_last() =~= cids);
}

/// A node scans exactly the contents of which its record has two pieces or more.
pub proof fn lemma_recodable(view: TrackerView, cids: Seq<Cid>, node: Seq<u8>, cid: Cid)
    requires
        forall|c: Seq<u8>| tracker::one_record_each(#[trigger] tracker::holders_of(view, c)),
    ensures
        scanner::recodable(view, cids, node).contains(cid) <==> cids.contains(cid) && exists|i: int|
            0 <= i < tracker::holders_of(view, cid@).len() && (#[trigger] tracker::holders_of(
                view,
                cid@,
            )[i]).node_id@ == node && tracker::holders_of(view, cid@)[i].piece_count >= 2,
    decreases cids.len(),
{
    let holders = tracker::holders_of(view, cid@);
    let able = exists|i: int|
        0 <= i < holders.len() && (#[trigger] holders[i]).node_id@ == node
            && holders[i].piece_count >= 2;
    assert(tracker::one_record_each(holders));
    tracker::lemma_count_holds(holders, node);
    if tracker::count_of(holders, node) >= 2 {
        assert(tracker::has_holder(holders, node));
        let i = choose|i: int| 0 <= i < holders.len() && (#[trigger] holders[i]).node_id@ == node;
        assert(holders[i].piece_count >= 2);
    }
    assert(able <==> tracker::count_of(holders, node) >= 2);
    if cids.len() > 0 {
        let shorter = cids.drop_last();
        lemma_recodable(view, shorter, node, cid);
        let front = scanner::recodable(view, shorter, node);
        let all = scanner::recodable(view, cids, node);
        if front.contains(cid) {
            let j = choose|j: int| 0 <= j < front.len() && front[j] == cid;
            assert(all[j] == cid);
        }
        if all.contains(cid) {
            let j = choose|j: int| 0 <= j < all.len() && all[j] == cid;
            if j < front.len() {
                assert(front[j] == cid);
            }
        }
        if shorter.contains(cid) {
            let j = choose|j: int| 0 <= j < shorter.len() && shorter[j] == cid;
            assert(cids[j] == cid);
        }
        if cids.contains(cid) {
            let j = choose|j: int| 0 <= j < cids.len() && cids[j] == cid;
            if j < shorter.len() {
                assert(shorter[j] == cid);
            } else if able {
                assert(all[all.len() - 1] == cid);
            }
        }
        if cids.last() == cid {
            assert(cids[cids.len() - 1] == cid);
        }
    }
}

/// The contents that a node scans are taken from the ascending list of all contents.
pub proof fn lemma_eligible(view: TrackerView, node: Seq<u8>, list: Seq<Cid>)
    requires
        order::ascending(list),
        order::cid_set(list) == view.holders.dom(),
    ensures
        scanner::eligible(view, node) == scanner::recodable(view, list, node),
{
    order::lemma_cid_list(list, view.holders.dom());
}

/// A full round from the first cycle on reports what all contents need, in their order, each
/// once.
pub proof fn lemma_full_round(view: TrackerView, cids: Seq<Cid>, parts: nat, count: nat)
    requires
        parts * count == scanner::WHOLE,
    ensures
        scanner::reports(view, cids, parts, 0, count) == scanner::needs(view, cids),
{
    scanner::lemma_round_from_start(view, cids, parts, count);
}

/// The cycles share the work evenly: none scans one content more or fewer than the fraction
/// of the contents, not rounded. Where nothing is to be scanned the count of cycles stands
/// still; else it goes on by one, and begins again behind the last part of the whole.
pub proof fn lemma_even_cycles(total: nat, parts: nat, cycle: nat)
    ensures
        ({
            let batch = scanner::batch_spec(total, parts, cycle) as int;
            let share = (total * parts) as int;
            -scanner::WHOLE < batch * scanner::WHOLE - share < scanner::WHOLE
        }),
        total == 0 ==> scanner::next_cycle(total, cycle) == cycle,
        total > 0 && cycle + 1 < scanner::WHOLE ==> scanner::next_cycle(total, cycle) == cycle + 1,
        total > 0 && cycle + 1 == scanner::WHOLE ==> scanner::next_cycle(total, cycle) == 0,
{
    let share = total * parts;
    assert((cycle + 1) * share == cycle * share + share) by (nonlinear_arith);
    assert(share >= 0 && cycle * share >= 0) by (nonlinear_arith);
}

/// Longer uptime comes first; among equals, higher reputation; among those, the identifier
/// whose first different byte is smaller.
pub proof fn lemma_ranks_before(a: NodeRanking, b: NodeRanking, p: int)
    requires
        0 <= p < 32,
        forall|q: int| 0 <= q < p ==> a.node_id@[q] == #[trigger] b.node_id@[q],
        a.node_id@[p] < b.node_id@[p],
    ensures
        a.uptime_secs > b.uptime_secs ==> coordinator::ranks_before(a, b),
        a.uptime_secs < b.uptime_secs ==> !coordinator::ranks_before(a, b),
        a.uptime_secs == b.uptime_secs && a.reputation_score > b.reputation_score
            ==> coordinator::ranks_before(a, b),
        a.uptime_secs == b.uptime_secs && a.reputation_score < b.reputation_score
            ==> !coordinator::ranks_before(a, b),
        a.uptime_secs == b.uptime_secs && a.reputation_score == b.reputation_score
            ==> coordinator::ranks_before(a, b) && !coordinator::ranks_before(b, a),
{
    bytes::lemma_first_difference(a.node_id@, b.node_id@, 0);
    bytes::lemma_bytes_order(a.node_id@, b.node_id@);
    let d = bytes::first_difference(a.node_id@, b.node_id@, 0);
    if d < p {
        assert(a.node_id@[d] == b.node_id@[d]);
    }
}

/// The elected coordinator is one of the nodes, and no other node ranks before it.
pub proof fn lemma_winner(providers: Seq<NodeRanking>, i: int)
    requires
        0 <= i < providers.len(),
    ensures
        providers.contains(coordinator::ranked(providers)[0]),
        !coordinator::ranks_before(providers[i], coordinator::ranked(providers)[0]),
{
    broadcast use vstd::seq_lib::group_to_multiset_ensures;

    let leq = coordinator::rank_order();
    coordinator::lemma_rank_order();
    providers.lemma_sort_by_ensures(leq);
    let sorted = coordinator::ranked(providers);
    assert(sorted.len() == sorted.to_multiset().len());
    assert(providers.len() == providers.to_multiset().len());
    assert(sorted.contains(sorted[0]));
    assert(sorted.to_multiset().contains(sorted[0]));
    assert(providers.contains(providers[i]));
    assert(providers.to_multiset().contains(providers[i]));
    assert(sorted.contains(providers[i]));
    let j = choose|j: int| 0 <= j < sorted.len() && sorted[j] == providers[i];
    if j > 0 {
        assert(leq(sorted[0], sorted[j]));
    }
    bytes::lemma_bytes_order(sorted[0].node_id@, sorted[j].node_id@);
}

/// What a request asks for: as many pieces as it takes to decode where it is critical, else
/// as many as there should be.
pub proof fn lemma_request(cid: Cid, available: u32, k: u32, target: u32)
    ensures
        ({
            let critical = RepairRequest::Critical { cid, available, k };
            let normal = RepairRequest::Normal { cid, available, target };
            &&& critical.content() == cid && normal.content() == cid
            &&& critical.present() == available && normal.present() == available
            &&& critical.wanted() == k && normal.wanted() == target
        }),
{
}

/// One holder more can repair exactly if it has two pieces at least and is alive or the node
/// itself; all who can rank by their identifiers alone.
pub proof fn lemma_repairers_step(
    holders: Seq<PieceHolder>,
    h: PieceHolder,
    alive: Seq<NodeId>,
    me: Seq<u8>,
)
    ensures
        repair::repairers(Seq::empty(), alive, me).len() == 0,
        ({
            let before = repair::repairers(holders, alive, me);
            let after = repair::repairers(holders.push(h), alive, me);
            let lives = exists|j: int| 0 <= j < alive.len() && (#[trigger] alive[j])@ == h.node_id@;
            if h.piece_count >= 2 && (lives || h.node_id@ == me) {
                &&& after.len() == before.len() + 1
                &&& after.drop_last() == before
                &&& after.last().node_id == h.node_id
                &&& after.last().uptime_secs == 0
                &&& after.last().reputation_score == 500_000
            } else {
                after == before
            }
        }),
{
    assert(holders.push(h).drop_last() =~= holders);
    let before = repair::repairers(holders, alive, me);
    let after = repair::repairers(holders.push(h), alive, me);
    if after.len() > before.len() {
        assert(after.drop_last() =~= before);
    }
}

proof fn lemma_repairers_from(holders: Seq<PieceHolder>, alive: Seq<NodeId>, me: Seq<u8>)
    requires
        tracker::one_record_each(holders),
    ensures
        forall|i: int|
            0 <= i < repair::repairers(holders, alive, me).len() ==> exists|j: int|
                0 <= j < holders.len() && (#[trigger] holders[j]).node_id == (
                #[trigger] repair::repairers(holders, alive, me)[i]).node_id,
        forall|i: int, j: int|
            0 <= i < repair::repairers(holders, alive, me).len() && 0 <= j < repair::repairers(
                holders,
                alive,
                me,
            ).len() && i != j ==> (#[trigger] repair::repairers(holders, alive, me)[i]).node_id@
                != (#[trigger] repair::repairers(holders, alive, me)[j]).node_id@,
    decreases holders.len(),
{
    if holders.len() > 0 {
        let front = holders.drop_last();
        let h = holders.last();
        assert(front.push(h) =~= holders);
        lemma_repairers_step(front, h, alive, me);
        assert forall|a: int, b: int|
            0 <= a < front.len() && 0 <= b < front.len() && a != b implies (
        #[trigger] front[a]).node_id@ != (#[trigger] front[b]).node_id@ by {
            assert(front[a] == holders[a] && front[b] == holders[b]);
        }
        lemma_repairers_from(front, alive, me);
        let before = repair::repairers(front, alive, me);
        let after = repair::repairers(holders, alive, me);
        assert forall|i: int| 0 <= i < before.len() implies exists|j: int|
            0 <= j < holders.len() - 1 && (#[trigger] holders[j]).node_id == (
            #[trigger] before[i]).node_id by {
            let j = choose|j: int|
                0 <= j < front.len() && (#[trigger] front[j]).node_id == before[i].node_id;
            assert(holders[j].node_id == before[i].node_id);
        }
        assert forall|i: int| 0 <= i < after.len() implies exists|j: int|
            0 <= j < holders.len() && (#[trigger] holders[j]).node_id == (
            #[trigger] after[i]).node_id by {
            if i < before.len() {
                assert(after[i] == before[i]);
            } else {
                assert(holders[holders.len() - 1].node_id == after[i].node_id);
            }
        }
        assert forall|i: int, j: int|
            0 <= i < after.len() && 0 <= j < after.len() && i != j implies (
        #[trigger] after[i]).node_id@ != (#[trigger] after[j]).node_id@ by {
            if i < before.len() {
                assert(after[i] == before[i]);
                let a = choose|a: int|
                    0 <= a < holders.len() - 1 && (#[trigger] holders[a]).node_id
                        == before[i].node_id;
                assert(holders[a].node_id@ != holders[holders.len() - 1].node_id@);
            }
            if j < before.len() {
                assert(after[j] == before[j]);
                let a = choose|a: int|
                    0 <= a < holders.len() - 1 && (#[trigger] holders[a]).node_id
                        == before[j].node_id;
                assert(holders[a].node_id@ != holders[holders.len() - 1].node_id@);
            }
        }
    }
}

/// A node that can repair recodes exactly if fewer of those who can rank before it than
/// pieces are missing. Where no more can than pieces are missing, each of them recodes.
pub proof fn lemma_elected(
    request: RepairRequest,
    holders: Seq<PieceHolder>,
    alive: Seq<NodeId>,
    me: Seq<u8>,
    p: int,
)
    requires
        tracker::one_record_each(holders),
        request.wanted() > request.present(),
        0 <= p < repair::repairers(holders, alive, me).len(),
        repair::repairers(holders, alive, me)[p].node_id@ == me,
    ensures
        ({
            let able = repair::repairers(holders, alive, me);
            let missing = request.wanted() - request.present();
            let ahead = able.to_multiset().filter(
                |r: NodeRanking| coordinator::ranks_before(r, able[p]),
            );
            &&& repair::step_spec(request, holders, alive, me) == RepairStep::Recode <==> ahead.len()
                < missing
            &&& able.len() <= missing ==> repair::step_spec(request, holders, alive, me)
                == RepairStep::Recode
        }),
{
    broadcast use vstd::seq_lib::group_to_multiset_ensures;

    let able = repair::repairers(holders, alive, me);
    let missing = (request.wanted() - request.present()) as nat;
    let mine = able[p];
    let leq = coordinator::rank_order();
    coordinator::lemma_rank_order();
    able.lemma_sort_by_ensures(leq);
    let sorted = coordinator::ranked(able);
    assert(sorted.len() == sorted.to_multiset().len());
    assert(able.len() == able.to_multiset().len());
    lemma_repairers_from(holders, alive, me);
    assert(able.contains(mine));
    assert(able.to_multiset().contains(mine));
    assert(sorted.contains(mine));
    let q = choose|q: int| 0 <= q < sorted.len() && sorted[q] == mine;
    lemma_only_place(able, sorted, q, mine);
    lemma_ahead(able, sorted, q, mine);
    assert(repair::among_first(sorted, missing, me) <==> q < missing) by {
        if repair::among_first(sorted, missing, me) {
            let i = choose|i: int|
                0 <= i < sorted.len() && i < missing && (#[trigger] sorted[i]).node_id@ == me;
            assert(i == q);
        }
        if q < missing {
            assert(sorted[q].node_id@ == me);
        }
    }
}

/// Of entries with different identifiers, only one in a reordering has a given identifier.
proof fn lemma_only_place(
    able: Seq<NodeRanking>,
    sorted: Seq<NodeRanking>,
    q: int,
    mine: NodeRanking,
)
    requires
        able.to_multiset() == sorted.to_multiset(),
        0 <= q < sorted.len(),
        sorted[q] == mine,
        forall|i: int, j: int|
            0 <= i < able.len() && 0 <= j < able.len() && i != j ==> (
            #[trigger] able[i]).node_id@ != (#[trigger] able[j]).node_id@,
    ensures
        forall|i: int|
            0 <= i < sorted.len() && (#[trigger] sorted[i]).node_id@ == mine.node_id@ ==> i == q,
{
    broadcast use vstd::seq_lib::group_to_multiset_ensures;

    assert forall|i: int|
        0 <= i < sorted.len() && (#[trigger] sorted[i]).node_id@ == mine.node_id@ implies i
        == q by {
        let other = sorted[i];
        assert(sorted.contains(other) && sorted.contains(mine));
        assert(able.to_multiset().contains(other) && able.to_multiset().contains(mine));
        assert(able.contains(other) && able.contains(mine));
        let a = choose|a: int| 0 <= a < able.len() && able[a] == other;
        let b = choose|b: int| 0 <= b < able.len() && able[b] == mine;
        assert(able[a].node_id@ == able[b].node_id@);
        assert(other == mine);
        assert(able.no_duplicates()) by {
            assert forall|x: int, y: int|
                0 <= x < able.len() && 0 <= y < able.len() && x != y implies able[x] != able[y] by {
                assert(able[x].node_id@ != able[y].node_id@);
            }
        }
        able.lemma_multiset_has_no_duplicates();
        sorted.lemma_multiset_has_no_duplicates_conv();
        assert(sorted[i] == sorted[q]);
    }
}

/// In a ranking, those before a place are those who rank before the node there.
proof fn lemma_ahead(
    able: Seq<NodeRanking>,
    sorted: Seq<NodeRanking>,
    q: int,
    mine: NodeRanking,
)
    requires
        able.to_multiset() == sorted.to_multiset(),
        vstd::relations::sorted_by(sorted, coordinator::rank_order()),
        0 <= q < sorted.len(),
        sorted[q] == mine,
        forall|i: int|
            0 <= i < sorted.len() && (#[trigger] sorted[i]).node_id@ == mine.node_id@ ==> i == q,
    ensures
        able.to_multiset().filter(|r: NodeRanking| coordinator::ranks_before(r, mine)).len() == q,
{
    broadcast use vstd::seq_lib::group_to_multiset_ensures;

    let leq = coordinator::rank_order();
    let before = |r: NodeRanking| coordinator::ranks_before(r, mine);
    let front = sorted.take(q);
    let back = sorted.skip(q);
    assert(front + back =~= sorted);
    vstd::seq_lib::lemma_multiset_commutative(front, back);
    let ahead = sorted.to_multiset().filter(before);
    assert forall|r: NodeRanking| ahead.count(r) == front.to_multiset().count(r) by {
        if before(r) {
            if back.to_multiset().count(r) > 0 {
                assert(back.contains(r));
                let j = choose|j: int| 0 <= j < back.len() && back[j] == r;
                assert(sorted[q + j] == r);
                bytes::lemma_bytes_order(r.node_id@, mine.node_id@);
                if j > 0 {
                    assert(leq(sorted[q], sorted[q + j]));
                }
            }
        } else {
            if front.to_multiset().count(r) > 0 {
                assert(front.contains(r));
                let j = choose|j: int| 0 <= j < front.len() && front[j] == r;
                assert(sorted[j] == r);
                assert(leq(sorted[j], sorted[q]));
                assert(r != mine);
            }
        }
    }
    assert(ahead =~= front.to_multiset());
    assert(front.len() == front.to_multiset().len());
}

/// Where no piece is missing nothing is done; where pieces are missing and no one can repair,
/// nothing can be; and a node that cannot repair does not.
pub proof fn lemma_not_elected(
    request: RepairRequest,
    holders: Seq<PieceHolder>,
    alive: Seq<NodeId>,
    me: Seq<u8>,
)
    ensures
        request.wanted() <= request.present() <==> repair::step_spec(request, holders, alive, me)
            == RepairStep::NoDeficit,
        request.wanted() > request.present() && repair::repairers(holders, alive, me).len() == 0
            ==> repair::step_spec(request, holders, alive, me) == RepairStep::NoRepairers,
        request.wanted() > request.present() && repair::repairers(holders, alive, me).len() > 0
            && (forall|i: int|
            0 <= i < repair::repairers(holders, alive, me).len() ==> (
            #[trigger] repair::repairers(holders, alive, me)[i]).node_id@ != me)
            ==> repair::step_spec(request, holders, alive, me) == RepairStep::NotElected,
{
    broadcast use vstd::seq_lib::group_to_multiset_ensures;

    let able = repair::repairers(holders, alive, me);
    let sorted = coordinator::ranked(able);
    coordinator::lemma_rank_order();
    able.lemma_sort_by_ensures(coordinator::rank_order());
    if request.wanted() > request.present() {
        let missing = (request.wanted() - request.present()) as nat;
        if repair::among_first(sorted, missing, me) {
            let i = choose|i: int|
                0 <= i < sorted.len() && i < missing && (#[trigger] sorted[i]).node_id@ == me;
            assert(sorted.contains(sorted[i]));
            assert(sorted.to_multiset().contains(sorted[i]));
            assert(able.contains(sorted[i]));
            let j = choose|j: int| 0 <= j < able.len() && able[j] == sorted[i];
            assert(able[j].node_id@ == me);
        }
    }
}

/// As many are elected as pieces are missing, or all where there are fewer.
pub proof fn lemma_elected_number(sorted: Seq<NodeRanking>, missing: nat)
    requires
        forall|i: int, j: int|
            0 <= i < sorted.len() && 0 <= j < sorted.len() && i != j ==> (
            #[trigger] sorted[i]).node_id@ != (#[trigger] sorted[j]).node_id@,
    ensures
        ({
            let elected = Set::new(|id: Seq<u8>| repair::among_first(sorted, missing, id));
            &&& elected.finite()
            &&& elected.len() == if sorted.len() < missing {
                sorted.len()
            } else {
                missing
            }
        }),
{
    let n = if sorted.len() < missing {
        sorted.len()
    } else {
        missing
    };
    let ids = Seq::new(n, |i: int| sorted[i].node_id@);
    let elected = Set::new(|id: Seq<u8>| repair::among_first(sorted, missing, id));
    assert forall|id: Seq<u8>| elected.contains(id) <==> ids.to_set().contains(id) by {
        if repair::among_first(sorted, missing, id) {
            let i = choose|i: int|
                0 <= i < sorted.len() && i < missing && (#[trigger] sorted[i]).node_id@ == id;
            assert(ids[i] == id);
        }
        if ids.contains(id) {
            let i = choose|i: int| 0 <= i < ids.len() && ids[i] == id;
            assert(sorted[i].node_id@ == id);
        }
    }
    assert(elected =~= ids.to_set());
    assert(ids.no_duplicates()) by {
        assert forall|i: int, j: int|
            0 <= i < ids.len() && 0 <= j < ids.len() && i != j implies ids[i] != ids[j] by {
            assert(sorted[i].node_id@ != sorted[j].node_id@);
        }
    }
    vstd::seq_lib::seq_to_set_is_finite(ids);
    ids.unique_seq_to_set();
}

/// Whether a node is alive.
spec fn lives(alive: Seq<NodeId>, id: Seq<u8>) -> bool {
    exists|j: int| 0 <= j < alive.len() && (#[trigger] alive[j])@ == id
}

/// Whether a node has exactly one piece on record.
spec fn has_one(holders: Seq<PieceHolder>, id: Seq<u8>) -> bool {
    exists|i: int|
        0 <= i < holders.len() && (#[trigger] holders[i]).node_id@ == id
            && holders[i].piece_count == 1
}

proof fn lemma_ones(holders: Seq<PieceHolder>, alive: Seq<NodeId>, me: Seq<u8>, id: NodeId)
    ensures
        repair::one_piece_peers(holders, alive, me).contains(id) <==> lives(alive, id@) && has_one(
            holders,
            id@,
        ) && id@ != me,
    decreases holders.len(),
{
    if holders.len() > 0 {
        let front = holders.drop_last();
        let h = holders.last();
        lemma_ones(front, alive, me, id);
        let before = repair::one_piece_peers(front, alive, me);
        let after = repair::one_piece_peers(holders, alive, me);
        if before.contains(id) {
            let j = choose|j: int| 0 <= j < before.len() && before[j] == id;
            assert(after[j] == id);
        }
        if after.contains(id) {
            let j = choose|j: int| 0 <= j < after.len() && after[j] == id;
            if j < before.len() {
                assert(before[j] == id);
            } else {
                assert(holders[holders.len() - 1].node_id@ == id@);
            }
        }
        if has_one(front, id@) {
            let i = choose|i: int|
                0 <= i < front.len() && (#[trigger] front[i]).node_id@ == id@
                    && front[i].piece_count == 1;
            assert(holders[i].node_id@ == id@);
        }
        if has_one(holders, id@) && lives(alive, id@) && id@ != me {
            let i = choose|i: int|
                0 <= i < holders.len() && (#[trigger] holders[i]).node_id@ == id@
                    && holders[i].piece_count == 1;
            if i < front.len() {
                assert(front[i].node_id@ == id@);
            } else {
                node_id::lemma_node_id_equal(h.node_id, id);
                assert(after[after.len() - 1] == id);
            }
        }
    }
}

proof fn lemma_others(
    alive: Seq<NodeId>,
    holders: Seq<PieceHolder>,
    with: bool,
    me: Seq<u8>,
    id: NodeId,
)
    ensures
        repair::peers(alive, holders, with, me).contains(id) <==> lives(alive, id@) && id@ != me
            && (with || !tracker::has_holder(holders, id@)),
    decreases alive.len(),
{
    if alive.len() > 0 {
        let front = alive.drop_last();
        let last = alive.last();
        lemma_others(front, holders, with, me, id);
        let before = repair::peers(front, holders, with, me);
        let after = repair::peers(alive, holders, with, me);
        if before.contains(id) {
            let j = choose|j: int| 0 <= j < before.len() && before[j] == id;
            assert(after[j] == id);
        }
        if after.contains(id) {
            let j = choose|j: int| 0 <= j < after.len() && after[j] == id;
            if j < before.len() {
                assert(before[j] == id);
            } else {
                assert(alive[alive.len() - 1]@ == id@);
            }
        }
        if lives(front, id@) {
            let j = choose|j: int| 0 <= j < front.len() && (#[trigger] front[j])@ == id@;
            assert(alive[j]@ == id@);
        }
        if lives(alive, id@) && id@ != me && (with || !tracker::has_holder(holders, id@)) {
            let j = choose|j: int| 0 <= j < alive.len() && (#[trigger] alive[j])@ == id@;
            if j < front.len() {
                assert(front[j]@ == id@);
            } else {
                node_id::lemma_node_id_equal(last, id);
                assert(after[after.len() - 1] == id);
            }
        }
    }
}

/// The candidates for a fresh piece are all living peers with exactly one piece; where there
/// is no such peer, all living peers without a record; where there is none of those either,
/// all living peers.
pub proof fn lemma_candidates(
    holders: Seq<PieceHolder>,
    alive: Seq<NodeId>,
    me: Seq<u8>,
    id: NodeId,
)
    ensures
        ({
            let peer = |n: NodeId|
                n@ != me && exists|j: int| 0 <= j < alive.len() && (#[trigger] alive[j])@ == n@;
            let one = |n: NodeId|
                exists|i: int|
                    0 <= i < holders.len() && (#[trigger] holders[i]).node_id@ == n@
                        && holders[i].piece_count == 1;
            let none = |n: NodeId|
                forall|i: int|
                    0 <= i < holders.len() ==> (#[trigger] holders[i]).node_id@ != n@;
            let candidate = repair::candidates(holders, alive, me).contains(id);
            if exists|n: NodeId| #[trigger] peer(n) && one(n) {
                candidate <==> peer(id) && one(id)
            } else if exists|n: NodeId| #[trigger] peer(n) && none(n) {
                candidate <==> peer(id) && none(id)
            } else {
                candidate <==> peer(id)
            }
        }),
{
    let peer = |n: NodeId|
        n@ != me && exists|j: int| 0 <= j < alive.len() && (#[trigger] alive[j])@ == n@;
    let one = |n: NodeId|
        exists|i: int|
            0 <= i < holders.len() && (#[trigger] holders[i]).node_id@ == n@
                && holders[i].piece_count == 1;
    let none = |n: NodeId|
        forall|i: int| 0 <= i < holders.len() ==> (#[trigger] holders[i]).node_id@ != n@;
    let ones = repair::one_piece_peers(holders, alive, me);
    let nones = repair::peers(alive, holders, false, me);
    lemma_ones(holders, alive, me, id);
    lemma_others(alive, holders, false, me, id);
    lemma_others(alive, holders, true, me, id);
    assert((exists|n: NodeId| #[trigger] peer(n) && one(n)) <==> ones.len() > 0) by {
        if ones.len() > 0 {
            lemma_ones(holders, alive, me, ones[0]);
            assert(ones.contains(ones[0]));
            assert(peer(ones[0]) && one(ones[0]));
        }
        if exists|n: NodeId| #[trigger] peer(n) && one(n) {
            let n = choose|n: NodeId| #[trigger] peer(n) && one(n);
            lemma_ones(holders, alive, me, n);
        }
    }
    assert((exists|n: NodeId| #[trigger] peer(n) && none(n)) <==> nones.len() > 0) by {
        if nones.len() > 0 {
            lemma_others(alive, holders, false, me, nones[0]);
            assert(nones.contains(nones[0]));
            assert(peer(nones[0]) && none(nones[0]));
        }
        if exists|n: NodeId| #[trigger] peer(n) && none(n) {
            let n = choose|n: NodeId| #[trigger] peer(n) && none(n);
            lemma_others(alive, holders, false, me, n);
        }
    }
    assert(one(id) <==> has_one(holders, id@));
    assert(peer(id) <==> id@ != me && lives(alive, id@));
    assert(none(id) <==> !tracker::has_holder(holders, id@));
}

/// A load asks for the stored pieces in their order, each once, until two are loaded.
pub proof fn lemma_load(load: repair::PieceLoad)
    ensures
        load.loaded().len() >= 2 ==> load.wants() is None,
        load.read() >= load.stored().len() ==> load.wants() is None,
        load.loaded().len() < 2 && load.read() < load.stored().len() ==> load.wants() == Some(
            load.stored()[load.read() as int],
        ),
{
}

/// Errors of a repair name the content, which is read back from them, and say why, or how many
/// pieces there are and that two are needed.
pub proof fn lemma_repair_told(e: HealthError, cid: Cid, why: Seq<char>, available: nat)
    ensures
        repair::failed_because(e, cid, why) ==> e is RepairFailed && hexadecimal::hex_bytes(
            e->RepairFailed_cid@,
        ) == cid@ && e->RepairFailed_reason@ == why,
        repair::too_few(e, cid, available) ==> e is InsufficientPieces && hexadecimal::hex_bytes(
            e->InsufficientPieces_cid@,
        ) == cid@ && e->k == 2 && e->available == available,
{
    hexadecimal::lemma_hex_round_trip(cid@);
}

/// One recoding more is counted as one, and nothing else is.
pub proof fn lemma_recode_counted(metrics: RlncMetrics)
    ensures
        ({
            let after = repair::one_recode_more(metrics);
            &&& metrics.recodes < u64::MAX ==> after.recodes == metrics.recodes + 1
            &&& after.encodes == metrics.encodes
            &&& after.decodes == metrics.decodes
            &&& after.encode_bytes == metrics.encode_bytes
        }),
{
}

/// What is told of an error holds all that the error carries.
pub proof fn lemma_error_told(e: HealthError)
    ensures
        e matches HealthError::InsufficientPieces { cid, k, available } ==> text::holds(
            e.words(),
            cid@,
        ) && text::holds(e.words(), text::decimal(k as nat)) && text::holds(
            e.words(),
            text::decimal(available as nat),
        ),
        e matches HealthError::RepairFailed { cid, reason } ==> text::holds(e.words(), cid@)
            && text::holds(e.words(), reason@),
        e matches HealthError::CoordinatorElectionFailed(s) ==> text::holds(e.words(), s@),
        e matches HealthError::ScanFailed(s) ==> text::holds(e.words(), s@),
        e matches HealthError::NetworkError(s) ==> text::holds(e.words(), s@),
{
    let none = Seq::<char>::empty();
    match e {
        HealthError::InsufficientPieces { cid, k, available } => {
            let a = "insufficient pieces for CID "@ + cid@;
            let n = text::decimal(k as nat);
            let m = text::decimal(available as nat);
            types::laws::lemma_parts_held(a + ": need "@, n, ", have "@, m, none);
            types::laws::lemma_parts_held(
                "insufficient pieces for CID "@,
                cid@,
                ": need "@ + n + ", have "@ + m,
                none,
                none,
            );
            assert(e.words() =~= a + (": need "@ + n + ", have "@ + m));
        },
        HealthError::RepairFailed { cid, reason } => {
            types::laws::lemma_parts_held("repair failed for CID "@, cid@, ": "@, reason@, none);
        },
        HealthError::CoordinatorElectionFailed(s) => {
            types::laws::lemma_parts_held("coordinator election failed: "@, s@, none, none, none);
        },
        HealthError::ScanFailed(s) => {
            types::laws::lemma_parts_held("scan failed: "@, s@, none, none, none);
        },
        HealthError::NetworkError(s) => {
            types::laws::lemma_parts_held("network error: "@, s@, none, none, none);
        },
    }
}

/// The limits: a hundredth of all contents is scanned in a cycle, so that a hundred cycles scan
/// everything; a reputation that is not known is half of the best; a recoding takes two pieces,
/// and a generation of unknown size has 32 blocks.
pub proof fn lemma_limits()
    ensures
        100 * scanner::DEFAULT_SCAN_PARTS == scanner::WHOLE,
        2 * repair::NEUTRAL_REPUTATION == scanner::WHOLE,
        scanner::WHOLE == 1000 * 1000,
        repair::RECODE_INPUTS == 2,
        scanner::DEFAULT_K == 32,
{
}

}
