//! The scan for contents with too few pieces, a part of them per cycle.

use crate::health::error::HealthError;
use crate::health::repair::RepairRequest;
use crate::health::tracker;
use crate::health::tracker::PieceTracker;
use crate::health::tracker::TrackerView;
use crate::types::bytes;
use crate::types::cid::Cid;
use crate::types::node_id::NodeId;
use crate::types::order;
use vstd::prelude::*;

verus! {

/// The generation size of contents of which none is recorded.
pub const DEFAULT_K: u32 = 32;

/// How many parts the whole has in which a scan fraction is given.
pub const WHOLE: u32 = 1_000_000;

/// The fraction of contents that a cycle scans, one percent, in parts of the whole.
pub const DEFAULT_SCAN_PARTS: u32 = 10_000;

/// How many pieces there should be of a content with generation size `k`: `k` times
/// `2 + 16 / k`, the factor rounded up. A size of zero counts as one.
pub open spec fn target_spec(k: nat) -> nat {
    let k1 = if k == 0 {
        1
    } else {
        k
    };
    k1 * (2 + (16 + k1 - 1) as nat / k1)
}

/// How many pieces there should be of a content with generation size `k`.
pub fn target_piece_count(k: u32) -> (n: u32)
    requires
        target_spec(k as nat) <= u32::MAX,
    ensures
        n == target_spec(k as nat),
{
    let k1: u32 = if k == 0 {
        1
    } else {
        k
    };
    let factor: u32 = 2 + if k1 >= 16 {
        1
    } else {
        (15 + k1) / k1
    };
    proof {
        if k1 >= 16 {
            assert((16 + k1 - 1) as nat / k1 as nat == 1) by (nonlinear_arith)
                requires
                    k1 >= 16,
            ;
        }
        assert(k1 * factor == target_spec(k as nat));
    }
    k1 * factor
}

/// Whether the target of a generation size can be counted.
pub fn target_fits(k: u32) -> (fits: bool)
    ensures
        fits == (target_spec(k as nat) <= u32::MAX),
{
    proof {
        lemma_target_value(k as nat);
    }
    k <= 1_431_655_765
}

proof fn lemma_target_value(k: nat)
    ensures
        k >= 16 ==> target_spec(k) == 3 * k,
        k < 16 ==> target_spec(k) <= 1000,
{
    let k1: nat = if k == 0 {
        1
    } else {
        k
    };
    let c = (16 + k1 - 1) as nat / k1;
    if k >= 16 {
        assert(c == 1) by (nonlinear_arith)
            requires
                k1 >= 16,
                c == (16 + k1 - 1) as nat / k1,
        ;
        assert(k1 * (2 + c) == 3 * k1) by (nonlinear_arith)
            requires
                c == 1,
        ;
    } else {
        assert(c <= 16 + k1 - 1) by (nonlinear_arith)
            requires
                k1 >= 1,
                c == (16 + k1 - 1) as nat / k1,
        ;
        assert(k1 * (2 + c) <= 1000) by (nonlinear_arith)
            requires
                k1 < 16,
                c <= 30,
        ;
    }
}

/// The redundancy formula gives at least twice the generation size and sixteen more, and it
/// is a multiple of the generation size.
pub proof fn lemma_target(k: nat)
    requires
        k > 0,
    ensures
        target_spec(k) >= 2 * k + 16,
        target_spec(k) % k == 0,
{
    let c = (16 + k - 1) as nat / k;
    assert(k * c >= 16) by (nonlinear_arith)
        requires
            k > 0,
            c == (16 + k - 1) as nat / k,
    ;
    assert(k * (2 + c) == 2 * k + k * c) by (nonlinear_arith);
    assert((k * (2 + c)) % k == 0) by (nonlinear_arith)
        requires
            k > 0,
    ;
}

/// The generation size of a content, or the default where none is recorded.
pub open spec fn size_of(view: TrackerView, cid: Seq<u8>) -> u32 {
    if view.ks.contains_key(cid) {
        view.ks[cid]
    } else {
        DEFAULT_K
    }
}

/// What a content needs: nothing where there are as many pieces as there should be.
pub open spec fn need(view: TrackerView, cid: Cid) -> Option<RepairRequest> {
    let available = tracker::total(tracker::holders_of(view, cid@)) as u32;
    let k = size_of(view, cid@);
    let target = target_spec(k as nat) as u32;
    if available < k {
        Some(RepairRequest::Critical { cid, available, k })
    } else if available < target {
        Some(RepairRequest::Normal { cid, available, target })
    } else {
        None
    }
}

/// What some contents need, in their order.
pub open spec fn needs(view: TrackerView, cids: Seq<Cid>) -> Seq<RepairRequest>
    decreases cids.len(),
{
    if cids.len() == 0 {
        Seq::empty()
    } else {
        let front = needs(view, cids.drop_last());
        match need(view, cids.last()) {
            Some(request) => front.push(request),
            None => front,
        }
    }
}

/// Whether pieces and targets of a content can be counted.
pub open spec fn scannable(view: TrackerView, cid: Seq<u8>) -> bool {
    &&& tracker::total(tracker::holders_of(view, cid)) <= u32::MAX
    &&& target_spec(size_of(view, cid) as nat) <= u32::MAX
}

/// The contents of a list of which a node holds at least two pieces: those that it can
/// recode.
pub open spec fn recodable(view: TrackerView, cids: Seq<Cid>, node: Seq<u8>) -> Seq<Cid>
    decreases cids.len(),
{
    if cids.len() == 0 {
        cids
    } else {
        let front = recodable(view, cids.drop_last(), node);
        if tracker::count_of(tracker::holders_of(view, cids.last()@), node) >= 2 {
            front.push(cids.last())
        } else {
            front
        }
    }
}

/// The contents that a node scans, in ascending order.
pub open spec fn eligible(view: TrackerView, node: Seq<u8>) -> Seq<Cid> {
    recodable(view, order::cid_list(view.holders.dom()), node)
}

/// Whether pieces and targets of all contents that a node scans can be counted.
pub open spec fn all_scannable(view: TrackerView, node: Seq<u8>) -> bool {
    forall|i: int|
        0 <= i < eligible(view, node).len() ==> scannable(
            view,
            (#[trigger] eligible(view, node)[i])@,
        )
}

/// How many contents were scanned before a cycle, of `total` in a round: the fraction per
/// cycle times the number of the cycle, rounded up.
pub open spec fn scanned_before(total: nat, parts: nat, cycle: nat) -> nat {
    (cycle * (total * parts) + WHOLE - 1) as nat / WHOLE as nat
}

/// How many of `total` contents a cycle scans: as many as bring the scan to the place of the
/// next cycle.
pub open spec fn batch_spec(total: nat, parts: nat, cycle: nat) -> nat {
    (scanned_before(total, parts, cycle + 1) - scanned_before(total, parts, cycle)) as nat
}

/// A number of contents from a place on, from the beginning again behind the end.
pub open spec fn window(cids: Seq<Cid>, start: nat, batch: nat) -> Seq<Cid> {
    Seq::new(batch, |i: int| cids[(start + i) % cids.len() as int])
}

/// The contents that a cycle scans.
pub open spec fn scanned(cids: Seq<Cid>, parts: nat, cycle: nat) -> Seq<Cid> {
    window(
        cids,
        scanned_before(cids.len(), parts, cycle),
        batch_spec(cids.len(), parts, cycle),
    )
}

/// What a cycle reports.
pub open spec fn reported(view: TrackerView, cids: Seq<Cid>, parts: nat, cycle: nat) -> Seq<
    RepairRequest,
> {
    needs(view, scanned(cids, parts, cycle))
}

/// The cycle that follows. Where there is nothing to scan, a cycle does not count. After as
/// many cycles as the whole has parts, every content was scanned equally often, and the
/// count begins again.
pub open spec fn next_cycle(total: nat, cycle: nat) -> nat {
    if total == 0 {
        cycle
    } else {
        (cycle + 1) % WHOLE as nat
    }
}

/// Scans a part of the contents per cycle.
pub struct HealthScanner {
    scan_parts: u32,
    cycle_interval: u64,
    node_id: NodeId,
    cycle: u32,
}

impl HealthScanner {
    /// The fraction that a cycle scans, in parts of the whole.
    pub closed spec fn parts(&self) -> u32 {
        self.scan_parts
    }

    /// The time between cycles, in milliseconds.
    pub closed spec fn interval(&self) -> u64 {
        self.cycle_interval
    }

    /// This node.
    pub closed spec fn node(&self) -> NodeId {
        self.node_id
    }

    /// The number of the next cycle.
    pub closed spec fn cycle(&self) -> u32 {
        self.cycle
    }

    /// The fraction is more than nothing and at most the whole, and the cycles are counted
    /// up to the parts of the whole.
    pub closed spec fn wf(&self) -> bool {
        &&& 1 <= self.scan_parts <= WHOLE
        &&& self.cycle < WHOLE
    }

    /// The fraction is more than nothing and at most the whole, and the cycles are counted
    /// up to the parts of the whole.
    pub proof fn lemma_bounds(&self)
        requires
            self.wf(),
        ensures
            1 <= self.parts() <= WHOLE,
            self.cycle() < WHOLE,
    {
    }

    /// A scanner of one percent per cycle that starts at the first content.
    pub fn new(cycle_interval: u64, node_id: NodeId) -> (scanner: HealthScanner)
        ensures
            scanner.wf(),
            scanner.parts() == DEFAULT_SCAN_PARTS,
            scanner.interval() == cycle_interval,
            scanner.node() == node_id,
            scanner.cycle() == 0,
    {
        HealthScanner {
            scan_parts: DEFAULT_SCAN_PARTS,
            cycle_interval,
            node_id,
            cycle: 0,
        }
    }

    /// The scanner with another fraction, in millionths. Nothing counts as one millionth,
    /// and more than the whole as the whole.
    pub fn with_scan_percent(self, parts: u32) -> (scanner: HealthScanner)
        requires
            self.wf(),
        ensures
            scanner.wf(),
            scanner.parts() == (if parts == 0 {
                1
            } else if parts > WHOLE {
                WHOLE
            } else {
                parts
            }),
            scanner.interval() == self.interval(),
            scanner.node() == self.node(),
            scanner.cycle() == self.cycle(),
    {
        let scan_parts: u32 = if parts == 0 {
            1
        } else if parts > WHOLE {
            WHOLE
        } else {
            parts
        };
        HealthScanner {
            scan_parts,
            cycle_interval: self.cycle_interval,
            node_id: self.node_id,
            cycle: self.cycle,
        }
    }

    /// The time between cycles, in milliseconds.
    pub fn cycle_interval(&self) -> (millis: u64)
        ensures
            millis == self.interval(),
    {
        self.cycle_interval
    }

    /// Scans the next part of the contents that this node can recode, and tells what they
    /// need.
    pub fn scan_cycle(&mut self, tracker: &PieceTracker) -> (result: Result<
        Vec<RepairRequest>,
        HealthError,
    >)
        requires
            old(self).wf(),
            tracker.wf(),
            all_scannable(tracker@, old(self).node()@),
        ensures
            final(self).wf(),
            final(self).parts() == old(self).parts(),
            final(self).interval() == old(self).interval(),
            final(self).node() == old(self).node(),
            ({
                let cids = eligible(tracker@, old(self).node()@);
                &&& order::ascending(cids)
                &&& result matches Ok(requests) && requests@ == reported(
                    tracker@,
                    cids,
                    old(self).parts() as nat,
                    old(self).cycle() as nat,
                )
                &&& final(self).cycle() == next_cycle(cids.len(), old(self).cycle() as nat)
            }),
    {
        let all = tracker.sorted_cids();
        let cids = self.eligible_cids(tracker, &all);
        let total: usize = cids.len();
        proof {
            lemma_recodable_ascending(tracker@, all@, self.node()@);
        }
        let ghost parts = self.scan_parts as nat;
        let ghost cycle = self.cycle as nat;
        if total == 0 {
            proof {
                assert(cycle * (0 * parts) == 0) by (nonlinear_arith);
                assert((cycle + 1) * (0 * parts) == 0) by (nonlinear_arith);
                assert(scanned(cids@, parts, cycle) =~= Seq::<Cid>::empty());
            }
            return Ok(Vec::new());
        }
        let (mut at, batch) = next_batch(total, self.scan_parts, self.cycle);
        let ghost start = scanned_before(total as nat, parts, cycle);
        let ghost visited = scanned(cids@, parts, cycle);
        let mut requests: Vec<RepairRequest> = Vec::new();
        let mut i: usize = 0;
        proof {
            assert(visited.take(0) =~= Seq::<Cid>::empty());
        }
        while i < batch
            invariant
                i <= batch,
                total == cids@.len(),
                0 < total,
                at < total,
                at == (start + i) % total as int,
                tracker.wf(),
                all_scannable(tracker@, old(self).node()@),
                cids@ == eligible(tracker@, old(self).node()@),
                visited == window(cids@, start, batch as nat),
                requests@ == needs(tracker@, visited.take(i as int)),
            decreases batch - i,
        {
            let cid: Cid = cids[at];
            proof {
                assert(visited[i as int] == cid);
                assert(visited.take(i + 1).drop_last() =~= visited.take(i as int));
                assert(visited.take(i + 1).last() == cid);
                assert(eligible(tracker@, old(self).node()@)[at as int] == cid);
            }
            if let Some(request) = evaluate_cid(tracker, &cid) {
                requests.push(request);
            }
            proof {
                lemma_next_place(start + i, total as int);
            }
            at = if at + 1 == total {
                0
            } else {
                at + 1
            };
            i = i + 1;
        }
        proof {
            assert(visited.take(i as int) =~= visited);
        }
        self.cycle = if self.cycle + 1 == WHOLE {
            0
        } else {
            self.cycle + 1
        };
        Ok(requests)
    }

    fn eligible_cids(&self, tracker: &PieceTracker, all: &Vec<Cid>) -> (cids: Vec<Cid>)
        requires
            tracker.wf(),
        ensures
            cids@ == recodable(tracker@, all@, self.node()@),
    {
        let mut cids: Vec<Cid> = Vec::new();
        let mut i: usize = 0;
        proof {
            assert(all@.take(0) =~= Seq::<Cid>::empty());
        }
        while i < all.len()
            invariant
                i <= all@.len(),
                tracker.wf(),
                cids@ == recodable(tracker@, all@.take(i as int), self.node()@),
            decreases all@.len() - i,
        {
            proof {
                assert(all@.take(i + 1).drop_last() =~= all@.take(i as int));
                assert(all@.take(i + 1).last() == all@[i as int]);
            }
            if tracker.local_piece_count(&all[i], &self.node_id) >= 2 {
                cids.push(all[i]);
            }
            i = i + 1;
        }
        proof {
            assert(all@.take(i as int) =~= all@);
        }
        cids
    }
}

/// What a content needs, if anything.
pub fn evaluate_cid(tracker: &PieceTracker, cid: &Cid) -> (request: Option<RepairRequest>)
    requires
        tracker.wf(),
        scannable(tracker@, cid@),
    ensures
        request == need(tracker@, *cid),
{
    let available: u32 = tracker.available_count(cid);
    let k: u32 = match tracker.get_k(cid) {
        Some(k) => k,
        None => DEFAULT_K,
    };
    let target: u32 = target_piece_count(k);
    if available < k {
        Some(RepairRequest::Critical { cid: *cid, available, k })
    } else if available < target {
        Some(RepairRequest::Normal { cid: *cid, available, target })
    } else {
        None
    }
}

/// Whether pieces and targets of all contents that a node scans can be counted.
pub fn can_scan(scanner: &HealthScanner, tracker: &PieceTracker) -> (can: bool)
    requires
        tracker.wf(),
    ensures
        can == all_scannable(tracker@, scanner.node()@),
{
    let all = tracker.sorted_cids();
    let cids = scanner.eligible_cids(tracker, &all);
    let mut i: usize = 0;
    while i < cids.len()
        invariant
            i <= cids@.len(),
            tracker.wf(),
            cids@ == eligible(tracker@, scanner.node()@),
            forall|j: int| 0 <= j < i ==> scannable(tracker@, (#[trigger] cids@[j])@),
        decreases cids@.len() - i,
    {
        let k: u32 = match tracker.get_k(&cids[i]) {
            Some(k) => k,
            None => DEFAULT_K,
        };
        if !tracker.countable(&cids[i]) || !target_fits(k) {
            assert(!scannable(tracker@, eligible(tracker@, scanner.node()@)[i as int]@));
            return false;
        }
        i = i + 1;
    }
    true
}

/// The place at which a cycle starts, and how many contents it scans.
fn next_batch(total: usize, parts: u32, cycle: u32) -> (place: (usize, usize))
    requires
        0 < total,
        1 <= parts <= WHOLE,
        cycle < WHOLE,
    ensures
        place.0 == scanned_before(total as nat, parts as nat, cycle as nat) % total as nat,
        place.0 < total,
        place.1 == batch_spec(total as nat, parts as nat, cycle as nat),
{
    let ghost share = total as nat * parts as nat;
    proof {
        assert(1 <= share <= 0xffff_ffff_ffff_ffff * 1_000_000) by (nonlinear_arith)
            requires
                1 <= total <= 0xffff_ffff_ffff_ffff,
                1 <= parts <= 1_000_000,
                share == total as nat * parts as nat,
        ;
        assert(share <= total * 1_000_000) by (nonlinear_arith)
            requires
                parts <= 1_000_000,
                share == total as nat * parts as nat,
        ;
        assert(cycle * share <= 1_000_000 * (0xffff_ffff_ffff_ffff * 1_000_000))
            by (nonlinear_arith)
            requires
                cycle <= 1_000_000,
                0 <= share <= 0xffff_ffff_ffff_ffff * 1_000_000,
        ;
        assert((cycle + 1) * share == cycle * share + share) by (nonlinear_arith);
    }
    let step: u128 = total as u128 * parts as u128;
    let done: u128 = cycle as u128 * step;
    let before: u128 = (done + 999_999) / 1_000_000;
    let after: u128 = (done + step + 999_999) / 1_000_000;
    ((before % total as u128) as usize, (after - before) as usize)
}

proof fn lemma_next_place(x: int, total: int)
    requires
        0 < total,
    ensures
        (x + 1) % total == (if x % total + 1 == total {
            0
        } else {
            x % total + 1
        }),
{
    vstd::arithmetic::div_mod::lemma_fundamental_div_mod(x, total);
    let q = x / total;
    let r = x % total;
    assert(total * q == q * total) by (nonlinear_arith);
    if r + 1 == total {
        assert((q + 1) * total == q * total + total) by (nonlinear_arith);
        vstd::arithmetic::div_mod::lemma_fundamental_div_mod_converse(x + 1, total, q + 1, 0);
    } else {
        vstd::arithmetic::div_mod::lemma_fundamental_div_mod_converse(x + 1, total, q, r + 1);
    }
}

proof fn lemma_recodable_ascending(view: TrackerView, cids: Seq<Cid>, node: Seq<u8>)
    requires
        order::ascending(cids),
    ensures
        order::ascending(recodable(view, cids, node)),
        forall|i: int|
            0 <= i < recodable(view, cids, node).len() ==> cids.contains(
                #[trigger] recodable(view, cids, node)[i],
            ),
    decreases cids.len(),
{
    if cids.len() > 0 {
        let shorter = cids.drop_last();
        lemma_recodable_ascending(view, shorter, node);
        let front = recodable(view, shorter, node);
        let out = recodable(view, cids, node);
        assert forall|i: int| 0 <= i < out.len() implies cids.contains(#[trigger] out[i]) by {
            if i < front.len() {
                assert(out[i] == front[i]);
                let j = choose|j: int| 0 <= j < shorter.len() && #[trigger] shorter[j] == front[i];
                assert(cids[j] == out[i]);
            } else {
                assert(cids[cids.len() - 1] == out[i]);
            }
        }
        assert forall|i: int, j: int| 0 <= i < j < out.len() implies bytes::bytes_less(
            (#[trigger] out[i])@,
            (#[trigger] out[j])@,
        ) by {
            assert(out[i] == front[i]);
            if j < front.len() {
                assert(out[j] == front[j]);
            } else {
                let m = choose|m: int| 0 <= m < shorter.len() && #[trigger] shorter[m] == front[i];
                assert(cids[m] == out[i] && cids[cids.len() - 1] == out[j]);
            }
        }
    }
}

/// What a number of cycles report together, from a cycle on, while the contents and their
/// pieces stay the same.
pub open spec fn reports(
    view: TrackerView,
    cids: Seq<Cid>,
    parts: nat,
    cycle: nat,
    count: nat,
) -> Seq<RepairRequest>
    decreases count,
{
    if count == 0 {
        Seq::empty()
    } else {
        reports(view, cids, parts, cycle, (count - 1) as nat) + reported(
            view,
            cids,
            parts,
            ((cycle + count - 1) % WHOLE as int) as nat,
        )
    }
}

/// How many of some requests are about a content.
pub open spec fn requests_about(requests: Seq<RepairRequest>, cid: Cid) -> nat
    decreases requests.len(),
{
    if requests.len() == 0 {
        0
    } else {
        requests_about(requests.drop_last(), cid) + if requests.last().content() == cid {
            1nat
        } else {
            0nat
        }
    }
}

/// How often a content occurs in a list.
spec fn occurrences(cids: Seq<Cid>, cid: Cid) -> nat
    decreases cids.len(),
{
    if cids.len() == 0 {
        0
    } else {
        occurrences(cids.drop_last(), cid) + if cids.last() == cid {
            1nat
        } else {
            0nat
        }
    }
}

/// While the contents and their pieces stay the same, as many cycles as it takes to scan the
/// whole visit every content exactly once, wherever they begin: each content that needs
/// repair is reported once, and nothing else is reported.
pub proof fn lemma_exactly_once(
    view: TrackerView,
    cids: Seq<Cid>,
    parts: nat,
    cycle: nat,
    count: nat,
    cid: Cid,
)
    requires
        order::ascending(cids),
        parts * count == WHOLE,
        cycle < WHOLE,
    ensures
        requests_about(reports(view, cids, parts, cycle, count), cid) == (if cids.contains(cid)
            && need(view, cid) is Some {
            1nat
        } else {
            0nat
        }),
{
    let n = cids.len();
    assert(parts >= 1 && count <= WHOLE) by (nonlinear_arith)
        requires
            parts * count == WHOLE,
            WHOLE > 0,
    ;
    lemma_reports(view, cids, parts, cycle, count);
    let start = scanned_before(n, parts, cycle);
    assert(scanned_before(n, parts, cycle + count) == start + n) by {
        let x = cycle * (n * parts) + WHOLE - 1;
        assert((cycle + count) * (n * parts) == cycle * (n * parts) + n * (parts * count))
            by (nonlinear_arith);
        vstd::arithmetic::div_mod::lemma_hoist_over_denominator(x, n as int, WHOLE as nat);
    }
    lemma_needs_about(view, window(cids, start, n), cid);
    lemma_full_turn(cids, start, cid);
    lemma_occurs_once(cids, cid);
}

/// A hundred cycles of one percent visit every content exactly once.
pub proof fn lemma_hundred_cycles(view: TrackerView, cids: Seq<Cid>, cycle: nat, cid: Cid)
    requires
        order::ascending(cids),
        cycle < WHOLE,
    ensures
        requests_about(reports(view, cids, DEFAULT_SCAN_PARTS as nat, cycle, 100), cid) == (
        if cids.contains(cid) && need(view, cid) is Some {
            1nat
        } else {
            0nat
        }),
{
    lemma_exactly_once(view, cids, DEFAULT_SCAN_PARTS as nat, cycle, 100, cid);
}

/// A first cycle scans the fraction of the contents, rounded up, from the first one on: at
/// least one content where there is any.
pub proof fn lemma_first_cycle(total: nat, parts: nat)
    requires
        0 < total,
        1 <= parts <= WHOLE,
    ensures
        scanned_before(total, parts, 0) == 0,
        batch_spec(total, parts, 0) == (total * parts + WHOLE - 1) as nat / WHOLE as nat,
        1 <= batch_spec(total, parts, 0) <= total,
{
    assert(0 * (total * parts) == 0 && 1 * (total * parts) == total * parts) by (nonlinear_arith);
    assert(1 <= total * parts <= total * WHOLE) by (nonlinear_arith)
        requires
            0 < total,
            1 <= parts <= WHOLE,
    ;
}

/// As many cycles as it takes to scan the whole, from the first one on, report what all
/// contents need, in their order.
pub proof fn lemma_round_from_start(view: TrackerView, cids: Seq<Cid>, parts: nat, count: nat)
    requires
        parts * count == WHOLE,
    ensures
        reports(view, cids, parts, 0, count) == needs(view, cids),
{
    let n = cids.len();
    assert(parts >= 1 && count <= WHOLE) by (nonlinear_arith)
        requires
            parts * count == WHOLE,
            WHOLE > 0,
    ;
    lemma_reports(view, cids, parts, 0, count);
    assert(0 * (n * parts) == 0) by (nonlinear_arith);
    assert(count * (n * parts) == n * WHOLE) by (nonlinear_arith)
        requires
            parts * count == WHOLE,
    ;
    assert(scanned_before(n, parts, count) == n) by {
        vstd::arithmetic::div_mod::lemma_hoist_over_denominator(
            WHOLE - 1,
            n as int,
            WHOLE as nat,
        );
    }
    let all = window(cids, 0, n);
    assert forall|i: int| 0 <= i < n implies #[trigger] all[i] == cids[i] by {
        vstd::arithmetic::div_mod::lemma_small_mod(i as nat, n);
    }
    assert(all =~= cids);
}

/// The scan advances from cycle to cycle.
proof fn lemma_advances(total: nat, parts: nat, cycle: nat)
    ensures
        scanned_before(total, parts, cycle) <= scanned_before(total, parts, cycle + 1),
{
    assert((cycle + 1) * (total * parts) == cycle * (total * parts) + total * parts)
        by (nonlinear_arith);
    assert(total * parts >= 0) by (nonlinear_arith);
}

/// Cycles scan the same contents again after as many cycles as the whole has parts.
proof fn lemma_period(cids: Seq<Cid>, parts: nat, cycle: nat)
    ensures
        scanned(cids, parts, cycle + WHOLE as nat) == scanned(cids, parts, cycle),
{
    let n = cids.len();
    let w = WHOLE as nat;
    let step = n * parts;
    assert forall|c: nat| scanned_before(n, parts, c + w) == #[trigger] scanned_before(n, parts, c)
        + step by {
        let x = c * step + WHOLE - 1;
        assert((c + w) * step == c * step + step * w) by (nonlinear_arith);
        assert(step >= 0);
        vstd::arithmetic::div_mod::lemma_hoist_over_denominator(x, step as int, w);
    }
    let start = scanned_before(n, parts, cycle);
    assert(scanned_before(n, parts, cycle + w) == start + step);
    assert(cycle + w + 1 == (cycle + 1) + w);
    assert(scanned_before(n, parts, cycle + 1 + w) == scanned_before(n, parts, cycle + 1) + step);
    let batch = batch_spec(n, parts, cycle);
    let a = window(cids, start + step, batch);
    let b = window(cids, start, batch);
    assert forall|i: int| 0 <= i < batch implies #[trigger] a[i] == b[i] by {
        if n > 0 {
            assert(start + step + i == n * parts + (start + i));
            vstd::arithmetic::div_mod::lemma_mod_multiples_vanish(
                parts as int,
                start + i,
                n as int,
            );
        } else {
            assert(step == 0) by (nonlinear_arith)
                requires
                    n == 0,
                    step == n * parts,
            ;
        }
    }
    assert(a =~= b);
}

/// Cycles that follow each other report what the contents need that they scan in a row.
proof fn lemma_reports(
    view: TrackerView,
    cids: Seq<Cid>,
    parts: nat,
    cycle: nat,
    count: nat,
)
    requires
        cycle < WHOLE,
        count <= WHOLE,
    ensures
        scanned_before(cids.len(), parts, cycle) <= scanned_before(
            cids.len(),
            parts,
            cycle + count,
        ),
        reports(view, cids, parts, cycle, count) == needs(
            view,
            window(
                cids,
                scanned_before(cids.len(), parts, cycle),
                (scanned_before(cids.len(), parts, cycle + count) - scanned_before(
                    cids.len(),
                    parts,
                    cycle,
                )) as nat,
            ),
        ),
    decreases count,
{
    let n = cids.len();
    let start = scanned_before(n, parts, cycle);
    if count == 0 {
        assert(window(cids, start, 0) =~= Seq::<Cid>::empty());
    } else {
        let last = (cycle + count - 1) as nat;
        lemma_reports(view, cids, parts, cycle, (count - 1) as nat);
        lemma_advances(n, parts, last);
        let middle = scanned_before(n, parts, last);
        let end = scanned_before(n, parts, last + 1);
        assert(scanned(cids, parts, (last as int % WHOLE as int) as nat) == scanned(
            cids,
            parts,
            last,
        )) by {
            if last >= WHOLE {
                lemma_period(cids, parts, (last - WHOLE) as nat);
            }
        }
        let a = window(cids, start, (middle - start) as nat);
        let b = window(cids, middle, (end - middle) as nat);
        assert(a + b =~= window(cids, start, (end - start) as nat));
        lemma_needs_join(view, a, b);
    }
}

proof fn lemma_needs_join(view: TrackerView, a: Seq<Cid>, b: Seq<Cid>)
    ensures
        needs(view, a + b) == needs(view, a) + needs(view, b),
    decreases b.len(),
{
    if b.len() == 0 {
        assert(a + b =~= a);
        assert(needs(view, a) + needs(view, b) =~= needs(view, a));
    } else {
        assert((a + b).drop_last() =~= a + b.drop_last());
        assert((a + b).last() == b.last());
        lemma_needs_join(view, a, b.drop_last());
        assert(needs(view, a + b) =~= needs(view, a) + needs(view, b));
    }
}

proof fn lemma_needs_about(view: TrackerView, cids: Seq<Cid>, cid: Cid)
    ensures
        requests_about(needs(view, cids), cid) == (if need(view, cid) is Some {
            occurrences(cids, cid)
        } else {
            0
        }),
    decreases cids.len(),
{
    if cids.len() > 0 {
        lemma_needs_about(view, cids.drop_last(), cid);
        let front = needs(view, cids.drop_last());
        if let Some(request) = need(view, cids.last()) {
            assert(front.push(request).drop_last() =~= front);
            assert(request.content() == cids.last());
        }
    }
}

proof fn lemma_occurrences_join(a: Seq<Cid>, b: Seq<Cid>, cid: Cid)
    ensures
        occurrences(a + b, cid) == occurrences(a, cid) + occurrences(b, cid),
    decreases b.len(),
{
    if b.len() == 0 {
        assert(a + b =~= a);
    } else {
        assert((a + b).drop_last() =~= a + b.drop_last());
        assert((a + b).last() == b.last());
        lemma_occurrences_join(a, b.drop_last(), cid);
    }
}

/// A full turn holds every content as often as the list does.
proof fn lemma_full_turn(cids: Seq<Cid>, start: nat, cid: Cid)
    ensures
        occurrences(window(cids, start, cids.len()), cid) == occurrences(cids, cid),
{
    let n = cids.len();
    if n == 0 {
        assert(window(cids, start, n) =~= cids);
    } else {
        let r = start as int % n as int;
        let turned = window(cids, start, n);
        let back = cids.skip(r);
        let front = cids.take(r);
        assert forall|i: int| 0 <= i < n implies #[trigger] turned[i] == (back + front)[i] by {
            vstd::arithmetic::div_mod::lemma_add_mod_noop(start as int, i, n as int);
            vstd::arithmetic::div_mod::lemma_add_mod_noop(r, i, n as int);
            vstd::arithmetic::div_mod::lemma_mod_twice(start as int, n as int);
            if r + i < n {
                vstd::arithmetic::div_mod::lemma_small_mod((r + i) as nat, n);
            } else {
                vstd::arithmetic::div_mod::lemma_fundamental_div_mod_converse(
                    r + i,
                    n as int,
                    1,
                    r + i - n,
                );
            }
        }
        assert(turned =~= back + front);
        assert(cids =~= front + back);
        lemma_occurrences_join(back, front, cid);
        lemma_occurrences_join(front, back, cid);
    }
}

proof fn lemma_occurs_once(cids: Seq<Cid>, cid: Cid)
    requires
        order::ascending(cids),
    ensures
        occurrences(cids, cid) == (if cids.contains(cid) {
            1nat
        } else {
            0nat
        }),
    decreases cids.len(),
{
    if cids.len() > 0 {
        let shorter = cids.drop_last();
        let last = cids.len() - 1;
        assert forall|i: int, j: int| 0 <= i < j < shorter.len() implies bytes::bytes_less(
            (#[trigger] shorter[i])@,
            (#[trigger] shorter[j])@,
        ) by {
            assert(cids[i] == shorter[i] && cids[j] == shorter[j]);
        }
        lemma_occurs_once(shorter, cid);
        if shorter.contains(cid) {
            let i = choose|i: int| 0 <= i < shorter.len() && shorter[i] == cid;
            assert(cids[i] == cid);
            assert(bytes::bytes_less(cids[i]@, cids[last]@));
            bytes::lemma_bytes_order(cids[i]@, cids[last]@);
        }
        if cids.contains(cid) {
            let i = choose|i: int| 0 <= i < cids.len() && cids[i] == cid;
            if i < last {
                assert(shorter[i] == cid);
            }
        }
        if cids.last() == cid {
            assert(cids[last] == cid);
        }
    }
}

}
