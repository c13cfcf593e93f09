//! Which nodes hold how many pieces of each content.

use crate::types::cid::Cid;
use crate::types::node_id::NodeId;
use crate::types::order;
use crate::types::table;
use crate::types::table::KeyTable;
use vstd::prelude::*;

verus! {

/// A node that holds pieces of a content.
#[derive(Clone, Copy, Debug, PartialEq, Eq)]
pub struct PieceHolder {
    /// The node.
    pub node_id: NodeId,
    /// How many pieces it holds.
    pub piece_count: u32,
    /// When this was last confirmed, in milliseconds.
    pub last_seen: u64,
}

/// Whether a node is among the holders.
pub open spec fn has_holder(holders: Seq<PieceHolder>, node: Seq<u8>) -> bool {
    exists|i: int| 0 <= i < holders.len() && (#[trigger] holders[i]).node_id@ == node
}

/// Whether no node is among the holders twice.
pub open spec fn one_record_each(holders: Seq<PieceHolder>) -> bool {
    forall|i: int, j: int|
        0 <= i < holders.len() && 0 <= j < holders.len() && i != j ==> (
        #[trigger] holders[i]).node_id@ != (#[trigger] holders[j]).node_id@
}

/// A record after a new one for the same node: the larger count and the newer time.
pub open spec fn merged(known: PieceHolder, news: PieceHolder) -> PieceHolder {
    PieceHolder {
        node_id: known.node_id,
        piece_count: if known.piece_count >= news.piece_count {
            known.piece_count
        } else {
            news.piece_count
        },
        last_seen: news.last_seen,
    }
}

/// The holders after one more record: merged into the record of its node, or added behind
/// the others.
pub open spec fn recorded(holders: Seq<PieceHolder>, news: PieceHolder) -> Seq<PieceHolder> {
    if has_holder(holders, news.node_id@) {
        holders.map_values(
            |h: PieceHolder|
                if h.node_id@ == news.node_id@ {
                    merged(h, news)
                } else {
                    h
                },
        )
    } else {
        holders.push(news)
    }
}

/// The number of pieces of all holders.
pub open spec fn total(holders: Seq<PieceHolder>) -> nat
    decreases holders.len(),
{
    if holders.len() == 0 {
        0
    } else {
        total(holders.drop_last()) + holders.last().piece_count as nat
    }
}

/// The number of pieces that a node holds.
pub open spec fn count_of(holders: Seq<PieceHolder>, node: Seq<u8>) -> u32
    decreases holders.len(),
{
    if holders.len() == 0 {
        0
    } else if holders[0].node_id@ == node {
        holders[0].piece_count
    } else {
        count_of(holders.drop_first(), node)
    }
}

/// Which holders stay on record.
#[derive(Clone, Copy)]
pub enum Keep {
    /// All but a node.
    AllBut(NodeId),
    /// Those confirmed less than `max_age` before `now`.
    Younger { max_age: u64, now: u64 },
}

/// Whether a holder stays on record.
pub open spec fn stays(rule: Keep, h: PieceHolder) -> bool {
    match rule {
        Keep::AllBut(node) => h.node_id@ != node@,
        Keep::Younger { max_age, now } => h.last_seen > now - max_age,
    }
}

/// The holders that stay on record, in their order.
pub open spec fn remaining(holders: Seq<PieceHolder>, rule: Keep) -> Seq<PieceHolder>
    decreases holders.len(),
{
    if holders.len() == 0 {
        holders
    } else if stays(rule, holders.last()) {
        remaining(holders.drop_last(), rule).push(holders.last())
    } else {
        remaining(holders.drop_last(), rule)
    }
}

/// What is known of the holders and of the generation sizes, by content.
#[verifier::ext_equal]
pub struct TrackerView {
    /// The holders of each content.
    pub holders: Map<Seq<u8>, Seq<PieceHolder>>,
    /// The generation size of each content.
    pub ks: Map<Seq<u8>, u32>,
}

/// The holders of a content, none where it is unknown.
pub open spec fn holders_of(view: TrackerView, cid: Seq<u8>) -> Seq<PieceHolder> {
    if view.holders.contains_key(cid) {
        view.holders[cid]
    } else {
        Seq::empty()
    }
}

/// How many records go from the first `n` contents.
pub open spec fn dropped(
    holders: Map<Seq<u8>, Seq<PieceHolder>>,
    order: Seq<Seq<u8>>,
    n: int,
    rule: Keep,
) -> nat
    decreases n,
{
    if n <= 0 {
        0
    } else {
        dropped(holders, order, n - 1, rule) + (holders[order[n - 1]].len() - remaining(
            holders[order[n - 1]],
            rule,
        ).len()) as nat
    }
}

/// Whether `after` lists the contents that have holders left, with those holders.
pub open spec fn thinned(
    before: Map<Seq<u8>, Seq<PieceHolder>>,
    after: Map<Seq<u8>, Seq<PieceHolder>>,
    rule: Keep,
) -> bool {
    &&& forall|cid: Seq<u8>| #[trigger]
        after.contains_key(cid) <==> before.contains_key(cid) && remaining(before[cid], rule).len()
            > 0
    &&& forall|cid: Seq<u8>| #[trigger]
        after.contains_key(cid) ==> after[cid] == remaining(before[cid], rule)
}

/// Keeps the holders of each content.
pub struct PieceTracker {
    availability: KeyTable<Vec<PieceHolder>>,
    k_values: KeyTable<u32>,
}

impl View for PieceTracker {
    type V = TrackerView;

    closed spec fn view(&self) -> TrackerView {
        TrackerView {
            holders: self.availability@.map_values(|row: Vec<PieceHolder>| row@),
            ks: self.k_values@,
        }
    }
}

impl PieceTracker {
    /// The contents in the order in which they are walked.
    pub closed spec fn order(&self) -> Seq<Seq<u8>> {
        self.availability.key_list()
    }

    /// No content is listed without a holder, and no holder twice.
    pub closed spec fn wf(&self) -> bool {
        &&& self.availability.wf()
        &&& self.k_values.wf()
        &&& forall|k: Seq<u8>| #[trigger]
            self.availability@.contains_key(k) ==> row_ok(self.availability@[k]@)
    }

    /// Every content listed has a holder, and each node has one record at most.
    pub proof fn lemma_one_record_each(&self, cid: Seq<u8>)
        requires
            self.wf(),
        ensures
            one_record_each(holders_of(self@, cid)),
            self@.holders.contains_key(cid) ==> self@.holders[cid].len() > 0,
    {
        if self@.holders.contains_key(cid) {
            assert(self.availability@.contains_key(cid));
        }
    }

    /// The order names every content once.
    pub proof fn lemma_order(&self)
        requires
            self.wf(),
        ensures
            self.order().no_duplicates(),
            self.order().to_set() == self@.holders.dom(),
            self@.holders.dom().finite(),
    {
        self.availability.lemma_keys();
        assert(self@.holders.dom() =~= self.availability@.dom());
    }

    /// Nothing is known.
    pub fn new() -> (tracker: PieceTracker)
        ensures
            tracker.wf(),
            tracker@.holders == Map::<Seq<u8>, Seq<PieceHolder>>::empty(),
            tracker@.ks == Map::<Seq<u8>, u32>::empty(),
    {
        let tracker = PieceTracker { availability: KeyTable::new(), k_values: KeyTable::new() };
        assert(tracker@.holders =~= Map::<Seq<u8>, Seq<PieceHolder>>::empty());
        tracker
    }

    /// Records that a node holds pieces of a content.
    pub fn record_piece(&mut self, cid: &Cid, holder: PieceHolder)
        requires
            old(self).wf(),
        ensures
            final(self).wf(),
            final(self)@ == (TrackerView {
                holders: old(self)@.holders.insert(
                    cid@,
                    recorded(holders_of(old(self)@, cid@), holder),
                ),
                ..old(self)@
            }),
    {
        let mut row: Vec<PieceHolder> = match self.availability.remove(cid.as_bytes()) {
            Some(row) => row,
            None => Vec::new(),
        };
        let ghost before = row@;
        proof {
            if !old(self)@.holders.contains_key(cid@) {
                assert(before =~= Seq::<PieceHolder>::empty());
            }
        }
        record(&mut row, holder);
        self.availability.set(cid.bytes, row);
        proof {
            assert(self@.holders =~= old(self)@.holders.insert(
                cid@,
                recorded(holders_of(old(self)@, cid@), holder),
            ));
        }
    }

    /// The holders of a content.
    pub fn get_holders(&self, cid: &Cid) -> (holders: Vec<PieceHolder>)
        requires
            self.wf(),
        ensures
            holders@ == holders_of(self@, cid@),
    {
        let mut holders: Vec<PieceHolder> = Vec::new();
        if let Some(row) = self.availability.get(cid.as_bytes()) {
            let mut i: usize = 0;
            while i < row.len()
                invariant
                    i <= row@.len(),
                    holders@ == row@.take(i as int),
                decreases row@.len() - i,
            {
                holders.push(row[i]);
                proof {
                    assert(row@.take(i + 1) =~= row@.take(i as int).push(row@[i as int]));
                }
                i = i + 1;
            }
            proof {
                assert(row@.take(i as int) =~= row@);
            }
        }
        holders
    }

    /// The number of pieces of a content at all its holders.
    pub fn available_count(&self, cid: &Cid) -> (n: u32)
        requires
            self.wf(),
            total(holders_of(self@, cid@)) <= u32::MAX,
        ensures
            n == total(holders_of(self@, cid@)),
    {
        match self.availability.get(cid.as_bytes()) {
            None => 0,
            Some(row) => {
                let mut n: u32 = 0;
                let mut i: usize = 0;
                while i < row.len()
                    invariant
                        i <= row@.len(),
                        n == total(row@.take(i as int)),
                        total(row@) <= u32::MAX,
                    decreases row@.len() - i,
                {
                    proof {
                        lemma_total_take(row@, i + 1);
                        assert(row@.take(i + 1).drop_last() =~= row@.take(i as int));
                    }
                    n = n + row[i].piece_count;
                    i = i + 1;
                }
                proof {
                    assert(row@.take(i as int) =~= row@);
                }
                n
            },
        }
    }

    /// Whether the number of pieces of a content can be counted.
    pub fn countable(&self, cid: &Cid) -> (fits: bool)
        requires
            self.wf(),
        ensures
            fits == (total(holders_of(self@, cid@)) <= u32::MAX),
    {
        match self.availability.get(cid.as_bytes()) {
            None => true,
            Some(row) => {
                let mut n: u32 = 0;
                let mut i: usize = 0;
                while i < row.len()
                    invariant
                        i <= row@.len(),
                        n == total(row@.take(i as int)),
                        row@ == holders_of(self@, cid@),
                    decreases row@.len() - i,
                {
                    proof {
                        lemma_total_take(row@, i + 1);
                        assert(row@.take(i + 1).drop_last() =~= row@.take(i as int));
                    }
                    match n.checked_add(row[i].piece_count) {
                        Some(sum) => {
                            n = sum;
                        },
                        None => {
                            return false;
                        },
                    }
                    i = i + 1;
                }
                proof {
                    assert(row@.take(i as int) =~= row@);
                }
                true
            },
        }
    }

    /// The number of pieces of a content at a node.
    pub fn local_piece_count(&self, cid: &Cid, node_id: &NodeId) -> (n: u32)
        requires
            self.wf(),
        ensures
            n == count_of(holders_of(self@, cid@), node_id@),
    {
        match self.availability.get(cid.as_bytes()) {
            None => 0,
            Some(row) => {
                let mut i: usize = 0;
                proof {
                    assert(row@.skip(0) =~= row@);
                }
                while i < row.len()
                    invariant
                        i <= row@.len(),
                        count_of(row@, node_id@) == count_of(row@.skip(i as int), node_id@),
                        row@ == holders_of(self@, cid@),
                    decreases row@.len() - i,
                {
                    proof {
                        assert(row@.skip(i as int).drop_first() =~= row@.skip(i + 1));
                    }
                    if row[i].node_id == *node_id {
                        return row[i].piece_count;
                    }
                    i = i + 1;
                }
                0
            },
        }
    }

    /// The nodes that hold pieces of a content, with their numbers of pieces.
    pub fn holders_with_count(&self, cid: &Cid) -> (counts: Vec<(NodeId, u32)>)
        requires
            self.wf(),
        ensures
            counts@ == holders_of(self@, cid@).map_values(
                |h: PieceHolder| (h.node_id, h.piece_count),
            ),
    {
        let holders = self.get_holders(cid);
        let mut counts: Vec<(NodeId, u32)> = Vec::new();
        let mut i: usize = 0;
        while i < holders.len()
            invariant
                i <= holders@.len(),
                counts@.len() == i,
                forall|j: int|
                    0 <= j < i ==> #[trigger] counts@[j] == (
                        holders@[j].node_id,
                        holders@[j].piece_count,
                    ),
            decreases holders@.len() - i,
        {
            counts.push((holders[i].node_id, holders[i].piece_count));
            i = i + 1;
        }
        counts
    }

    /// The nodes that hold pieces of a content, each once.
    pub fn holder_nodes(&self, cid: &Cid) -> (nodes: Vec<NodeId>)
        requires
            self.wf(),
        ensures
            nodes@ == holders_of(self@, cid@).map_values(|h: PieceHolder| h.node_id),
    {
        let holders = self.get_holders(cid);
        let mut nodes: Vec<NodeId> = Vec::new();
        let mut i: usize = 0;
        while i < holders.len()
            invariant
                i <= holders@.len(),
                nodes@.len() == i,
                forall|j: int| 0 <= j < i ==> #[trigger] nodes@[j] == holders@[j].node_id,
            decreases holders@.len() - i,
        {
            nodes.push(holders[i].node_id);
            i = i + 1;
        }
        nodes
    }

    /// Records the generation size of a content. The first one recorded stays.
    pub fn record_k(&mut self, cid: &Cid, k: u32)
        requires
            old(self).wf(),
        ensures
            final(self).wf(),
            final(self)@ == (TrackerView {
                ks: if old(self)@.ks.contains_key(cid@) {
                    old(self)@.ks
                } else {
                    old(self)@.ks.insert(cid@, k)
                },
                ..old(self)@
            }),
    {
        if !self.k_values.contains(cid.as_bytes()) {
            self.k_values.set(cid.bytes, k);
        }
    }

    /// The generation size of a content.
    pub fn get_k(&self, cid: &Cid) -> (k: Option<u32>)
        requires
            self.wf(),
        ensures
            k == (if self@.ks.contains_key(cid@) {
                Some(self@.ks[cid@])
            } else {
                None
            }),
    {
        match self.k_values.get(cid.as_bytes()) {
            Some(k) => Some(*k),
            None => None,
        }
    }

    /// Keeps the holders that a rule lets stay, forgets contents without holders, and
    /// returns how many records went and which contents.
    fn thin(&mut self, rule: Keep) -> (outcome: (usize, Vec<[u8; 32]>))
        requires
            old(self).wf(),
        ensures
            final(self).wf(),
            thinned(old(self)@.holders, final(self)@.holders, rule),
            final(self)@.ks == old(self)@.ks,
            outcome.0 == capped(
                dropped(old(self)@.holders, old(self).order(), old(self).order().len() as int, rule),
            ),
            forall|cid: Seq<u8>| #[trigger]
                lists(outcome.1@, cid) <==> emptied(old(self)@.holders, rule).contains(cid),
    {
        let gone: usize = self.count_dropped(rule);
        let ghost all = self.availability@;
        let ghost keys = self.availability.key_list();
        let ghost view = self@.holders;
        let mut fresh: KeyTable<Vec<PieceHolder>> = KeyTable::new();
        let mut lost: Vec<[u8; 32]> = Vec::new();
        proof {
            self.availability.lemma_keys();
            table::lemma_all_rows(all, keys);
            assert(keys.take(keys.len() as int) =~= keys);
        }
        let ghost mut n: int = keys.len() as int;
        let mut more = true;
        while more
            invariant
                0 <= n <= keys.len(),
                !more ==> n == 0,
                self.availability.wf(),
                self.k_values == old(self).k_values,
                fresh.wf(),
                keys.no_duplicates(),
                keys.to_set() == all.dom(),
                view == all.map_values(|row: Vec<PieceHolder>| row@),
                self.availability@ == table::first_rows(all, keys, n),
                self.availability.key_list() == keys.take(n),
                forall|k: Seq<u8>| #[trigger] all.contains_key(k) ==> row_ok(all[k]@),
                forall|k: Seq<u8>| #[trigger]
                    fresh@.contains_key(k) ==> all.contains_key(k) && row_ok(fresh@[k]@)
                        && fresh@[k]@ == remaining(view[k], rule),
                forall|i: int|
                    n <= i < keys.len() ==> (fresh@.contains_key(#[trigger] keys[i]) <==> remaining(
                        view[keys[i]],
                        rule,
                    ).len() > 0),
                forall|i: int| 0 <= i < n ==> !fresh@.contains_key(#[trigger] keys[i]),
                forall|i: int|
                    0 <= i < lost@.len() ==> all.contains_key((#[trigger] lost@[i])@)
                        && remaining(view[lost@[i]@], rule).len() == 0,
                forall|i: int|
                    n <= i < keys.len() && remaining(view[#[trigger] keys[i]], rule).len() == 0
                        ==> exists|j: int|
                        0 <= j < lost@.len() && (#[trigger] lost@[j])@ == keys[i],
            decreases n + if more {
                1int
            } else {
                0int
            },
        {
            match self.availability.pop() {
                None => {
                    more = false;
                },
                Some((key, row)) => {
                    proof {
                        table::lemma_first_rows(all, keys, n);
                        n = n - 1;
                    }
                    let kept = keep(&row, rule);
                    let ghost was = lost@;
                    proof {
                        assert(all.contains_key(key@));
                        assert(view[key@] == row@);
                        lemma_remaining_ok(row@, rule);
                        assert forall|i: int| 0 <= i < keys.len() && i != n implies #[trigger] keys[i]
                            != key@ by {}
                    }
                    if kept.len() > 0 {
                        fresh.set(key, kept);
                    } else {
                        lost.push(key);
                        proof {
                            assert(lost@[was.len() as int]@ == keys[n]);
                            assert forall|i: int|
                                n < i < keys.len() && remaining(
                                    view[#[trigger] keys[i]],
                                    rule,
                                ).len() == 0 implies exists|j: int|
                                0 <= j < lost@.len() && (#[trigger] lost@[j])@ == keys[i] by {
                                let j = choose|j: int|
                                    0 <= j < was.len() && (#[trigger] was[j])@ == keys[i];
                                assert(lost@[j]@ == keys[i]);
                            }
                        }
                    }
                },
            }
        }
        self.availability = fresh;
        proof {
            assert forall|cid: Seq<u8>| #[trigger] self@.holders.contains_key(cid) <==> old(
                self,
            )@.holders.contains_key(cid) && remaining(old(self)@.holders[cid], rule).len() > 0 by {
                if all.contains_key(cid) {
                    assert(keys.to_set().contains(cid));
                    let i = choose|i: int| 0 <= i < keys.len() && keys[i] == cid;
                    assert(keys[i] == cid);
                }
            }
            assert forall|cid: Seq<u8>| #[trigger] lists(lost@, cid) <==> emptied(
                old(self)@.holders,
                rule,
            ).contains(cid) by {
                if emptied(old(self)@.holders, rule).contains(cid) {
                    assert(keys.to_set().contains(cid));
                    let i = choose|i: int| 0 <= i < keys.len() && keys[i] == cid;
                    assert(keys[i] == cid);
                }
            }
        }
        (gone, lost)
    }

    fn count_dropped(&self, rule: Keep) -> (n: usize)
        requires
            self.wf(),
        ensures
            n == capped(dropped(self@.holders, self.order(), self.order().len() as int, rule)),
    {
        let len: usize = self.availability.len();
        let mut count: usize = 0;
        let mut i: usize = 0;
        while i < len
            invariant
                i <= len,
                len == self.order().len(),
                self.wf(),
                count == capped(dropped(self@.holders, self.order(), i as int, rule)),
            decreases len - i,
        {
            let row = self.availability.row_at(i);
            let kept = keep(row, rule);
            proof {
                assert(self@.holders[self.order()[i as int]] == row@);
                lemma_remaining_ok(row@, rule);
            }
            count = count.saturating_add(row.len() - kept.len());
            i = i + 1;
        }
        count
    }

    /// Forgets a node: its records go, and so do contents without holders, with their
    /// generation sizes.
    pub fn remove_node(&mut self, node_id: &NodeId)
        requires
            old(self).wf(),
        ensures
            final(self).wf(),
            thinned(old(self)@.holders, final(self)@.holders, Keep::AllBut(*node_id)),
            final(self)@.ks == old(self)@.ks.remove_keys(
                emptied(old(self)@.holders, Keep::AllBut(*node_id)),
            ),
    {
        let rule = Keep::AllBut(*node_id);
        let (_, gone) = self.thin(rule);
        let ghost holders = self@.holders;
        let ghost lost = emptied(old(self)@.holders, rule);
        let mut i: usize = 0;
        let ghost mut done: Set<Seq<u8>> = Set::empty();
        while i < gone.len()
            invariant
                i <= gone@.len(),
                self.wf(),
                self@.holders == holders,
                self@.ks == old(self)@.ks.remove_keys(done),
                forall|cid: Seq<u8>| #[trigger]
                    done.contains(cid) <==> exists|j: int|
                        0 <= j < i && (#[trigger] gone@[j])@ == cid,
            decreases gone@.len() - i,
        {
            let ghost before = self@.ks;
            let ghost was = done;
            self.k_values.remove(&gone[i]);
            proof {
                done = done.insert(gone@[i as int]@);
                assert(self@.ks =~= old(self)@.ks.remove_keys(done));
                assert forall|cid: Seq<u8>| #[trigger] done.contains(cid) <==> exists|j: int|
                    0 <= j < i + 1 && (#[trigger] gone@[j])@ == cid by {
                    if was.contains(cid) {
                        let j = choose|j: int| 0 <= j < i && (#[trigger] gone@[j])@ == cid;
                        assert(gone@[j]@ == cid);
                    }
                }
            }
            i = i + 1;
        }
        proof {
            assert forall|cid: Seq<u8>| done.contains(cid) <==> lost.contains(cid) by {
                assert(lists(gone@, cid) <==> lost.contains(cid));
            }
            assert(done =~= lost);
        }
    }

    /// Drops the records that were confirmed `max_age` before `now` or earlier, and
    /// contents without holders. Returns how many records were dropped.
    pub fn prune_stale(&mut self, max_age: u64, now: u64) -> (pruned: usize)
        requires
            old(self).wf(),
        ensures
            final(self).wf(),
            thinned(old(self)@.holders, final(self)@.holders, Keep::Younger { max_age, now }),
            final(self)@.ks == old(self)@.ks,
            pruned == capped(
                dropped(
                    old(self)@.holders,
                    old(self).order(),
                    old(self).order().len() as int,
                    Keep::Younger { max_age, now },
                ),
            ),
    {
        let (pruned, _) = self.thin(Keep::Younger { max_age, now });
        pruned
    }

    /// The number of contents with holders.
    pub fn cid_count(&self) -> (n: usize)
        requires
            self.wf(),
        ensures
            n == self@.holders.dom().len(),
    {
        proof {
            assert(self@.holders.dom() =~= self.availability@.dom());
        }
        self.availability.len()
    }

    /// The contents with holders, in ascending order.
    pub fn sorted_cids(&self) -> (cids: Vec<Cid>)
        requires
            self.wf(),
        ensures
            cids@ == order::cid_list(self@.holders.dom()),
            order::ascending(cids@),
            order::cid_set(cids@) == self@.holders.dom(),
            cids@.len() == self@.holders.dom().len(),
    {
        proof {
            assert(self@.holders.dom() =~= self.availability@.dom());
        }
        order::sorted_keys(&self.availability)
    }
}

/// Whether a list names a content.
pub open spec fn lists(keys: Seq<[u8; 32]>, cid: Seq<u8>) -> bool {
    exists|i: int| 0 <= i < keys.len() && (#[trigger] keys[i])@ == cid
}

/// The contents that lose their last holder by a rule.
pub open spec fn emptied(holders: Map<Seq<u8>, Seq<PieceHolder>>, rule: Keep) -> Set<Seq<u8>> {
    Set::new(
        |cid: Seq<u8>| holders.contains_key(cid) && remaining(holders[cid], rule).len() == 0,
    )
}

/// A number, or the largest one where it is larger.
pub open spec fn capped(n: nat) -> usize {
    if n <= usize::MAX {
        n as usize
    } else {
        usize::MAX
    }
}

/// Whether a list of holders is not empty and names no node twice.
pub open spec fn row_ok(row: Seq<PieceHolder>) -> bool {
    row.len() > 0 && one_record_each(row)
}

fn record(row: &mut Vec<PieceHolder>, holder: PieceHolder)
    requires
        one_record_each(old(row)@),
    ensures
        row_ok(final(row)@),
        final(row)@ == recorded(old(row)@, holder),
{
    let ghost before = row@;
    let mut i: usize = 0;
    while i < row.len()
        invariant
            i <= row@.len(),
            row@ == before,
            before == old(row)@,
            one_record_each(before),
            forall|j: int| 0 <= j < i ==> (#[trigger] row@[j]).node_id@ != holder.node_id@,
        decreases row@.len() - i,
    {
        let known: PieceHolder = row[i];
        if known.node_id == holder.node_id {
            let piece_count: u32 = if known.piece_count >= holder.piece_count {
                known.piece_count
            } else {
                holder.piece_count
            };
            row.set(
                i,
                PieceHolder {
                    node_id: known.node_id,
                    piece_count,
                    last_seen: holder.last_seen,
                },
            );
            proof {
                assert(before[i as int].node_id@ == holder.node_id@);
                assert(row@ =~= recorded(before, holder)) by {
                    assert forall|j: int| 0 <= j < before.len() && j != i implies (
                    #[trigger] before[j]).node_id@ != holder.node_id@ by {
                        assert(before[j].node_id@ != before[i as int].node_id@);
                    }
                }
                assert forall|a: int, b: int|
                    0 <= a < row@.len() && 0 <= b < row@.len() && a != b implies (
                #[trigger] row@[a]).node_id@ != (#[trigger] row@[b]).node_id@ by {
                    assert(row@[a].node_id == before[a].node_id);
                    assert(row@[b].node_id == before[b].node_id);
                }
            }
            return ;
        }
        i = i + 1;
    }
    row.push(holder);
    proof {
        assert(!has_holder(before, holder.node_id@));
        assert forall|a: int, b: int|
            0 <= a < row@.len() && 0 <= b < row@.len() && a != b implies (
        #[trigger] row@[a]).node_id@ != (#[trigger] row@[b]).node_id@ by {
            if a < before.len() {
                assert(row@[a] == before[a]);
            }
            if b < before.len() {
                assert(row@[b] == before[b]);
            }
        }
    }
}

fn keep(row: &Vec<PieceHolder>, rule: Keep) -> (kept: Vec<PieceHolder>)
    ensures
        kept@ == remaining(row@, rule),
{
    let mut kept: Vec<PieceHolder> = Vec::new();
    let mut i: usize = 0;
    proof {
        assert(row@.take(0) =~= Seq::<PieceHolder>::empty());
    }
    while i < row.len()
        invariant
            i <= row@.len(),
            kept@ == remaining(row@.take(i as int), rule),
        decreases row@.len() - i,
    {
        let h: PieceHolder = row[i];
        let stay = match rule {
            Keep::AllBut(node) => h.node_id != node,
            Keep::Younger { max_age, now } => now < max_age || h.last_seen > now - max_age,
        };
        proof {
            assert(row@.take(i + 1).drop_last() =~= row@.take(i as int));
            assert(row@.take(i + 1).last() == h);
        }
        if stay {
            kept.push(h);
        }
        i = i + 1;
    }
    proof {
        assert(row@.take(i as int) =~= row@);
    }
    kept
}

proof fn lemma_remaining_ok(row: Seq<PieceHolder>, rule: Keep)
    requires
        one_record_each(row),
    ensures
        one_record_each(remaining(row, rule)),
        remaining(row, rule).len() <= row.len(),
        forall|i: int|
            0 <= i < remaining(row, rule).len() ==> exists|j: int|
                0 <= j < row.len() && #[trigger] row[j] == #[trigger] remaining(row, rule)[i],
    decreases row.len(),
{
    if row.len() > 0 {
        let front = row.drop_last();
        assert forall|a: int, b: int|
            0 <= a < front.len() && 0 <= b < front.len() && a != b implies (
        #[trigger] front[a]).node_id@ != (#[trigger] front[b]).node_id@ by {
            assert(front[a] == row[a] && front[b] == row[b]);
        }
        lemma_remaining_ok(front, rule);
        let rest = remaining(front, rule);
        let out = remaining(row, rule);
        assert forall|i: int| 0 <= i < rest.len() implies exists|j: int|
            0 <= j < row.len() - 1 && #[trigger] row[j] == #[trigger] rest[i] by {
            let j = choose|j: int| 0 <= j < front.len() && #[trigger] front[j] == rest[i];
            assert(row[j] == rest[i]);
        }
        assert forall|i: int| 0 <= i < out.len() implies exists|j: int|
            0 <= j < row.len() && #[trigger] row[j] == #[trigger] out[i] by {
            if i < rest.len() {
                assert(out[i] == rest[i]);
            } else {
                assert(row[row.len() - 1] == out[i]);
            }
        }
        assert forall|a: int, b: int| 0 <= a < out.len() && 0 <= b < out.len() && a != b implies (
        #[trigger] out[a]).node_id@ != (#[trigger] out[b]).node_id@ by {
            if a < rest.len() {
                assert(out[a] == rest[a]);
            }
            if b < rest.len() {
                assert(out[b] == rest[b]);
            }
        }
    }
}

proof fn lemma_total_take(row: Seq<PieceHolder>, n: int)
    requires
        0 <= n <= row.len(),
    ensures
        total(row.take(n)) <= total(row),
    decreases row.len() - n,
{
    if n < row.len() {
        lemma_total_take(row, n + 1);
        assert(row.take(n + 1).drop_last() =~= row.take(n));
    } else {
        assert(row.take(n) =~= row);
    }
}

/// After a record, the node holds at least the recorded number of pieces, and no node holds
/// fewer than before.
pub proof fn lemma_counts_grow(holders: Seq<PieceHolder>, news: PieceHolder, node: Seq<u8>)
    requires
        one_record_each(holders),
    ensures
        count_of(recorded(holders, news), node) >= count_of(holders, node),
        count_of(recorded(holders, news), news.node_id@) >= news.piece_count,
        node != news.node_id@ ==> count_of(recorded(holders, news), node) == count_of(
            holders,
            node,
        ),
{
    lemma_count_holds(holders, node);
    lemma_count_holds(holders, news.node_id@);
    lemma_recorded_ok(holders, news);
    let after = recorded(holders, news);
    lemma_count_holds(after, node);
    lemma_count_holds(after, news.node_id@);
    if has_holder(holders, news.node_id@) {
        let i = choose|i: int|
            0 <= i < holders.len() && (#[trigger] holders[i]).node_id@ == news.node_id@;
        assert(after[i].node_id@ == news.node_id@);
    } else {
        assert(after[holders.len() as int].node_id@ == news.node_id@);
    }
    if has_holder(holders, node) {
        let i = choose|i: int| 0 <= i < holders.len() && (#[trigger] holders[i]).node_id@ == node;
        assert(after[i].node_id@ == node);
    } else if node != news.node_id@ && has_holder(after, node) {
        let i = choose|i: int| 0 <= i < after.len() && (#[trigger] after[i]).node_id@ == node;
        assert(holders[i].node_id@ == node);
    }
}

proof fn lemma_recorded_ok(holders: Seq<PieceHolder>, news: PieceHolder)
    requires
        one_record_each(holders),
    ensures
        one_record_each(recorded(holders, news)),
{
    let after = recorded(holders, news);
    assert forall|a: int, b: int| 0 <= a < after.len() && 0 <= b < after.len() && a != b implies (
    #[trigger] after[a]).node_id@ != (#[trigger] after[b]).node_id@ by {
        if a < holders.len() {
            assert(after[a].node_id == holders[a].node_id);
        }
        if b < holders.len() {
            assert(after[b].node_id == holders[b].node_id);
        }
    }
}

/// The count of a node is the one of its record, and zero without one.
pub proof fn lemma_count_holds(holders: Seq<PieceHolder>, node: Seq<u8>)
    requires
        one_record_each(holders),
    ensures
        forall|i: int|
            0 <= i < holders.len() && (#[trigger] holders[i]).node_id@ == node ==> count_of(
                holders,
                node,
            ) == holders[i].piece_count,
        !has_holder(holders, node) ==> count_of(holders, node) == 0,
    decreases holders.len(),
{
    if holders.len() > 0 {
        let rest = holders.drop_first();
        assert forall|a: int, b: int|
            0 <= a < rest.len() && 0 <= b < rest.len() && a != b implies (
        #[trigger] rest[a]).node_id@ != (#[trigger] rest[b]).node_id@ by {
            assert(rest[a] == holders[a + 1] && rest[b] == holders[b + 1]);
        }
        lemma_count_holds(rest, node);
        assert forall|i: int|
            0 <= i < holders.len() && (#[trigger] holders[i]).node_id@ == node implies count_of(
            holders,
            node,
        ) == holders[i].piece_count by {
            if i > 0 {
                assert(rest[i - 1] == holders[i]);
                assert(holders[0].node_id@ != node);
            }
        }
        if has_holder(rest, node) {
            let i = choose|i: int| 0 <= i < rest.len() && (#[trigger] rest[i]).node_id@ == node;
            assert(holders[i + 1].node_id@ == node);
        }
    }
}

/// A node that was removed is nowhere among the holders, and the others stay.
pub proof fn lemma_removed_node_holds_nothing(
    before: Map<Seq<u8>, Seq<PieceHolder>>,
    after: Map<Seq<u8>, Seq<PieceHolder>>,
    node: NodeId,
    cid: Seq<u8>,
    i: int,
)
    requires
        thinned(before, after, Keep::AllBut(node)),
        before.contains_key(cid),
        0 <= i < before[cid].len(),
    ensures
        after.contains_key(cid) ==> !has_holder(after[cid], node@),
        before[cid][i].node_id@ != node@ ==> after.contains_key(cid) && after[cid].contains(
            before[cid][i],
        ),
{
    let rule = Keep::AllBut(node);
    lemma_remaining_rule(before[cid], rule);
    if before[cid][i].node_id@ != node@ {
        lemma_remaining_keeps(before[cid], rule, i);
    }
}

proof fn lemma_remaining_rule(row: Seq<PieceHolder>, rule: Keep)
    ensures
        forall|i: int|
            0 <= i < remaining(row, rule).len() ==> stays(rule, #[trigger] remaining(row, rule)[i]),
    decreases row.len(),
{
    if row.len() > 0 {
        lemma_remaining_rule(row.drop_last(), rule);
        let rest = remaining(row.drop_last(), rule);
        let out = remaining(row, rule);
        assert forall|i: int| 0 <= i < out.len() implies stays(rule, #[trigger] out[i]) by {
            if i < rest.len() {
                assert(out[i] == rest[i]);
            }
        }
    }
}

proof fn lemma_remaining_keeps(row: Seq<PieceHolder>, rule: Keep, i: int)
    requires
        0 <= i < row.len(),
        stays(rule, row[i]),
    ensures
        remaining(row, rule).contains(row[i]),
    decreases row.len(),
{
    let front = row.drop_last();
    let rest = remaining(front, rule);
    let out = remaining(row, rule);
    if i < front.len() {
        lemma_remaining_keeps(front, rule, i);
        let j = choose|j: int| 0 <= j < rest.len() && rest[j] == row[i];
        assert(out[j] == row[i]);
    } else {
        assert(out[out.len() - 1] == row[i]);
    }
}

}
