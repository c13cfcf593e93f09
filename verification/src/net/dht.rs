//! Which nodes provide which contents.

use crate::outside::random;
use crate::types::cid::Cid;
use crate::types::node_id::NodeId;
use crate::types::table;
use crate::types::table::KeyTable;
use crate::types::wire::WireMessage;
use vstd::prelude::*;

verus! {

/// The nodes of a list.
pub open spec fn id_set(row: Seq<NodeId>) -> Set<Seq<u8>> {
    Set::new(|id: Seq<u8>| exists|i: int| 0 <= i < row.len() && (#[trigger] row[i])@ == id)
}

/// Whether a list names no node twice.
pub open spec fn ids_distinct(row: Seq<NodeId>) -> bool {
    forall|i: int, j: int|
        0 <= i < row.len() && 0 <= j < row.len() && i != j ==> (#[trigger] row[i])@ != (
        #[trigger] row[j])@
}

/// The number of pairs of a content and a provider among the first `n` keys.
pub open spec fn pairs(
    all: Map<Seq<u8>, Set<Seq<u8>>>,
    keys: Seq<Seq<u8>>,
    n: int,
) -> nat
    decreases n,
{
    if n <= 0 {
        0
    } else {
        pairs(all, keys, n - 1) + all[keys[n - 1]].len()
    }
}

/// Maps each content to the nodes that announced it.
pub struct DhtProviders {
    table: KeyTable<Vec<NodeId>>,
}

impl DhtProviders {
    /// The providers of each content.
    pub closed spec fn providers(&self) -> Map<Seq<u8>, Set<Seq<u8>>> {
        self.table@.map_values(|row: Vec<NodeId>| id_set(row@))
    }

    /// The contents in the order in which they are walked.
    pub closed spec fn order(&self) -> Seq<Seq<u8>> {
        self.table.key_list()
    }

    /// No content is listed without a provider, and no provider twice.
    pub closed spec fn wf(&self) -> bool {
        &&& self.table.wf()
        &&& forall|k: Seq<u8>| #[trigger]
            self.table@.contains_key(k) ==> self.table@[k]@.len() > 0 && ids_distinct(
                self.table@[k]@,
            )
    }

    /// Every content listed has a provider, finitely many of them.
    pub proof fn lemma_no_empty_entry(&self, cid: Seq<u8>)
        requires
            self.wf(),
            self.providers().contains_key(cid),
        ensures
            self.providers()[cid].finite(),
            self.providers()[cid].len() > 0,
    {
        let row = self.table@[cid]@;
        lemma_id_set_len(row);
    }

    /// A table without contents.
    pub fn new() -> (dht: DhtProviders)
        ensures
            dht.wf(),
            dht.providers() == Map::<Seq<u8>, Set<Seq<u8>>>::empty(),
    {
        let dht = DhtProviders { table: KeyTable::new() };
        assert(dht.providers() =~= Map::<Seq<u8>, Set<Seq<u8>>>::empty());
        dht
    }

    /// Records that a node provides a content. Recording it again changes nothing.
    pub fn announce_provider(&mut self, cid: &Cid, node_id: &NodeId)
        requires
            old(self).wf(),
        ensures
            final(self).wf(),
            final(self).providers() == old(self).providers().insert(
                cid@,
                providers_of(old(self).providers(), cid@).insert(node_id@),
            ),
    {
        let mut row: Vec<NodeId> = match self.table.remove(cid.as_bytes()) {
            Some(row) => row,
            None => Vec::new(),
        };
        let ghost before = row@;
        proof {
            if !old(self).providers().contains_key(cid@) {
                assert(id_set(before) =~= Set::<Seq<u8>>::empty());
            }
        }
        if !has_id(&row, node_id) {
            row.push(*node_id);
            proof {
                assert forall|i: int| 0 <= i < before.len() implies (#[trigger] before[i])@
                    != node_id@ by {
                    assert(before[i]@ == before[i]@);
                }
                assert forall|id: Seq<u8>| id_set(before).insert(node_id@).contains(id)
                    <==> id_set(row@).contains(id) by {
                    if id_set(before).contains(id) {
                        let i = choose|i: int| 0 <= i < before.len() && (#[trigger] before[i])@ == id;
                        assert(row@[i]@ == id);
                    }
                    assert(row@[before.len() as int]@ == node_id@);
                    if id_set(row@).contains(id) {
                        let i = choose|i: int| 0 <= i < row@.len() && (#[trigger] row@[i])@ == id;
                        if i < before.len() {
                            assert(before[i]@ == id);
                        }
                    }
                }
                assert(id_set(row@) =~= id_set(before).insert(node_id@));
            }
        } else {
            assert(id_set(row@) =~= id_set(before).insert(node_id@));
        }
        self.table.set(cid.bytes, row);
        proof {
            assert(self.providers() =~= old(self).providers().insert(
                cid@,
                providers_of(old(self).providers(), cid@).insert(node_id@),
            ));
        }
    }

    /// The providers of a content, each once.
    pub fn get_providers(&self, cid: &Cid) -> (ids: Vec<NodeId>)
        requires
            self.wf(),
        ensures
            id_set(ids@) == providers_of(self.providers(), cid@),
            ids_distinct(ids@),
            ids@.len() == providers_of(self.providers(), cid@).len(),
    {
        let ids = match self.table.get(cid.as_bytes()) {
            Some(row) => copy_ids(row),
            None => Vec::new(),
        };
        proof {
            if !self.providers().contains_key(cid@) {
                assert(id_set(ids@) =~= Set::<Seq<u8>>::empty());
            }
            lemma_id_set_len(ids@);
        }
        ids
    }

    /// Removes a node as provider of a content; a content without providers is forgotten.
    pub fn remove_provider(&mut self, cid: &Cid, node_id: &NodeId)
        requires
            old(self).wf(),
        ensures
            final(self).wf(),
            final(self).providers() == without_provider(
                old(self).providers(),
                cid@,
                node_id@,
            ),
    {
        if let Some(row) = self.table.remove(cid.as_bytes()) {
            let kept = drop_id(&row, node_id);
            proof {
                lemma_id_set_len(kept@);
            }
            if kept.len() > 0 {
                self.table.set(cid.bytes, kept);
            }
        }
        proof {
            assert(self.providers() =~= without_provider(
                old(self).providers(),
                cid@,
                node_id@,
            ));
        }
    }

    /// Removes a node as provider of every content; contents without providers are
    /// forgotten.
    pub fn remove_node(&mut self, node_id: &NodeId)
        requires
            old(self).wf(),
        ensures
            final(self).wf(),
            forall|cid: Seq<u8>| #[trigger]
                final(self).providers().contains_key(cid) <==> old(self).providers().contains_key(
                    cid,
                ) && old(self).providers()[cid].remove(node_id@).len() > 0,
            forall|cid: Seq<u8>| #[trigger]
                final(self).providers().contains_key(cid) ==> final(self).providers()[cid] == old(
                    self,
                ).providers()[cid].remove(node_id@),
    {
        let ghost all = self.table@;
        let ghost keys = self.table.key_list();
        let mut fresh: KeyTable<Vec<NodeId>> = KeyTable::new();
        proof {
            self.table.lemma_keys();
            table::lemma_all_rows(all, keys);
            assert(keys.take(keys.len() as int) =~= keys);
        }
        let ghost mut n: int = keys.len() as int;
        let mut more = true;
        while more
            invariant
                0 <= n <= keys.len(),
                !more ==> n == 0,
                self.table.wf(),
                fresh.wf(),
                keys.no_duplicates(),
                keys.to_set() == all.dom(),
                self.table@ == table::first_rows(all, keys, n),
                self.table.key_list() == keys.take(n),
                forall|k: Seq<u8>| #[trigger]
                    all.contains_key(k) ==> all[k]@.len() > 0 && ids_distinct(all[k]@),
                forall|k: Seq<u8>| #[trigger]
                    fresh@.contains_key(k) ==> all.contains_key(k) && ids_distinct(fresh@[k]@)
                        && fresh@[k]@.len() > 0 && id_set(fresh@[k]@) == id_set(all[k]@).remove(
                        node_id@,
                    ),
                forall|i: int|
                    n <= i < keys.len() ==> (fresh@.contains_key(#[trigger] keys[i]) <==> id_set(
                        all[keys[i]]@,
                    ).remove(node_id@).len() > 0),
                forall|i: int| 0 <= i < n ==> !fresh@.contains_key(#[trigger] keys[i]),
            decreases n + if more {
                1int
            } else {
                0int
            },
        {
            match self.table.pop() {
                None => {
                    more = false;
                },
                Some((key, row)) => {
                    proof {
                        table::lemma_first_rows(all, keys, n);
                        n = n - 1;
                    }
                    let kept = drop_id(&row, node_id);
                    proof {
                        lemma_id_set_len(kept@);
                        assert forall|i: int| 0 <= i < keys.len() && i != n implies #[trigger] keys[i]
                            != key@ by {}
                    }
                    if kept.len() > 0 {
                        fresh.set(key, kept);
                    }
                },
            }
        }
        self.table = fresh;
        proof {
            assert forall|cid: Seq<u8>| #[trigger] self.providers().contains_key(cid) <==> old(
                self,
            ).providers().contains_key(cid) && old(self).providers()[cid].remove(node_id@).len()
                > 0 by {
                if all.contains_key(cid) {
                    assert(keys.to_set().contains(cid));
                    let i = choose|i: int| 0 <= i < keys.len() && keys[i] == cid;
                    assert(keys[i] == cid);
                }
            }
        }
    }

    /// The number of contents.
    pub fn cid_count(&self) -> (n: usize)
        requires
            self.wf(),
        ensures
            n == self.providers().dom().len(),
    {
        proof {
            assert(self.providers().dom() =~= self.table@.dom());
        }
        self.table.len()
    }

    /// The number of pairs of a content and a provider, or the largest number where it is
    /// larger.
    pub fn provider_count(&self) -> (n: usize)
        requires
            self.wf(),
        ensures
            self.order().no_duplicates(),
            self.order().to_set() == self.providers().dom(),
            n == if pairs(self.providers(), self.order(), self.order().len() as int)
                <= usize::MAX {
                pairs(self.providers(), self.order(), self.order().len() as int)
            } else {
                usize::MAX as nat
            },
    {
        proof {
            self.table.lemma_keys();
            assert(self.providers().dom() =~= self.table@.dom());
        }
        let len: usize = self.table.len();
        let mut total: usize = 0;
        let mut i: usize = 0;
        while i < len
            invariant
                i <= len,
                len == self.order().len(),
                self.wf(),
                total == if pairs(self.providers(), self.order(), i as int) <= usize::MAX {
                    pairs(self.providers(), self.order(), i as int)
                } else {
                    usize::MAX as nat
                },
            decreases len - i,
        {
            let row = self.table.row_at(i);
            proof {
                lemma_id_set_len(row@);
                assert(self.providers()[self.order()[i as int]] == id_set(row@));
            }
            total = total.saturating_add(row.len());
            i = i + 1;
        }
        total
    }
}

/// The providers of a content; none where it is not listed.
pub open spec fn providers_of(all: Map<Seq<u8>, Set<Seq<u8>>>, cid: Seq<u8>) -> Set<Seq<u8>> {
    if all.contains_key(cid) {
        all[cid]
    } else {
        Set::empty()
    }
}

/// The table without one provider of a content, and without the content where none is left.
pub open spec fn without_provider(
    all: Map<Seq<u8>, Set<Seq<u8>>>,
    cid: Seq<u8>,
    id: Seq<u8>,
) -> Map<Seq<u8>, Set<Seq<u8>>> {
    let left = providers_of(all, cid).remove(id);
    if all.contains_key(cid) && left.len() > 0 {
        all.insert(cid, left)
    } else {
        all.remove(cid)
    }
}

/// A list without repetitions has as many entries as its set of nodes.
pub proof fn lemma_id_set_len(row: Seq<NodeId>)
    ensures
        id_set(row).finite(),
        ids_distinct(row) ==> id_set(row).len() == row.len(),
        row.len() > 0 ==> id_set(row).len() > 0,
{
    let views = row.map_values(|id: NodeId| id@);
    assert forall|id: Seq<u8>| views.to_set().contains(id) <==> id_set(row).contains(id) by {
        if views.to_set().contains(id) {
            let i = choose|i: int| 0 <= i < views.len() && views[i] == id;
            assert(row[i]@ == id);
        }
        if id_set(row).contains(id) {
            let i = choose|i: int| 0 <= i < row.len() && (#[trigger] row[i])@ == id;
            assert(views[i] == id);
        }
    }
    assert(views.to_set() =~= id_set(row));
    vstd::seq_lib::seq_to_set_is_finite(views);
    if ids_distinct(row) {
        assert(views.no_duplicates()) by {
            assert forall|i: int, j: int|
                0 <= i < views.len() && 0 <= j < views.len() && i != j implies views[i]
                != views[j] by {
                assert(row[i]@ != row[j]@);
            }
        }
        views.unique_seq_to_set();
    }
    if row.len() > 0 {
        assert(row[0]@ == row[0]@);
        assert(id_set(row).contains(row[0]@));
        if id_set(row).len() == 0 {
            assert(id_set(row) =~= Set::<Seq<u8>>::empty());
        }
    }
}

/// Whether a list names a node.
pub fn has_id(row: &Vec<NodeId>, id: &NodeId) -> (found: bool)
    ensures
        found == id_set(row@).contains(id@),
{
    let mut i: usize = 0;
    while i < row.len()
        invariant
            i <= row@.len(),
            forall|j: int| 0 <= j < i ==> (#[trigger] row@[j])@ != id@,
        decreases row@.len() - i,
    {
        if row[i] == *id {
            assert(row@[i as int]@ == id@);
            return true;
        }
        i = i + 1;
    }
    false
}

/// A copy of a list.
pub fn copy_ids(row: &Vec<NodeId>) -> (copy: Vec<NodeId>)
    ensures
        copy@ == row@,
{
    let mut copy: Vec<NodeId> = Vec::new();
    let mut i: usize = 0;
    while i < row.len()
        invariant
            i <= row@.len(),
            copy@ == row@.take(i as int),
        decreases row@.len() - i,
    {
        copy.push(row[i]);
        i = i + 1;
        assert(copy@ =~= row@.take(i as int));
    }
    assert(row@.take(row@.len() as int) =~= row@);
    copy
}

/// A list without one node.
pub fn drop_id(row: &Vec<NodeId>, id: &NodeId) -> (kept: Vec<NodeId>)
    requires
        ids_distinct(row@),
    ensures
        ids_distinct(kept@),
        id_set(kept@) == id_set(row@).remove(id@),
        kept@.len() == id_set(row@).remove(id@).len(),
{
    let mut kept: Vec<NodeId> = Vec::new();
    let ghost mut from: Seq<int> = Seq::empty();
    let mut i: usize = 0;
    while i < row.len()
        invariant
            i <= row@.len(),
            ids_distinct(row@),
            from.len() == kept@.len(),
            forall|j: int|
                #![trigger kept@[j]]
                #![trigger from[j]]
                0 <= j < kept@.len() ==> 0 <= from[j] < i && kept@[j] == row@[from[j]] && kept@[j]@
                    != id@,
            forall|j: int, m: int| 0 <= j < m < from.len() ==> from[j] < from[m],
            forall|j: int|
                0 <= j < i && (#[trigger] row@[j])@ != id@ ==> exists|m: int|
                    0 <= m < kept@.len() && (#[trigger] kept@[m])@ == row@[j]@,
        decreases row@.len() - i,
    {
        let ghost before = kept@;
        if row[i] != *id {
            kept.push(row[i]);
            proof {
                from = from.push(i as int);
                assert(kept@[before.len() as int]@ == row@[i as int]@);
            }
        }
        proof {
            assert forall|j: int| 0 <= j < i + 1 && (#[trigger] row@[j])@ != id@ implies exists|
                m: int,
            | 0 <= m < kept@.len() && (#[trigger] kept@[m])@ == row@[j]@ by {
                if j < i {
                    let m = choose|m: int|
                        0 <= m < before.len() && (#[trigger] before[m])@ == row@[j]@;
                    assert(kept@[m]@ == row@[j]@);
                }
            }
        }
        i = i + 1;
    }
    proof {
        assert forall|j: int, m: int|
            0 <= j < kept@.len() && 0 <= m < kept@.len() && j != m implies (#[trigger] kept@[j])@
            != (#[trigger] kept@[m])@ by {
            assert(from[j] != from[m]);
            assert(row@[from[j]]@ != row@[from[m]]@);
        }
        assert forall|x: Seq<u8>| id_set(kept@).contains(x) <==> id_set(row@).remove(id@).contains(
            x,
        ) by {
            if id_set(kept@).contains(x) {
                let j = choose|j: int| 0 <= j < kept@.len() && (#[trigger] kept@[j])@ == x;
                assert(row@[from[j]]@ == x);
            }
            if id_set(row@).remove(id@).contains(x) {
                let j = choose|j: int| 0 <= j < row@.len() && (#[trigger] row@[j])@ == x;
                let m = choose|m: int| 0 <= m < kept@.len() && (#[trigger] kept@[m])@ == row@[j]@;
                assert(kept@[m]@ == x);
            }
        }
        assert(id_set(kept@) =~= id_set(row@).remove(id@));
        lemma_id_set_len(kept@);
    }
    kept
}

/// Announcing twice is announcing once, and removing undoes it where the node was no
/// provider before.
pub proof fn lemma_announce_remove(all: Map<Seq<u8>, Set<Seq<u8>>>, cid: Seq<u8>, id: Seq<u8>)
    requires
        !providers_of(all, cid).contains(id),
        all.contains_key(cid) ==> all[cid].len() > 0,
    ensures
        ({
            let once = all.insert(cid, providers_of(all, cid).insert(id));
            &&& once.insert(cid, providers_of(once, cid).insert(id)) == once
            &&& without_provider(once, cid, id) == all
        }),
{
    let once = all.insert(cid, providers_of(all, cid).insert(id));
    assert(once[cid].insert(id) =~= once[cid]);
    assert(once.insert(cid, once[cid]) =~= once);
    assert(once[cid].remove(id) =~= providers_of(all, cid));
    assert(without_provider(once, cid, id) =~= all);
}

/// Entry `m` is `e^m`, rounded down.
pub const E_POWERS: [u64; 45] = [
    1, 2, 7, 20, 54,
    148, 403, 1096, 2980, 8103,
    22026, 59874, 162754, 442413, 1202604,
    3269017, 8886110, 24154952, 65659969, 178482300,
    485165195, 1318815734, 3584912846, 9744803446, 26489122129,
    72004899337, 195729609428, 532048240601, 1446257064291, 3931334297144,
    10686474581524, 29048849665247, 78962960182680, 214643579785916, 583461742527454,
    1586013452313430, 4311231547115195, 11719142372802611, 31855931757113756, 86593400423993746,
    235385266837019985, 639843493530054949, 1739274941520501047, 4727839468229346561, 12851600114359308275,
];

/// The natural logarithm of `n`, rounded up, and at least one: the least positive `m` from
/// the given one on with `n <= e^m`.
pub open spec fn fanout_from(n: nat, m: nat) -> nat
    decreases 45 - m,
{
    if m >= 45 || n <= E_POWERS@[m as int] {
        m
    } else {
        fanout_from(n, m + 1)
    }
}

/// To how many of `n` peers a content is announced.
pub fn announce_fanout(n: usize) -> (count: usize)
    ensures
        count == fanout_from(n as nat, 1),
{
    let mut m: usize = 1;
    while m < 45 && n as u64 > E_POWERS[m]
        invariant
            1 <= m <= 45,
            fanout_from(n as nat, m as nat) == fanout_from(n as nat, 1),
        decreases 45 - m,
    {
        m = m + 1;
    }
    m
}

/// The fan-out is positive, and no less for more peers.
pub proof fn lemma_fanout_grows(a: nat, b: nat, m: nat)
    requires
        a <= b,
        1 <= m <= 45,
    ensures
        1 <= fanout_from(a, m) <= fanout_from(b, m) <= 45,
    decreases 45 - m,
{
    if m < 45 {
        lemma_fanout_grows(a, b, m + 1);
        lemma_fanout_grows(a, a, m + 1);
        lemma_fanout_at_least(b, m);
    }
}

proof fn lemma_fanout_at_least(n: nat, m: nat)
    requires
        m <= 45,
    ensures
        m <= fanout_from(n, m) <= 45,
    decreases 45 - m,
{
    if m < 45 {
        lemma_fanout_at_least(n, m + 1);
    }
}

/// Whether `picked` are nodes at distinct places of `peers`.
pub open spec fn picked_from(picked: Seq<NodeId>, peers: Seq<NodeId>) -> bool {
    exists|places: Seq<int>| #[trigger] places_ok(places, picked, peers)
}

/// Whether `picked` are the nodes at the given places of `peers`, all of them distinct.
pub open spec fn places_ok(places: Seq<int>, picked: Seq<NodeId>, peers: Seq<NodeId>) -> bool {
    &&& places.len() == picked.len()
    &&& places.no_duplicates()
    &&& forall|i: int|
        0 <= i < places.len() ==> 0 <= #[trigger] places[i] < peers.len() && picked[i]
            == peers[places[i]]
}

/// The peers to which a content is announced: as many random ones as the fan-out says, and
/// all where there are fewer.
pub fn announce_targets(peers: &[NodeId]) -> (targets: Vec<NodeId>)
    ensures
        picked_from(targets@, peers@),
        targets@.len() == if peers@.len() == 0 {
            0
        } else if fanout_from(peers@.len(), 1) < peers@.len() {
            fanout_from(peers@.len(), 1)
        } else {
            peers@.len()
        },
{
    if peers.len() == 0 {
        let targets: Vec<NodeId> = Vec::new();
        assert(places_ok(Seq::empty(), targets@, peers@));
        return targets;
    }
    let fanout: usize = announce_fanout(peers.len());
    let count: usize = if fanout < peers.len() {
        fanout
    } else {
        peers.len()
    };
    random::choose_nodes(peers, count)
}

/// The announcement of a content, and the peers to send it to.
pub fn announce_cid_to_peers(cid: &Cid, local_id: &NodeId, alive_peers: &[NodeId]) -> (plan: (
    Vec<NodeId>,
    WireMessage,
))
    ensures
        picked_from(plan.0@, alive_peers@),
        plan.0@.len() == if alive_peers@.len() == 0 {
            0
        } else if fanout_from(alive_peers@.len(), 1) < alive_peers@.len() {
            fanout_from(alive_peers@.len(), 1)
        } else {
            alive_peers@.len()
        },
        plan.1 == (WireMessage::ProviderAnnounce { cid: *cid, node_id: *local_id }),
{
    let targets = announce_targets(alive_peers);
    (targets, WireMessage::ProviderAnnounce { cid: *cid, node_id: *local_id })
}

}
