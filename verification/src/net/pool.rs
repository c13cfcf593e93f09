//! The pool of open connections.
//!
//! A connection is known by a number; whoever opens connections keeps them under these.

use crate::types::node_id::NodeId;
use crate::types::table::KeyTable;
use vstd::prelude::*;

verus! {

/// Milliseconds without use after which a connection counts as idle.
pub const DEFAULT_IDLE_TIMEOUT: u64 = 300_000;

/// How many connections a pool holds unless told otherwise.
pub const DEFAULT_MAX_CONNECTIONS: usize = 256;

/// A connection, and the times in milliseconds when it was opened and last used.
#[derive(Clone, Copy, Debug, PartialEq, Eq, Structural)]
pub struct PooledConnection {
    pub connection: u64,
    pub established_at: u64,
    pub last_used: u64,
}

/// The slot of the connection that was unused for longest among the first `n`, the first of
/// several.
pub open spec fn oldest_slot(
    keys: Seq<Seq<u8>>,
    all: Map<Seq<u8>, PooledConnection>,
    n: int,
) -> int
    decreases n,
{
    if n <= 1 {
        0
    } else {
        let before = oldest_slot(keys, all, n - 1);
        if all[keys[n - 1]].last_used < all[keys[before]].last_used {
            n - 1
        } else {
            before
        }
    }
}

/// The connections after room was made in a full pool: without the one that was unused for
/// longest.
pub open spec fn after_eviction(
    keys: Seq<Seq<u8>>,
    all: Map<Seq<u8>, PooledConnection>,
    max: nat,
) -> Map<Seq<u8>, PooledConnection> {
    if keys.len() >= max && keys.len() > 0 {
        all.remove(keys[oldest_slot(keys, all, keys.len() as int)])
    } else {
        all
    }
}

/// The first `n` keys whose connections were last used before `cutoff`.
pub open spec fn idle_keys(
    keys: Seq<Seq<u8>>,
    all: Map<Seq<u8>, PooledConnection>,
    cutoff: int,
    n: int,
) -> Seq<Seq<u8>>
    decreases n,
{
    if n <= 0 {
        Seq::empty()
    } else {
        let before = idle_keys(keys, all, cutoff, n - 1);
        if all[keys[n - 1]].last_used < cutoff {
            before.push(keys[n - 1])
        } else {
            before
        }
    }
}

/// What the oldest slot is.
pub proof fn lemma_oldest(keys: Seq<Seq<u8>>, all: Map<Seq<u8>, PooledConnection>, n: int)
    requires
        0 < n <= keys.len(),
    ensures
        0 <= oldest_slot(keys, all, n) < n,
        forall|i: int|
            0 <= i < n ==> all[keys[oldest_slot(keys, all, n)]].last_used <= all[
            #[trigger] keys[i]].last_used,
    decreases n,
{
    if n > 1 {
        lemma_oldest(keys, all, n - 1);
    }
}

proof fn lemma_idle_members(
    keys: Seq<Seq<u8>>,
    all: Map<Seq<u8>, PooledConnection>,
    cutoff: int,
    n: int,
)
    requires
        0 <= n <= keys.len(),
    ensures
        forall|k: Seq<u8>| #[trigger]
            idle_keys(keys, all, cutoff, n).contains(k) <==> exists|i: int|
                0 <= i < n && #[trigger] keys[i] == k && all[k].last_used < cutoff,
    decreases n,
{
    if n > 0 {
        lemma_idle_members(keys, all, cutoff, n - 1);
        let before = idle_keys(keys, all, cutoff, n - 1);
        let now = idle_keys(keys, all, cutoff, n);
        assert forall|k: Seq<u8>| #[trigger] now.contains(k) <==> exists|i: int|
            0 <= i < n && #[trigger] keys[i] == k && all[k].last_used < cutoff by {
            if now.contains(k) {
                let j = choose|j: int| 0 <= j < now.len() && now[j] == k;
                if j < before.len() {
                    assert(before[j] == k);
                    assert(before.contains(k));
                } else {
                    assert(keys[n - 1] == k);
                }
            }
            if exists|i: int| 0 <= i < n && #[trigger] keys[i] == k && all[k].last_used < cutoff {
                let i = choose|i: int|
                    0 <= i < n && #[trigger] keys[i] == k && all[k].last_used < cutoff;
                if i == n - 1 {
                    assert(now.last() == k);
                } else {
                    assert(before.contains(k));
                    let j = choose|j: int| 0 <= j < before.len() && before[j] == k;
                    assert(now[j] == k);
                }
            }
        }
    }
}

/// Open connections by peer, at most a fixed number.
pub struct ConnectionPool {
    table: KeyTable<PooledConnection>,
    max_connections: usize,
}

impl ConnectionPool {
    /// The connections by peer.
    pub closed spec fn connections(&self) -> Map<Seq<u8>, PooledConnection> {
        self.table@
    }

    /// The peers in the order in which they are walked.
    pub closed spec fn order(&self) -> Seq<Seq<u8>> {
        self.table.key_list()
    }

    /// How many connections the pool holds at most.
    pub closed spec fn limit(&self) -> nat {
        self.max_connections as nat
    }

    /// The table is in order.
    pub closed spec fn wf(&self) -> bool {
        self.table.wf()
    }

    /// The order lists each peer once, and only peers with a connection.
    pub proof fn lemma_order(&self)
        requires
            self.wf(),
        ensures
            self.order().no_duplicates(),
            self.order().to_set() == self.connections().dom(),
            self.order().len() == self.connections().dom().len(),
            self.connections().dom().finite(),
    {
        self.table.lemma_keys();
    }

    /// An empty pool of the usual size.
    pub fn new() -> (pool: ConnectionPool)
        ensures
            pool.wf(),
            pool.connections() == Map::<Seq<u8>, PooledConnection>::empty(),
            pool.limit() == DEFAULT_MAX_CONNECTIONS,
    {
        ConnectionPool::with_capacity(DEFAULT_MAX_CONNECTIONS)
    }

    /// An empty pool of a given size.
    pub fn with_capacity(max_connections: usize) -> (pool: ConnectionPool)
        ensures
            pool.wf(),
            pool.connections() == Map::<Seq<u8>, PooledConnection>::empty(),
            pool.limit() == max_connections,
    {
        ConnectionPool { table: KeyTable::new(), max_connections }
    }

    /// The connection to a peer, which counts as used now.
    pub fn get(&mut self, node_id: &NodeId, now: u64) -> (connection: Option<u64>)
        requires
            old(self).wf(),
        ensures
            final(self).wf(),
            final(self).limit() == old(self).limit(),
            final(self).order() == old(self).order(),
            match connection {
                None => !old(self).connections().contains_key(node_id@)
                    && final(self).connections() == old(self).connections(),
                Some(c) => {
                    &&& old(self).connections().contains_key(node_id@)
                    &&& c == old(self).connections()[node_id@].connection
                    &&& final(self).connections() == old(self).connections().insert(
                        node_id@,
                        PooledConnection {
                            last_used: now,
                            ..old(self).connections()[node_id@]
                        },
                    )
                },
            },
    {
        let entry: PooledConnection = match self.table.get(node_id.as_bytes()) {
            Some(entry) => *entry,
            None => {
                return None;
            },
        };
        self.table.set(
            node_id.bytes,
            PooledConnection {
                connection: entry.connection,
                established_at: entry.established_at,
                last_used: now,
            },
        );
        Some(entry.connection)
    }

    /// Puts a connection to a peer into the pool. A full pool first drops the connection
    /// that was unused for longest.
    pub fn insert(&mut self, node_id: NodeId, connection: u64, now: u64)
        requires
            old(self).wf(),
        ensures
            final(self).wf(),
            final(self).limit() == old(self).limit(),
            final(self).connections() == after_eviction(
                old(self).order(),
                old(self).connections(),
                old(self).limit(),
            ).insert(
                node_id@,
                PooledConnection { connection, established_at: now, last_used: now },
            ),
    {
        if self.table.len() >= self.max_connections {
            self.evict_lru();
        }
        self.table.set(
            node_id.bytes,
            PooledConnection { connection, established_at: now, last_used: now },
        );
    }

    /// Drops the connection to a peer.
    pub fn remove(&mut self, node_id: &NodeId)
        requires
            old(self).wf(),
        ensures
            final(self).wf(),
            final(self).limit() == old(self).limit(),
            final(self).connections() == old(self).connections().remove(node_id@),
    {
        self.table.remove(node_id.as_bytes());
    }

    /// The peers with a connection.
    pub fn connected_peers(&self) -> (peers: Vec<NodeId>)
        requires
            self.wf(),
        ensures
            peers@.map_values(|id: NodeId| id@) == self.order(),
    {
        let n: usize = self.table.len();
        let mut peers: Vec<NodeId> = Vec::new();
        let mut i: usize = 0;
        while i < n
            invariant
                i <= n,
                n == self.order().len(),
                self.wf(),
                peers@.len() == i,
                forall|j: int| 0 <= j < i ==> (#[trigger] peers@[j])@ == self.order()[j],
            decreases n - i,
        {
            peers.push(NodeId::from_bytes(self.table.key_at(i)));
            i = i + 1;
        }
        assert(peers@.map_values(|id: NodeId| id@) =~= self.order());
        peers
    }

    /// Drops the connections that were not used for longer than `timeout` milliseconds, and
    /// returns their peers.
    pub fn prune_idle(&mut self, timeout: u64, now: u64) -> (evicted: Vec<NodeId>)
        requires
            old(self).wf(),
        ensures
            final(self).wf(),
            final(self).limit() == old(self).limit(),
            evicted@.map_values(|id: NodeId| id@) == idle_keys(
                old(self).order(),
                old(self).connections(),
                now - timeout,
                old(self).order().len() as int,
            ),
            forall|k: Seq<u8>| #[trigger]
                final(self).connections().contains_key(k) <==> old(
                    self,
                ).connections().contains_key(k) && old(self).connections()[k].last_used >= now
                    - timeout,
            forall|k: Seq<u8>| #[trigger]
                final(self).connections().contains_key(k) ==> final(self).connections()[k] == old(
                    self,
                ).connections()[k],
    {
        let ghost all = self.table@;
        let ghost keys = self.table.key_list();
        let ghost cutoff = now - timeout;
        proof {
            self.table.lemma_keys();
        }
        let n: usize = self.table.len();
        let mut evicted: Vec<NodeId> = Vec::new();
        let mut i: usize = 0;
        assert(evicted@.map_values(|id: NodeId| id@) =~= Seq::<Seq<u8>>::empty());
        while i < n
            invariant
                i <= n,
                n == keys.len(),
                *self == *old(self),
                self.wf(),
                all == self.table@,
                keys == self.table.key_list(),
                cutoff == now - timeout,
                evicted@.map_values(|id: NodeId| id@) == idle_keys(keys, all, cutoff, i as int),
            decreases n - i,
        {
            let entry: PooledConnection = *self.table.row_at(i);
            let ghost before = evicted@;
            if now >= timeout && entry.last_used < now - timeout {
                evicted.push(NodeId::from_bytes(self.table.key_at(i)));
                assert(evicted@.map_values(|id: NodeId| id@) =~= before.map_values(
                    |id: NodeId| id@,
                ).push(keys[i as int]));
            }
            i = i + 1;
        }
        let ghost gone = evicted@.map_values(|id: NodeId| id@);
        let mut j: usize = 0;
        proof {
            assert(all.remove_keys(gone.take(0).to_set()) =~= all);
        }
        while j < evicted.len()
            invariant
                j <= evicted@.len(),
                self.wf(),
                self.limit() == old(self).limit(),
                gone == evicted@.map_values(|id: NodeId| id@),
                self.table@ == all.remove_keys(gone.take(j as int).to_set()),
            decreases evicted@.len() - j,
        {
            self.table.remove(evicted[j].as_bytes());
            proof {
                let less = gone.take(j as int);
                let more = gone.take(j as int + 1);
                assert(more =~= less.push(gone[j as int]));
                assert forall|k: Seq<u8>| more.to_set().contains(k) <==> less.to_set().contains(k)
                    || k == gone[j as int] by {
                    if less.contains(k) {
                        let q = choose|q: int| 0 <= q < less.len() && less[q] == k;
                        assert(more[q] == k);
                    }
                    assert(more[j as int] == gone[j as int]);
                }
                assert(self.table@ =~= all.remove_keys(more.to_set()));
            }
            j = j + 1;
        }
        proof {
            assert(gone.take(gone.len() as int) =~= gone);
            lemma_idle_members(keys, all, cutoff, keys.len() as int);
            assert forall|k: Seq<u8>| #[trigger] self.connections().contains_key(k)
                <==> all.contains_key(k) && all[k].last_used >= cutoff by {
                if all.contains_key(k) {
                    assert(keys.to_set().contains(k));
                    let q = choose|q: int| 0 <= q < keys.len() && keys[q] == k;
                    assert(keys[q] == k);
                }
                assert(gone.to_set().contains(k) <==> gone.contains(k));
            }
        }
        evicted
    }

    /// Whether there is a connection to a peer.
    pub fn contains(&self, node_id: &NodeId) -> (present: bool)
        requires
            self.wf(),
        ensures
            present == self.connections().contains_key(node_id@),
    {
        self.table.contains(node_id.as_bytes())
    }

    /// The number of connections.
    pub fn len(&self) -> (n: usize)
        requires
            self.wf(),
        ensures
            n == self.connections().dom().len(),
    {
        self.table.len()
    }

    /// Whether there is no connection.
    pub fn is_empty(&self) -> (empty: bool)
        requires
            self.wf(),
        ensures
            empty == (self.connections().dom().len() == 0),
    {
        self.table.len() == 0
    }

    fn evict_lru(&mut self)
        requires
            old(self).wf(),
        ensures
            final(self).wf(),
            final(self).limit() == old(self).limit(),
            final(self).connections() == (if old(self).order().len() == 0 {
                old(self).connections()
            } else {
                old(self).connections().remove(
                    old(self).order()[oldest_slot(
                        old(self).order(),
                        old(self).connections(),
                        old(self).order().len() as int,
                    )],
                )
            }),
    {
        let n: usize = self.table.len();
        if n == 0 {
            return ;
        }
        let mut oldest: usize = 0;
        let mut i: usize = 1;
        while i < n
            invariant
                1 <= i <= n,
                oldest < i,
                n == self.order().len(),
                *self == *old(self),
                self.wf(),
                oldest == oldest_slot(self.order(), self.connections(), i as int),
            decreases n - i,
        {
            if self.table.row_at(i).last_used < self.table.row_at(oldest).last_used {
                oldest = i;
            }
            i = i + 1;
        }
        let key = self.table.key_at(oldest);
        self.table.remove(&key);
    }
}

/// A pool of a positive size never grows beyond it.
pub proof fn lemma_pool_bound(
    keys: Seq<Seq<u8>>,
    all: Map<Seq<u8>, PooledConnection>,
    max: nat,
    id: Seq<u8>,
    entry: PooledConnection,
)
    requires
        keys.no_duplicates(),
        keys.to_set() == all.dom(),
        0 < max,
        keys.len() <= max,
    ensures
        after_eviction(keys, all, max).insert(id, entry).dom().len() <= max,
{
    vstd::seq_lib::seq_to_set_is_finite(keys);
    keys.unique_seq_to_set();
    let kept = after_eviction(keys, all, max);
    if keys.len() >= max {
        lemma_oldest(keys, all, keys.len() as int);
        let victim = keys[oldest_slot(keys, all, keys.len() as int)];
        assert(keys.to_set().contains(victim));
        assert(kept.dom() =~= all.dom().remove(victim));
    }
    assert(kept.insert(id, entry).dom() =~= kept.dom().insert(id));
}

}
