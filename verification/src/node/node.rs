//! The node: all its parts, and what it does about events and the passing of time.

use crate::com::runtime::ComRuntime;
use crate::com::scheduler::ProgramScheduler;
use crate::com::scheduler::ProgramView;
use crate::crypto::sign::KeyStore;
use crate::health::repair::RepairExecutor;
use crate::health::repair::RepairRequest;
use crate::health::scanner;
use crate::health::scanner::HealthScanner;
use crate::health::tracker;
use crate::health::tracker::PieceHolder;
use crate::health::tracker::PieceTracker;
use crate::health::tracker::TrackerView;
use crate::net::dht;
use crate::net::dht::DhtProviders;
use crate::net::pending::PendingEntry;
use crate::net::pending::PendingFetches;
use crate::net::pool::ConnectionPool;
use crate::net::pool::PooledConnection;
use crate::net::swim;
use crate::net::swim::SwimMembership;
use crate::node::config::NodeConfig;
use crate::node::piece_store::CodedPieceIndex;
use crate::node::rpc;
use crate::node::rpc::NodeRpcHandler;
use crate::obj::shard;
use crate::obj::store;
use crate::obj::store::ContentAddressedStore;
use crate::outside::digest;
use crate::outside::ed25519;
use crate::outside::wasm::CompiledModule;
use crate::rlnc::encoder;
use crate::rlnc::engine;
use crate::rlnc::engine::RlncEngine;
use crate::rlnc::engine::RlncMetrics;
use crate::rlnc::error::RlncError;
use crate::rlnc::laws;
use crate::sql::database::CraftDatabase;
use crate::sql::error::SqlError;
use crate::sql::rpc_write::RpcWriteHandler;
use crate::types::cid::Cid;
use crate::types::event::Event;
use crate::types::node_id::NodeId;
use crate::types::piece::CodedPiece;
use crate::types::wire::WireMessage;
use vstd::prelude::*;

verus! {

/// How many objects the store keeps in its cache.
pub const OBJ_CACHE_CAPACITY: usize = 1024;

/// How many shutdown signals are kept.
pub const SHUTDOWN_CAPACITY: usize = 16;

/// How many events are kept.
pub const EVENT_BUS_CAPACITY: usize = 1024;

/// How many contents are announced before a pause.
pub const STORAGE_BOOTSTRAP_BATCH_SIZE: usize = 100;

/// The generation size in which contents are encoded.
pub const ENCODE_K: u32 = 32;

/// How many milliseconds lie between two looks at the pending fetches.
pub const PRUNE_INTERVAL: u64 = 60_000;

/// How old a pending fetch may become, in milliseconds.
pub const PENDING_MAX_AGE: u64 = 120_000;

/// How long a shutdown may take, in milliseconds.
pub const SHUTDOWN_TIMEOUT: u64 = 5_000;

/// The files and directories of a node.
#[derive(Debug)]
pub struct NodePaths {
    /// The file that tells that a node is running.
    pub lock: String,
    /// The directory of the objects.
    pub objects: String,
    /// The directory of the database.
    pub database: String,
    /// The file of the secret key.
    pub key: String,
    /// The file of the identifier.
    pub id: String,
}

/// The files and directories of a node under its directory.
pub fn node_paths(data_dir: &str) -> (paths: NodePaths)
    ensures
        paths.lock@ == shard::joined(data_dir@, "node.lock"@),
        paths.objects@ == shard::joined(data_dir@, "obj"@),
        paths.database@ == shard::joined(data_dir@, "sql"@),
        paths.key@ == shard::joined(data_dir@, "node.key"@),
        paths.id@ == shard::joined(data_dir@, "node.id"@),
{
    NodePaths {
        lock: shard::join_path(data_dir, "node.lock"),
        objects: shard::join_path(data_dir, "obj"),
        database: shard::join_path(data_dir, "sql"),
        key: shard::join_path(data_dir, "node.key"),
        id: shard::join_path(data_dir, "node.id"),
    }
}

/// What is to be done about an event.
pub enum EventAction {
    /// Nothing.
    Nothing,
    /// To send a message to some peers and, for a content that is no piece, to encode it.
    Announce { targets: Vec<NodeId>, message: WireMessage, encode: bool },
    /// To stop.
    Stop,
}

/// A node.
pub struct CraftecNode {
    /// The configuration.
    pub config: NodeConfig,
    /// The signing key.
    pub keystore: KeyStore,
    /// The object store.
    pub store: ContentAddressedStore,
    /// The coding engine.
    pub rlnc: RlncEngine,
    /// The handler of writes, with the database.
    pub rpc_write: RpcWriteHandler,
    /// The connections to peers.
    pub connections: ConnectionPool,
    /// The membership.
    pub swim: SwimMembership,
    /// The providers.
    pub dht: DhtProviders,
    /// The pending fetches.
    pub pending: PendingFetches,
    /// The health scanner.
    pub scanner: HealthScanner,
    /// The holders of pieces.
    pub tracker: PieceTracker,
    /// The repairs.
    pub repair: RepairExecutor,
    /// The programs.
    pub scheduler: ProgramScheduler,
    /// The stored pieces.
    pub piece_index: CodedPieceIndex,
    /// The handler of requests.
    pub rpc: NodeRpcHandler,
}

impl CraftecNode {
    /// All parts are in order, and agree on who the node is.
    pub open spec fn wf(&self) -> bool {
        &&& self.store.wf()
        &&& self.connections.wf()
        &&& self.swim.wf()
        &&& self.dht.wf()
        &&& self.pending.wf()
        &&& self.scanner.wf()
        &&& self.tracker.wf()
        &&& self.scheduler.wf()
        &&& self.piece_index.wf()
        &&& self.swim.beliefs().local == self.scanner.node()
        &&& self.repair.node() == self.scanner.node()
        &&& self.rpc.node() == self.scanner.node()
        &&& self.rpc_write.db().owned_by() == self.scanner.node()
    }

    /// Whether a node is a new one: put together from the given parts, with nothing known
    /// yet.
    pub open spec fn is_new(
        node: CraftecNode,
        config: NodeConfig,
        keystore: KeyStore,
        found: Seq<Cid>,
        root: Cid,
        runtime: ComRuntime,
        now: u64,
    ) -> bool {
        &&& node.wf()
        &&& node.config == config
        &&& node.keystore == keystore
        &&& node.scanner.node()@ == ed25519::ed25519_public(keystore.secret())
        &&& node.rpc_write.db().identity()@ == digest::blake3_digest(node.scanner.node()@)
        &&& node.rpc_write.db().root() == root
        &&& node.rpc_write.db().path() == shard::joined(
            shard::joined(config.data_dir@, "sql"@),
            "craftec.db"@,
        )
        &&& node.scheduler.engine() == runtime
        &&& node.store.dir() == shard::joined(config.data_dir@, "obj"@)
        &&& node.store@.limit == OBJ_CACHE_CAPACITY
        &&& node.store@.cache.len() == 0
        &&& node.store@.metrics == store::no_counts()
        &&& forall|i: int|
            0 <= i < found.len() ==> node.store@.passes.contains((#[trigger] found[i])@)
        &&& found.len() == 0 ==> node.store@.passes == Set::<Seq<u8>>::empty()
        &&& node.rlnc.metrics == (RlncMetrics {
            encodes: 0,
            decodes: 0,
            recodes: 0,
            encode_bytes: 0,
        })
        &&& node.scanner.interval() == (if config.health_scan_cycle_secs <= u64::MAX / 1000 {
            (config.health_scan_cycle_secs * 1000) as u64
        } else {
            u64::MAX
        })
        &&& node.scanner.parts() == scanner::DEFAULT_SCAN_PARTS
        &&& node.scanner.cycle() == 0
        &&& node.connections.connections() == Map::<Seq<u8>, PooledConnection>::empty()
        &&& node.connections.limit() == config.max_connections
        &&& node.swim.beliefs().members == Map::<Seq<u8>, swim::MemberState>::empty()
        &&& node.dht.providers() == Map::<Seq<u8>, Set<Seq<u8>>>::empty()
        &&& node.pending.waiting() == Map::<Seq<u8>, Seq<PendingEntry>>::empty()
        &&& node.tracker@.holders == Map::<Seq<u8>, Seq<PieceHolder>>::empty()
        &&& node.tracker@.ks == Map::<Seq<u8>, u32>::empty()
        &&& node.piece_index.contents() == Map::<Seq<u8>, Seq<Cid>>::empty()
        &&& node.piece_index.marked() == Set::<Seq<u8>>::empty()
        &&& node.scheduler.states() == Map::<Seq<u8>, ProgramView>::empty()
        &&& node.scheduler.modules() == Map::<Seq<u8>, CompiledModule>::empty()
        &&& node.rpc.started() == now
    }

    /// Puts a node together from its key, the objects found in its store, what came of
    /// preparing its database, and its runtime. The database belongs to the node: one
    /// identity, that of the key, holds in all parts. The node knows of no peers, pieces or
    /// programs yet. Without a database there is no node.
    pub fn new(
        config: NodeConfig,
        keystore: KeyStore,
        found: &[Cid],
        prepared: Result<Cid, SqlError>,
        runtime: ComRuntime,
        now: u64,
    ) -> (result: Result<CraftecNode, SqlError>)
        ensures
            result is Ok <==> prepared is Ok,
            prepared matches Err(e) ==> result == Err::<CraftecNode, SqlError>(e),
            result matches Ok(node) ==> CraftecNode::is_new(
                node,
                config,
                keystore,
                found@,
                prepared->Ok_0,
                runtime,
                now,
            ),
    {
        let node_id = keystore.node_id();
        let paths = node_paths(config.data_dir.as_str());
        let interval: u64 = if config.health_scan_cycle_secs <= u64::MAX / 1000 {
            config.health_scan_cycle_secs * 1000
        } else {
            u64::MAX
        };
        let connections = ConnectionPool::with_capacity(config.max_connections);
        let store = ContentAddressedStore::new(paths.objects, OBJ_CACHE_CAPACITY, found);
        let database = match CraftDatabase::create(node_id, paths.database.as_str(), prepared) {
            Ok(database) => database,
            Err(e) => {
                return Err(e);
            },
        };
        Ok(CraftecNode {
            config,
            keystore,
            store,
            rlnc: RlncEngine::new(),
            rpc_write: RpcWriteHandler::new(database),
            connections,
            swim: SwimMembership::new(node_id),
            dht: DhtProviders::new(),
            pending: PendingFetches::new(),
            scanner: HealthScanner::new(interval, node_id),
            tracker: PieceTracker::new(),
            repair: RepairExecutor::new(node_id),
            scheduler: ProgramScheduler::new(runtime),
            piece_index: CodedPieceIndex::new(),
            rpc: NodeRpcHandler::new(node_id, now),
        })
    }

    /// What the node does about an event. A written content is announced, and encoded unless
    /// it is a piece itself; a peer that left is forgotten; a shutdown stops the node.
    pub fn on_event(&mut self, event: Event) -> (action: EventAction)
        requires
            old(self).wf(),
        ensures
            final(self).wf(),
            *final(self) == (CraftecNode {
                tracker: final(self).tracker,
                dht: final(self).dht,
                ..*old(self)
            }),
            match event {
                Event::CidWritten { cid } => {
                    &&& action matches EventAction::Announce { targets, message, encode }
                    &&& encode == to_encode(old(self).piece_index.marked(), cid@)
                    &&& message == (WireMessage::ProviderAnnounce {
                        cid,
                        node_id: old(self).scanner.node(),
                    })
                    &&& announces(targets@, rpc::alive_keys(&old(self).swim))
                    &&& *final(self) == *old(self)
                },
                Event::PeerDisconnected { node_id } => {
                    &&& action is Nothing
                    &&& tracker::thinned(
                        old(self).tracker@.holders,
                        final(self).tracker@.holders,
                        tracker::Keep::AllBut(node_id),
                    )
                    &&& final(self).tracker@.ks == old(self).tracker@.ks.remove_keys(
                        tracker::emptied(
                            old(self).tracker@.holders,
                            tracker::Keep::AllBut(node_id),
                        ),
                    )
                    &&& provides_nothing(
                        old(self).dht.providers(),
                        final(self).dht.providers(),
                        node_id@,
                    )
                },
                Event::ShutdownSignal => action is Stop && *final(self) == *old(self),
                _ => action is Nothing && *final(self) == *old(self),
            },
    {
        match event {
            Event::CidWritten { cid } => {
                let alive = self.swim.alive_members();
                let me: NodeId = *self.swim.node_id();
                let (targets, message) = dht::announce_cid_to_peers(&cid, &me, alive.as_slice());
                let encode = !self.piece_index.is_piece_cid(&cid);
                proof {
                    self.swim.lemma_alive_distinct();
                    lemma_announces(targets@, alive@);
                }
                EventAction::Announce { targets, message, encode }
            },
            Event::PeerDisconnected { node_id } => {
                self.tracker.remove_node(&node_id);
                self.dht.remove_node(&node_id);
                EventAction::Nothing
            },
            Event::ShutdownSignal => EventAction::Stop,
            _ => EventAction::Nothing,
        }
    }

    /// Encodes a content into pieces, and records its generation size.
    pub fn encode_content(&mut self, cid: &Cid, data: &[u8]) -> (pieces: Result<
        Vec<CodedPiece>,
        RlncError,
    >)
        requires
            old(self).wf(),
        ensures
            final(self).wf(),
            *final(self) == (CraftecNode {
                tracker: final(self).tracker,
                rlnc: final(self).rlnc,
                ..*old(self)
            }),
            final(self).rlnc.metrics == (RlncMetrics {
                encodes: engine::counted(old(self).rlnc.metrics.encodes, 1) as u64,
                encode_bytes: engine::counted(
                    old(self).rlnc.metrics.encode_bytes,
                    data@.len() as u64,
                ) as u64,
                ..old(self).rlnc.metrics
            }),
            pieces matches Ok(list) && list@.len() == encoder::target_spec(ENCODE_K as nat)
                && forall|i: int|
                0 <= i < list@.len() ==> laws::is_piece_of(
                    #[trigger] list@[i]@,
                    data@,
                    ENCODE_K as nat,
                ),
            final(self).tracker@ == (TrackerView {
                ks: if old(self).tracker@.ks.contains_key(cid@) {
                    old(self).tracker@.ks
                } else {
                    old(self).tracker@.ks.insert(cid@, ENCODE_K)
                },
                ..old(self).tracker@
            }),
    {
        let pieces = self.rlnc.encode(data, ENCODE_K);
        self.tracker.record_k(cid, ENCODE_K);
        pieces
    }

    /// Marks the bytes of a piece, before they are stored, so that the piece will not be
    /// encoded in its turn. Returns the identifier of the bytes.
    pub fn mark_piece(&mut self, bytes: &[u8]) -> (piece_cid: Cid)
        requires
            old(self).wf(),
        ensures
            final(self).wf(),
            piece_cid@ == digest::blake3_digest(bytes@),
            final(self).piece_index.marked() == old(self).piece_index.marked().insert(piece_cid@),
            final(self).piece_index.contents() == old(self).piece_index.contents(),
            *final(self) == (CraftecNode {
                piece_index: final(self).piece_index,
                ..*old(self)
            }),
    {
        let piece_cid = Cid::from_data(bytes);
        self.piece_index.mark_piece_cid(piece_cid);
        piece_cid
    }

    /// Records that this node holds so many pieces of a content.
    pub fn record_own_pieces(&mut self, cid: &Cid, count: u32, now: u64)
        requires
            old(self).wf(),
        ensures
            final(self).wf(),
            *final(self) == (CraftecNode { tracker: final(self).tracker, ..*old(self) }),
            final(self).tracker@ == (TrackerView {
                holders: old(self).tracker@.holders.insert(
                    cid@,
                    tracker::recorded(
                        tracker::holders_of(old(self).tracker@, cid@),
                        PieceHolder {
                            node_id: old(self).scanner.node(),
                            piece_count: count,
                            last_seen: now,
                        },
                    ),
                ),
                ..old(self).tracker@
            }),
    {
        let me: NodeId = *self.swim.node_id();
        self.tracker.record_piece(
            cid,
            PieceHolder { node_id: me, piece_count: count, last_seen: now },
        );
    }

    /// Scans the next part of the contents, and tells what they need.
    pub fn health_tick(&mut self) -> (requests: Vec<RepairRequest>)
        requires
            old(self).wf(),
            scanner::all_scannable(old(self).tracker@, old(self).scanner.node()@),
        ensures
            final(self).wf(),
            *final(self) == (CraftecNode { scanner: final(self).scanner, ..*old(self) }),
            final(self).scanner.parts() == old(self).scanner.parts(),
            final(self).scanner.interval() == old(self).scanner.interval(),
            ({
                let cids = scanner::eligible(old(self).tracker@, old(self).scanner.node()@);
                let cycle = old(self).scanner.cycle();
                &&& requests@ == scanner::reported(
                    old(self).tracker@,
                    cids,
                    old(self).scanner.parts() as nat,
                    cycle as nat,
                )
                &&& final(self).scanner.cycle() == scanner::next_cycle(cids.len(), cycle as nat)
            }),
    {
        match self.scanner.scan_cycle(&self.tracker) {
            Ok(requests) => requests,
            Err(_) => Vec::new(),
        }
    }

    /// The configuration.
    pub fn config(&self) -> (config: &NodeConfig)
        ensures
            *config == self.config,
    {
        &self.config
    }

    /// The signing key.
    pub fn keystore(&self) -> (keystore: &KeyStore)
        ensures
            *keystore == self.keystore,
    {
        &self.keystore
    }

    /// The object store.
    pub fn store(&self) -> (store: &ContentAddressedStore)
        ensures
            *store == self.store,
    {
        &self.store
    }

    /// The coding engine.
    pub fn rlnc(&self) -> (rlnc: &RlncEngine)
        ensures
            *rlnc == self.rlnc,
    {
        &self.rlnc
    }

    /// The database.
    pub fn database(&self) -> (database: &CraftDatabase)
        ensures
            *database == self.rpc_write.db(),
    {
        self.rpc_write.database()
    }

    /// The handler of writes.
    pub fn rpc_write_handler(&self) -> (handler: &RpcWriteHandler)
        ensures
            *handler == self.rpc_write,
    {
        &self.rpc_write
    }

    /// The membership.
    pub fn swim(&self) -> (swim: &SwimMembership)
        ensures
            *swim == self.swim,
    {
        &self.swim
    }

    /// The providers.
    pub fn dht(&self) -> (dht: &DhtProviders)
        ensures
            *dht == self.dht,
    {
        &self.dht
    }

    /// The pending fetches.
    pub fn pending_fetches(&self) -> (pending: &PendingFetches)
        ensures
            *pending == self.pending,
    {
        &self.pending
    }

    /// The health scanner.
    pub fn health_scanner(&self) -> (scanner: &HealthScanner)
        ensures
            *scanner == self.scanner,
    {
        &self.scanner
    }

    /// The holders of pieces.
    pub fn piece_tracker(&self) -> (tracker: &PieceTracker)
        ensures
            *tracker == self.tracker,
    {
        &self.tracker
    }

    /// The runtime.
    pub fn com_runtime(&self) -> (runtime: &ComRuntime)
        ensures
            *runtime == self.scheduler.engine(),
    {
        self.scheduler.runtime()
    }

    /// The programs.
    pub fn scheduler(&self) -> (scheduler: &ProgramScheduler)
        ensures
            *scheduler == self.scheduler,
    {
        &self.scheduler
    }
}

/// Whether a node was removed from the providers, and with it the contents that no other
/// node provides.
pub open spec fn provides_nothing(
    before: Map<Seq<u8>, Set<Seq<u8>>>,
    after: Map<Seq<u8>, Set<Seq<u8>>>,
    node: Seq<u8>,
) -> bool {
    &&& forall|cid: Seq<u8>| #[trigger]
        after.contains_key(cid) <==> before.contains_key(cid) && before[cid].remove(node).len() > 0
    &&& forall|cid: Seq<u8>| #[trigger]
        after.contains_key(cid) ==> after[cid] == before[cid].remove(node)
}

/// Whether a content is announced to nodes that are alive, to as many different ones as the
/// fan-out asks for.
pub open spec fn announces(targets: Seq<NodeId>, alive: Seq<Seq<u8>>) -> bool {
    &&& targets.map_values(|id: NodeId| id@).no_duplicates()
    &&& forall|i: int| 0 <= i < targets.len() ==> alive.contains((#[trigger] targets[i])@)
    &&& targets.len() == (if alive.len() == 0 {
        0
    } else if dht::fanout_from(alive.len(), 1) < alive.len() {
        dht::fanout_from(alive.len(), 1)
    } else {
        alive.len()
    })
}

proof fn lemma_announces(targets: Seq<NodeId>, alive: Seq<NodeId>)
    requires
        alive.map_values(|id: NodeId| id@).no_duplicates(),
        dht::picked_from(targets, alive),
        targets.len() == (if alive.len() == 0 {
            0
        } else if dht::fanout_from(alive.len(), 1) < alive.len() {
            dht::fanout_from(alive.len(), 1)
        } else {
            alive.len()
        }),
    ensures
        announces(targets, alive.map_values(|id: NodeId| id@)),
{
    let keys = alive.map_values(|id: NodeId| id@);
    let places = choose|places: Seq<int>| #[trigger] dht::places_ok(places, targets, alive);
    assert forall|i: int| 0 <= i < targets.len() implies keys.contains((#[trigger] targets[i])@) by {
        assert(0 <= places[i] < alive.len());
        assert(keys[places[i]] == targets[i]@);
    }
    let names = targets.map_values(|id: NodeId| id@);
    assert forall|i: int, j: int| 0 <= i < names.len() && 0 <= j < names.len() && i != j implies
        names[i] != names[j] by {
        assert(places[i] != places[j]);
        assert(names[i] == keys[places[i]] && names[j] == keys[places[j]]);
    }
}

/// A batch of contents that are announced together, and whether a pause follows it.
pub fn bootstrap_batch(cids: &[Cid], batch: usize) -> (part: (Vec<Cid>, bool))
    requires
        batch * STORAGE_BOOTSTRAP_BATCH_SIZE <= cids@.len(),
    ensures
        ({
            let start = batch * STORAGE_BOOTSTRAP_BATCH_SIZE;
            let end = if start + STORAGE_BOOTSTRAP_BATCH_SIZE < cids@.len() {
                start + STORAGE_BOOTSTRAP_BATCH_SIZE
            } else {
                cids@.len() as int
            };
            &&& part.0@ == cids@.subrange(start, end)
            &&& part.1 == (end < cids@.len())
        }),
{
    let total: usize = cids.len();
    let start: usize = batch * STORAGE_BOOTSTRAP_BATCH_SIZE;
    let end: usize = if STORAGE_BOOTSTRAP_BATCH_SIZE < total - start {
        start + STORAGE_BOOTSTRAP_BATCH_SIZE
    } else {
        total
    };
    let mut part: Vec<Cid> = Vec::new();
    let mut i: usize = start;
    while i < end
        invariant
            start <= i <= end,
            end <= cids@.len(),
            part@ == cids@.subrange(start as int, i as int),
        decreases end - i,
    {
        part.push(cids[i]);
        proof {
            assert(cids@.subrange(start as int, i + 1) =~= cids@.subrange(
                start as int,
                i as int,
            ).push(cids@[i as int]));
        }
        i = i + 1;
    }
    (part, end < total)
}

/// Every content is announced in one batch: the `i`-th one in the batch that its place
/// divided by the size of a batch gives.
pub proof fn lemma_batches_cover(total: nat, i: int)
    requires
        0 <= i < total,
    ensures
        ({
            let size = STORAGE_BOOTSTRAP_BATCH_SIZE as int;
            let batch = i / size;
            &&& 0 <= batch
            &&& batch * size <= i < batch * size + size
            &&& batch * size <= total
            &&& forall|b: int| b * size <= i < #[trigger] (b * size) + size ==> b == batch
        }),
{
}

/// Whether a written content is to be encoded, given the marked pieces: it is no piece.
pub open spec fn to_encode(marked: Set<Seq<u8>>, cid: Seq<u8>) -> bool {
    !marked.contains(cid)
}

/// Whether, in the course of a node's life, every step keeps the marked pieces or marks one
/// more.
pub open spec fn only_marks(history: Seq<Set<Seq<u8>>>) -> bool {
    forall|i: int|
        0 <= i < history.len() - 1 ==> #[trigger] history[i + 1] == history[i] || exists|cid:
            Seq<u8>|
            history[i + 1] == #[trigger] history[i].insert(cid)
}

/// A piece whose bytes are marked before they are stored is never encoded in its turn: from
/// the marking on, at whatever time its storing is told, the event asks for no encoding.
pub proof fn lemma_no_recursive_encoding(
    history: Seq<Set<Seq<u8>>>,
    marking: int,
    told: int,
    bytes: Seq<u8>,
)
    requires
        only_marks(history),
        0 <= marking < told < history.len(),
        history[marking + 1] == history[marking].insert(digest::blake3_digest(bytes)),
    ensures
        !to_encode(history[told], digest::blake3_digest(bytes)),
    decreases told - marking,
{
    let before = told - 1;
    if before > marking {
        lemma_no_recursive_encoding(history, marking, before, bytes);
        assert(history[before + 1] == history[before] || exists|cid: Seq<u8>|
            history[before + 1] == #[trigger] history[before].insert(cid));
    }
}

}
