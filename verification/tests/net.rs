//! Membership, providers, pending fetches, pooled connections and streams.

use craftec::crypto::sign::KeyStore;
use craftec::net::connection::NullHandler;
use craftec::net::dht::announce_cid_to_peers;
use craftec::net::dht::announce_fanout;
use craftec::net::dht::announce_targets;
use craftec::net::dht::DhtProviders;
use craftec::net::endpoint::finish_send;
use craftec::net::endpoint::handle_swim_msg;
use craftec::net::endpoint::on_stream_event;
use craftec::net::endpoint::parse_node_hex;
use craftec::net::endpoint::parse_peer;
use craftec::net::endpoint::peer_known;
use craftec::net::endpoint::route;
use craftec::net::endpoint::send_message;
use craftec::net::endpoint::Bootstrap;
use craftec::net::endpoint::PeerAddress;
use craftec::net::endpoint::Route;
use craftec::net::endpoint::SendOutcome;
use craftec::net::endpoint::StreamAction;
use craftec::net::endpoint::StreamEvent;
use craftec::net::endpoint::StreamKind;
use craftec::net::endpoint::ALPN_CRAFTEC;
use craftec::net::endpoint::ALPN_RPC;
use craftec::net::endpoint::ALPN_SWIM;
use craftec::net::error::NetError;
use craftec::net::pending::PendingFetches;
use craftec::net::pool::ConnectionPool;
use craftec::net::pool::DEFAULT_IDLE_TIMEOUT;
use craftec::net::swim::SwimMembership;
use craftec::types::cid::Cid;
use craftec::types::node_id::NodeId;
use craftec::types::piece::CodedPiece;
use craftec::types::wire::WireMessage;

fn some_node() -> NodeId {
    KeyStore::generate(String::new()).node_id()
}

fn node(n: u8) -> NodeId {
    NodeId::from_bytes([n; 32])
}

// Providers

#[test]
fn announce_and_get() {
    let mut dht = DhtProviders::new();
    let cid = Cid::from_data(b"test-content");
    let node = some_node();

    dht.announce_provider(&cid, &node);
    let providers = dht.get_providers(&cid);
    assert_eq!(providers.len(), 1);
    assert!(providers.contains(&node));
}

#[test]
fn get_unknown_cid_returns_empty() {
    let dht = DhtProviders::new();
    let cid = Cid::from_data(b"unknown");
    assert!(dht.get_providers(&cid).is_empty());
}

#[test]
fn announce_idempotent() {
    let mut dht = DhtProviders::new();
    let cid = Cid::from_data(b"dedup");
    let node = some_node();

    dht.announce_provider(&cid, &node);
    dht.announce_provider(&cid, &node);
    assert_eq!(dht.get_providers(&cid).len(), 1);
}

#[test]
fn remove_provider() {
    let mut dht = DhtProviders::new();
    let cid = Cid::from_data(b"removable");
    let n1 = some_node();
    let n2 = some_node();

    dht.announce_provider(&cid, &n1);
    dht.announce_provider(&cid, &n2);
    assert_eq!(dht.get_providers(&cid).len(), 2);

    dht.remove_provider(&cid, &n1);
    let remaining = dht.get_providers(&cid);
    assert_eq!(remaining.len(), 1);
    assert!(remaining.contains(&n2));
}

#[test]
fn remove_last_provider_cleans_up_cid() {
    let mut dht = DhtProviders::new();
    let cid = Cid::from_data(b"last-one");
    let node = some_node();

    dht.announce_provider(&cid, &node);
    assert_eq!(dht.cid_count(), 1);

    dht.remove_provider(&cid, &node);
    assert_eq!(dht.cid_count(), 0);
}

#[test]
fn remove_node_clears_all_cids() {
    let mut dht = DhtProviders::new();
    let node = some_node();
    let cids: Vec<Cid> = (0u8..5).map(|i| Cid::from_data(&[i])).collect();

    for cid in &cids {
        dht.announce_provider(cid, &node);
    }
    assert_eq!(dht.provider_count(), 5);

    dht.remove_node(&node);
    assert_eq!(dht.provider_count(), 0);
}

#[test]
fn multiple_providers_for_same_cid() {
    let mut dht = DhtProviders::new();
    let cid = Cid::from_data(b"popular-content");
    let nodes: Vec<NodeId> = (0..3).map(|_| some_node()).collect();

    for n in &nodes {
        dht.announce_provider(&cid, n);
    }
    assert_eq!(dht.get_providers(&cid).len(), 3);
}

#[test]
fn dht_provider_announce_and_query() {
    let mut dht = DhtProviders::new();
    let cid = Cid::from_data(b"content-a");
    let provider1 = some_node();
    let provider2 = some_node();

    dht.announce_provider(&cid, &provider1);
    dht.announce_provider(&cid, &provider2);

    let providers = dht.get_providers(&cid);
    assert_eq!(providers.len(), 2);
    assert!(providers.contains(&provider1));
    assert!(providers.contains(&provider2));

    dht.remove_node(&provider1);
    let remaining = dht.get_providers(&cid);
    assert_eq!(remaining.len(), 1);
    assert!(remaining.contains(&provider2));
}

#[test]
fn fanout_is_the_ceiling_of_the_logarithm() {
    assert_eq!(announce_fanout(0), 1);
    assert_eq!(announce_fanout(1), 1);
    assert_eq!(announce_fanout(2), 1);
    assert_eq!(announce_fanout(3), 2);
    assert_eq!(announce_fanout(7), 2);
    assert_eq!(announce_fanout(8), 3);
    assert_eq!(announce_fanout(20), 3);
    assert_eq!(announce_fanout(21), 4);
    assert_eq!(announce_fanout(1000), 7);
}

#[test]
fn fanout_agrees_with_the_logarithm() {
    let mut n: usize = 1;
    while n < 1_000_000_000_000 {
        for m in [n.saturating_sub(1).max(1), n, n + 1] {
            let expected = ((m as f64).ln().ceil() as usize).max(1);
            assert_eq!(announce_fanout(m), expected, "{} peers", m);
        }
        n = n * 3 / 2 + 1;
    }
}

#[test]
fn announce_targets_are_distinct_peers() {
    let peers: Vec<NodeId> = (0..50).map(node).collect();
    let targets = announce_targets(&peers);
    assert_eq!(targets.len(), 4);
    for (i, t) in targets.iter().enumerate() {
        assert!(peers.contains(t));
        assert!(!targets[..i].contains(t));
    }
}

#[test]
fn announcement_names_the_content_and_the_node() {
    let cid = Cid::from_data(b"announced");
    let me = node(9);
    let peers = vec![node(1), node(2), node(3)];
    let (targets, msg) = announce_cid_to_peers(&cid, &me, &peers);
    assert_eq!(targets.len(), 2);
    match msg {
        WireMessage::ProviderAnnounce { cid: c, node_id } => {
            assert_eq!(c, cid);
            assert_eq!(node_id, me);
        }
        _ => panic!("expected an announcement"),
    }
}

// Pending fetches

#[test]
fn register_and_resolve() {
    let mut pending = PendingFetches::new();
    let cid = Cid::from_data(b"test-piece");

    assert!(pending.can_register());
    let ticket = pending.register(&cid, 0);
    assert_eq!(pending.pending_count(), 1);

    let piece = CodedPiece::new(cid, vec![1], vec![0u8; 16], [0u8; 32]);
    let deliveries = pending.resolve(&cid, piece.clone());

    assert_eq!(deliveries.len(), 1);
    assert_eq!(deliveries[0].0, ticket);
    assert_eq!(deliveries[0].1.cid, cid);
    assert_eq!(deliveries[0].1.data, piece.data);
    assert_eq!(pending.pending_count(), 0);
}

#[test]
fn resolve_unknown_cid_is_noop() {
    let mut pending = PendingFetches::new();
    let cid = Cid::from_data(b"unknown");
    let piece = CodedPiece::new(cid, vec![1], vec![0u8; 16], [0u8; 32]);
    assert!(pending.resolve(&cid, piece).is_empty());
    assert_eq!(pending.pending_count(), 0);
}

#[test]
fn multiple_waiters_all_resolved() {
    let mut pending = PendingFetches::new();
    let cid = Cid::from_data(b"multi-waiter");

    let t1 = pending.register(&cid, 0);
    let t2 = pending.register(&cid, 0);
    assert_ne!(t1, t2);
    assert_eq!(pending.pending_count(), 1);

    let piece = CodedPiece::new(cid, vec![1], vec![42u8; 16], [0u8; 32]);
    let deliveries = pending.resolve(&cid, piece);

    assert_eq!(deliveries.len(), 2);
    assert_eq!(deliveries[0].0, t1);
    assert_eq!(deliveries[1].0, t2);
    assert_eq!(deliveries[0].1.cid, cid);
    assert_eq!(deliveries[1].1.cid, cid);
}

#[test]
fn dropped_receiver_does_not_panic() {
    let mut pending = PendingFetches::new();
    let cid = Cid::from_data(b"dropped");

    let _ = pending.register(&cid, 0);

    let piece = CodedPiece::new(cid, vec![1], vec![0u8; 16], [0u8; 32]);
    let _ = pending.resolve(&cid, piece);
}

#[test]
fn prune_stale_removes_closed_receivers() {
    let mut pending = PendingFetches::new();
    let cid = Cid::from_data(b"prune-closed");

    let ticket = pending.register(&cid, 0);

    assert_eq!(pending.total_pending(), 1);
    let pruned = pending.prune_stale(60_000, 0, &[ticket]);
    assert_eq!(pruned, 1);
    assert_eq!(pending.pending_count(), 0);
    assert_eq!(pending.total_pending(), 0);
}

#[test]
fn prune_stale_keeps_active() {
    let mut pending = PendingFetches::new();
    let cid = Cid::from_data(b"prune-active");

    let _ = pending.register(&cid, 0);
    let pruned = pending.prune_stale(60_000, 0, &[]);
    assert_eq!(pruned, 0);
    assert_eq!(pending.pending_count(), 1);
}

#[test]
fn prune_stale_removes_old_waiters() {
    let mut pending = PendingFetches::new();
    let cid = Cid::from_data(b"prune-old");
    let old = pending.register(&cid, 0);
    let kept = pending.register(&cid, 50_000);
    assert_eq!(pending.stale_tickets(60_000, 70_000, &[]), vec![old]);
    assert_eq!(pending.stale_tickets(60_000, 70_000, &[kept]), vec![old, kept]);
    assert_eq!(pending.prune_stale(60_000, 70_000, &[]), 1);
    assert!(pending.stale_tickets(60_000, 70_000, &[]).is_empty());
    assert_eq!(pending.total_pending(), 1);
    let piece = CodedPiece::new(cid, vec![1], vec![0u8; 16], [0u8; 32]);
    let deliveries = pending.resolve(&cid, piece);
    assert_eq!(deliveries.len(), 1);
    assert_eq!(deliveries[0].0, kept);
}

#[test]
fn pending_fetches_roundtrip() {
    let mut pending = PendingFetches::new();
    let cid = Cid::from_data(b"fetching-this");

    let ticket = pending.register(&cid, 0);

    let piece = CodedPiece::new(cid, vec![1], vec![0xAB; 256], [0u8; 32]);
    let deliveries = pending.resolve(&cid, piece.clone());

    let received = deliveries.iter().find(|d| d.0 == ticket).expect("a delivery");
    assert_eq!(received.1.cid, cid);
    assert_eq!(received.1.data, vec![0xAB; 256]);
}

#[test]
fn total_pending_tracks_entries() {
    let mut pending = PendingFetches::new();
    let c1 = Cid::from_data(b"count1");
    let c2 = Cid::from_data(b"count2");

    let _ = pending.register(&c1, 0);
    let _ = pending.register(&c1, 0);
    let _ = pending.register(&c2, 0);

    assert_eq!(pending.total_pending(), 3);
    assert_eq!(pending.pending_count(), 2);
}

// Pooled connections

#[test]
fn pool_starts_empty() {
    let pool = ConnectionPool::new();
    assert!(pool.is_empty());
    assert_eq!(pool.len(), 0);
    assert!(pool.connected_peers().is_empty());
}

#[test]
fn get_on_empty_returns_none() {
    let mut pool = ConnectionPool::new();
    let id = some_node();
    assert!(pool.get(&id, 0).is_none());
}

#[test]
fn remove_on_missing_is_noop() {
    let mut pool = ConnectionPool::new();
    let id = some_node();
    pool.remove(&id);
}

#[test]
fn prune_idle_on_empty_returns_empty() {
    let mut pool = ConnectionPool::new();
    let evicted = pool.prune_idle(DEFAULT_IDLE_TIMEOUT, 0);
    assert!(evicted.is_empty());
}

#[test]
fn full_pool_drops_the_least_recently_used() {
    let mut pool = ConnectionPool::with_capacity(2);
    pool.insert(node(1), 11, 1);
    pool.insert(node(2), 22, 2);
    assert_eq!(pool.get(&node(1), 3), Some(11));
    pool.insert(node(3), 33, 4);
    assert_eq!(pool.len(), 2);
    assert_eq!(pool.get(&node(2), 5), None);
    assert_eq!(pool.get(&node(1), 5), Some(11));
    assert_eq!(pool.get(&node(3), 5), Some(33));
}

#[test]
fn idle_connections_are_pruned() {
    let mut pool = ConnectionPool::new();
    pool.insert(node(1), 11, 0);
    pool.insert(node(2), 22, 500);
    let evicted = pool.prune_idle(600, 1000);
    assert_eq!(evicted, vec![node(1)]);
    assert_eq!(pool.connected_peers(), vec![node(2)]);
}

// Membership

fn make_swim() -> SwimMembership {
    SwimMembership::new(some_node())
}

#[test]
fn swim_starts_empty() {
    let swim = make_swim();
    assert_eq!(swim.member_count(), 0);
    assert!(swim.alive_members().is_empty());
}

#[test]
fn mark_alive_adds_member() {
    let mut swim = make_swim();
    let peer = some_node();
    swim.mark_alive(&peer, 0);
    assert_eq!(swim.member_count(), 1);
    assert!(swim.is_alive(&peer));
    assert_eq!(swim.alive_members(), vec![peer]);
}

#[test]
fn mark_suspect_transitions_from_alive() {
    let mut swim = make_swim();
    let peer = some_node();
    swim.mark_alive(&peer, 0);
    swim.mark_suspect(&peer, 0, 0);
    assert!(!swim.is_alive(&peer));
    assert_eq!(swim.member_count(), 1);
    assert!(swim.alive_members().is_empty());
}

#[test]
fn mark_dead_is_terminal() {
    let mut swim = make_swim();
    let peer = some_node();
    swim.mark_alive(&peer, 1);
    swim.mark_dead(&peer, 1);
    assert!(!swim.is_alive(&peer));
    swim.mark_alive(&peer, 1);
    assert!(!swim.is_alive(&peer));
}

#[test]
fn higher_incarnation_alive_revives_dead() {
    let mut swim = make_swim();
    let peer = some_node();
    swim.mark_dead(&peer, 1);
    swim.mark_alive(&peer, 2);
    assert!(swim.is_alive(&peer));
}

#[test]
fn suspect_does_not_override_same_incarnation_alive() {
    let mut swim = make_swim();
    let peer = some_node();
    swim.mark_alive(&peer, 5);
    swim.mark_suspect(&peer, 4, 0);
    assert!(swim.is_alive(&peer));
}

#[test]
fn local_id_never_inserted_into_members() {
    let local = some_node();
    let mut swim = SwimMembership::new(local);
    swim.mark_alive(&local, 0);
    swim.mark_suspect(&local, 0, 0);
    assert_eq!(swim.member_count(), 0);
}

#[test]
fn suspicion_of_the_local_node_is_refuted() {
    let local = some_node();
    let mut swim = SwimMembership::new(local);
    let before = swim.current_incarnation();
    let msg = WireMessage::SwimSuspect { node_id: local, incarnation: before, from: node(3) };
    let out = swim.handle_message(&msg, 0);
    assert_eq!(swim.current_incarnation(), before + 1);
    assert_eq!(out.len(), 1);
    assert!(matches!(out[0], WireMessage::SwimSuspect { .. }));

    // Its next announcement carries the new number and clears it elsewhere.
    let mut other = SwimMembership::new(node(3));
    other.mark_suspect(&local, before, 0);
    let join = WireMessage::SwimJoin { node_id: node(3), listen_port: 1 };
    for reply in swim.handle_message(&join, 0) {
        let _ = other.handle_message(&reply, 0);
    }
    assert!(other.is_alive(&local));
}

#[test]
fn handle_join_message_adds_member() {
    let mut swim = make_swim();
    let peer = some_node();
    let msg = WireMessage::SwimJoin { node_id: peer, listen_port: 9000 };
    let responses = swim.handle_message(&msg, 0);
    assert!(swim.is_alive(&peer));
    assert!(!responses.is_empty());
    assert!(matches!(responses[0], WireMessage::SwimAlive { .. }));
}

#[test]
fn protocol_tick_returns_empty_with_no_members() {
    let mut swim = make_swim();
    let probes = swim.protocol_tick(0);
    assert!(probes.is_empty());
}

#[test]
fn protocol_tick_returns_probe_with_alive_member() {
    let mut swim = make_swim();
    let peer = some_node();
    swim.mark_alive(&peer, 0);
    let probes = swim.protocol_tick(0);
    assert_eq!(probes.len(), 1);
    assert_eq!(probes[0].0, peer);
    assert!(matches!(probes[0].1, WireMessage::SwimPing { .. }));
}

#[test]
fn handle_swim_ping_responds_with_alive() {
    let local = some_node();
    let mut swim = SwimMembership::new(local);
    let peer = some_node();

    let piggyback_node = some_node();
    let msg = WireMessage::SwimPing {
        from: peer,
        nonce: 0,
        piggyback: vec![WireMessage::SwimAlive { node_id: piggyback_node, incarnation: 1 }],
    };

    let responses = swim.handle_message(&msg, 0);
    assert!(responses.iter().any(|r| matches!(
        r,
        WireMessage::SwimAlive { node_id, .. } if *node_id == local
    )));
    assert!(swim.is_alive(&piggyback_node));
}

#[test]
fn swim_parameters_match_spec() {
    let swim = make_swim();
    assert_eq!(swim.protocol_period, 500);
    assert_eq!(swim.suspect_timeout, 1500);
}

#[test]
fn swim_suspect_timeout_promotes_to_dead() {
    let mut swim = SwimMembership::new(some_node());

    let peers: Vec<NodeId> = (0..10).map(|_| some_node()).collect();
    for peer in &peers {
        swim.mark_alive(peer, 0);
    }
    assert_eq!(swim.alive_members().len(), 10);

    for peer in &peers[0..3] {
        swim.mark_suspect(peer, 0, 0);
    }
    assert_eq!(swim.alive_members().len(), 7);

    let _ = swim.protocol_tick(5200);

    for peer in &peers[0..3] {
        assert!(!swim.is_alive(peer), "suspected peer should not be alive after timeout");
        // A suspect comes back at its incarnation with a refutation; the dead do not.
        swim.mark_alive(peer, 0);
        assert!(!swim.is_alive(peer));
    }

    assert_eq!(swim.alive_members().len(), 7, "7 peers should remain alive");
}

#[test]
fn suspects_wait_for_the_timeout() {
    let mut swim = make_swim();
    let peer = node(1);
    swim.mark_alive(&peer, 0);
    swim.mark_suspect(&peer, 0, 1000);
    let _ = swim.protocol_tick(1000 + 1499);
    assert!(matches!(
        swim.collect_gossip_msgs(1)[0],
        WireMessage::SwimSuspect { .. }
    ));
    let _ = swim.protocol_tick(1000 + 1500);
    assert!(matches!(
        swim.collect_gossip_msgs(1)[0],
        WireMessage::SwimDead { .. }
    ));
}

#[test]
fn gossip_tells_of_at_most_the_limit() {
    let mut swim = make_swim();
    for n in 0..10 {
        swim.mark_alive(&node(n), 1);
    }
    assert_eq!(swim.collect_gossip_msgs(4).len(), 4);
    assert_eq!(swim.collect_gossip_msgs(100).len(), 10);
    assert!(swim.collect_gossip_msgs(0).is_empty());
}

#[test]
fn swim_five_nodes_discover_each_other() {
    let mut nodes: Vec<(NodeId, SwimMembership)> = (0..5)
        .map(|_| {
            let id = some_node();
            (id, SwimMembership::new(id))
        })
        .collect();

    let bootstrap_id = nodes[0].0;

    for i in 1..5 {
        let join_msg =
            WireMessage::SwimJoin { node_id: nodes[i].0, listen_port: 9000 + i as u16 };

        let responses = nodes[0].1.handle_message(&join_msg, 0);
        assert!(!responses.is_empty(), "bootstrap should respond to SwimJoin");
        let joined = nodes[i].0;
        assert!(nodes[0].1.is_alive(&joined), "bootstrap should see node {} as alive", i);

        for resp in &responses {
            nodes[i].1.handle_message(resp, 0);
        }
        assert!(nodes[i].1.is_alive(&bootstrap_id), "node {} should see bootstrap as alive", i);
    }

    assert_eq!(nodes[0].1.alive_members().len(), 4, "bootstrap should have 4 alive members");

    for i in 1..5 {
        let alive_msg = WireMessage::SwimAlive { node_id: nodes[i].0, incarnation: 0 };
        for j in 1..5 {
            if i != j {
                nodes[j].1.handle_message(&alive_msg, 0);
            }
        }
    }

    for (i, (_, swim)) in nodes.iter().enumerate() {
        let alive = swim.alive_members().len();
        assert!(alive >= 3, "node {} has {} alive (expected >= 3)", i, alive);
    }
}

/// Joins all nodes through the first one.
fn join_all(node_ids: &[NodeId], swims: &mut [SwimMembership]) {
    for i in 1..node_ids.len() {
        let join = WireMessage::SwimJoin { node_id: node_ids[i], listen_port: 9000 + i as u16 };
        let responses = swims[0].handle_message(&join, 0);
        for resp in &responses {
            swims[i].handle_message(resp, 0);
        }
    }
}

/// One round in which each node tells every peer that it knows of every other.
fn gossip_round(node_ids: &[NodeId], swims: &mut [SwimMembership]) {
    for i in 0..node_ids.len() {
        let alive = swims[i].alive_members();
        for &peer_id in &alive {
            for &known in &alive {
                if known != peer_id {
                    if let Some(j) = node_ids.iter().position(|id| id == &peer_id) {
                        let msg = WireMessage::SwimAlive { node_id: known, incarnation: 0 };
                        swims[j].handle_message(&msg, 0);
                    }
                }
            }
        }
    }
}

#[test]
fn swim_ten_nodes_converge() {
    let node_ids: Vec<NodeId> = (0..10).map(|_| some_node()).collect();
    let mut swims: Vec<SwimMembership> =
        node_ids.iter().map(|id| SwimMembership::new(*id)).collect();

    join_all(&node_ids, &mut swims);
    assert_eq!(swims[0].alive_members().len(), 9, "bootstrap should see 9 alive peers");

    let mut rounds = 0;
    let max_rounds = 15;

    loop {
        rounds += 1;
        gossip_round(&node_ids, &mut swims);
        if swims.iter().all(|s| s.alive_members().len() >= 9) {
            break;
        }
        assert!(rounds < max_rounds, "SWIM should converge within {} rounds", max_rounds);
    }

    assert!(rounds <= 5, "10-node SWIM should converge in ~3 rounds (log2(10)), took {}", rounds);
}

#[test]
fn swim_ten_nodes_churn() {
    let node_ids: Vec<NodeId> = (0..10).map(|_| some_node()).collect();
    let mut swims: Vec<SwimMembership> =
        node_ids.iter().map(|id| SwimMembership::new(*id)).collect();

    join_all(&node_ids, &mut swims);
    for _ in 0..5 {
        gossip_round(&node_ids, &mut swims);
    }

    for (i, swim) in swims.iter().enumerate() {
        let alive = swim.alive_members().len();
        assert!(alive >= 9, "node {} should see 9 alive, sees {}", i, alive);
    }

    for swim in swims.iter_mut().take(8) {
        swim.mark_dead(&node_ids[8], 0);
        swim.mark_dead(&node_ids[9], 0);
    }
    for swim in swims.iter().take(8) {
        assert!(!swim.is_alive(&node_ids[8]));
        assert!(!swim.is_alive(&node_ids[9]));
    }

    let new_ids: Vec<NodeId> = (0..2).map(|_| some_node()).collect();
    let mut new_swims: Vec<SwimMembership> =
        new_ids.iter().map(|id| SwimMembership::new(*id)).collect();

    for (k, new_swim) in new_swims.iter_mut().enumerate() {
        let join = WireMessage::SwimJoin { node_id: new_ids[k], listen_port: 10000 + k as u16 };
        let responses = swims[0].handle_message(&join, 0);
        for resp in &responses {
            new_swim.handle_message(resp, 0);
        }
    }

    for new_id in &new_ids {
        assert!(swims[0].is_alive(new_id), "bootstrap should see new node as alive");
    }

    let alive = swims[0].alive_members().len();
    assert!(alive >= 9, "bootstrap should see at least 9 alive after churn, sees {}", alive);
}

// Errors

#[test]
fn connection_failed_display() {
    let err = NetError::ConnectionFailed { peer: "abc123".into(), reason: "unreachable".into() };
    assert!(err.message().contains("abc123"));
    assert!(err.message().contains("unreachable"));
}

#[test]
fn timeout_display() {
    let err = NetError::Timeout { millis: 5000 };
    assert!(err.message().contains("5000"));
}

#[test]
fn peer_not_found_display() {
    let err = NetError::PeerNotFound("xyz".into());
    assert!(err.message().contains("xyz"));
}

#[test]
fn protocol_error_display() {
    let err = NetError::ProtocolError("unexpected ALPN".into());
    assert!(err.message().contains("unexpected ALPN"));
}

#[test]
fn bootstrap_failed_display() {
    let err = NetError::BootstrapFailed("no peers reachable".into());
    assert!(err.message().contains("no peers reachable"));
}

// Streams

#[test]
fn alpn_constants_are_valid_utf8() {
    assert_eq!(std::str::from_utf8(&ALPN_CRAFTEC).unwrap(), "craftec/0.1");
    assert_eq!(std::str::from_utf8(&ALPN_SWIM).unwrap(), "craftec-swim/0.1");
    assert_eq!(std::str::from_utf8(&ALPN_RPC).unwrap(), "/craftec/rpc/1");
}

#[test]
fn alpn_constants_are_distinct() {
    assert_ne!(ALPN_CRAFTEC.to_vec(), ALPN_SWIM.to_vec());
    assert_ne!(ALPN_CRAFTEC.to_vec(), ALPN_RPC.to_vec());
    assert_ne!(ALPN_SWIM.to_vec(), ALPN_RPC.to_vec());
}

#[test]
fn null_handler_returns_none() {
    let handler = NullHandler;
    let node_id = some_node();
    let msg = WireMessage::Ping { nonce: 0 };
    let result = handler.handle_message(node_id, msg);
    assert!(result.is_none());
}

#[test]
fn routes_follow_the_protocol_name() {
    assert_eq!(route(&ALPN_CRAFTEC, false), Route::Node);
    assert_eq!(route(&ALPN_SWIM, false), Route::Swim);
    assert_eq!(route(&ALPN_RPC, true), Route::Rpc);
    assert_eq!(route(&ALPN_RPC, false), Route::Drop);
    assert_eq!(route(b"other", true), Route::Drop);
}

#[test]
fn closed_stream_stops() {
    assert!(matches!(on_stream_event(StreamKind::Node, StreamEvent::Closed), StreamAction::Stop));
}

#[test]
fn membership_messages_need_a_membership() {
    let mut swim = make_swim();
    let peer = node(4);
    let join = WireMessage::SwimJoin { node_id: peer, listen_port: 1 };
    assert!(handle_swim_msg(&join, &mut swim, 0).is_some());
    assert!(swim.is_alive(&peer));
}

#[test]
fn peers_are_parsed() {
    let id = node(0xab);
    let text = format!("{}@127.0.0.1:4433", id.to_hex());
    match parse_peer(&text) {
        PeerAddress::Direct { node_id, address } => {
            assert_eq!(node_id, id);
            assert_eq!(address, "127.0.0.1:4433");
        }
        _ => panic!("expected a direct address"),
    }
    assert!(matches!(parse_peer("zz@127.0.0.1:4433"), PeerAddress::Malformed));
    assert!(matches!(parse_peer(&id.to_hex()), PeerAddress::Key(k) if k == id.to_hex()));
    assert_eq!(parse_node_hex(&id.to_hex()), Some(id));
    assert_eq!(parse_node_hex("ab"), None);
}

#[test]
fn bootstrap_needs_one_peer() {
    let none = Bootstrap::start(0);
    assert_eq!(none.finish(), Ok(0));

    let mut failed = Bootstrap::start(2);
    failed.record(false, false);
    failed.record(false, false);
    assert!(matches!(failed.finish(), Err(NetError::BootstrapFailed(_))));

    let mut joined = Bootstrap::start(2);
    joined.record(false, false);
    joined.record(true, true);
    assert_eq!(joined.finish(), Ok(1));
}

#[test]
fn messages_go_to_known_peers_only() {
    let peer = node(7);
    let mut swim = SwimMembership::new(node(1));
    let mut pool = ConnectionPool::with_capacity(4);
    let bytes = || Ok(vec![1, 2, 3]);

    // Nothing is known of the peer.
    assert!(matches!(
        peer_known(&peer, &swim, &pool),
        Err(NetError::PeerNotFound(name)) if name == peer.to_hex()
    ));
    assert!(matches!(
        send_message(&peer, bytes(), &swim, &mut pool, 5),
        Err(NetError::PeerNotFound(name)) if name == peer.to_hex()
    ));

    // A message that could not be encoded is told of first.
    match send_message(&peer, Err("bad".to_string()), &swim, &mut pool, 5) {
        Err(NetError::SerializationError(why)) => assert_eq!(why, "encode_framed failed: bad"),
        _ => panic!("expected an encoding error"),
    }

    // A member without a connection is dialled.
    swim.mark_alive(&peer, 1);
    assert!(peer_known(&peer, &swim, &pool).is_ok());
    match send_message(&peer, bytes(), &swim, &mut pool, 5) {
        Ok(sending) => {
            assert_eq!(sending.over, None);
            assert_eq!(sending.bytes, vec![1, 2, 3]);
        }
        Err(e) => panic!("{}", e.message()),
    }

    // A pooled connection is used, also to a peer that is no member.
    let other = node(8);
    pool.insert(other, 42, 0);
    assert!(peer_known(&other, &swim, &pool).is_ok());
    match send_message(&other, bytes(), &swim, &mut pool, 5) {
        Ok(sending) => assert_eq!(sending.over, Some(42)),
        Err(e) => panic!("{}", e.message()),
    }
}

#[test]
fn sending_fails_as_its_step_does() {
    let peer = node(7);
    assert!(finish_send(&peer, SendOutcome::Sent).is_ok());
    for (outcome, expected) in [
        (SendOutcome::NotConnected("gone".to_string()), "gone"),
        (SendOutcome::NotOpened("gone".to_string()), "open_uni failed: gone"),
        (SendOutcome::NotWritten("gone".to_string()), "write_all failed: gone"),
        (SendOutcome::NotFinished("gone".to_string()), "stream finish failed: gone"),
    ] {
        match finish_send(&peer, outcome) {
            Err(NetError::ConnectionFailed { peer: p, reason }) => {
                assert_eq!(p, peer.to_hex());
                assert_eq!(reason, expected);
            }
            _ => panic!("expected a failed connection"),
        }
    }
}
