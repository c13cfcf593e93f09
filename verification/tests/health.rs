//! Piece holders, elections, scans and repairs.

use craftec::crypto::sign::KeyStore;
use craftec::health::coordinator::NaturalSelectionCoordinator;
use craftec::health::coordinator::NodeRanking;
use craftec::health::error::HealthError;
use craftec::health::repair::PieceLoad;
use craftec::health::repair::RepairExecutor;
use craftec::health::repair::RepairRequest;
use craftec::health::repair::RepairStep;
use craftec::health::scanner::can_scan;
use craftec::health::scanner::evaluate_cid;
use craftec::health::scanner::target_fits;
use craftec::health::scanner::target_piece_count;
use craftec::health::scanner::HealthScanner;
use craftec::health::scanner::WHOLE;
use craftec::health::tracker::PieceHolder;
use craftec::health::tracker::PieceTracker;
use craftec::node::piece_store::CodedPieceIndex;
use craftec::rlnc::encoder::RlncEncoder;
use craftec::rlnc::engine::RlncEngine;
use craftec::types::cid::Cid;
use craftec::types::node_id::NodeId;
use craftec::types::piece::CodedPiece;
use craftec::types::wire::WireMessage;

fn some_node() -> NodeId {
    KeyStore::generate(String::new()).node_id()
}

fn node(n: u8) -> NodeId {
    NodeId::from_bytes([n; 32])
}

// Elections

fn ranking(uptime: u64, reputation: u64) -> NodeRanking {
    ranking_with_id(some_node(), uptime, reputation)
}

fn ranking_with_id(node_id: NodeId, uptime: u64, reputation: u64) -> NodeRanking {
    NodeRanking { node_id, uptime_secs: uptime, reputation_score: reputation }
}

#[test]
fn empty_providers_returns_none() {
    assert!(NaturalSelectionCoordinator::select_coordinator(&[]).is_none());
}

#[test]
fn single_provider_wins() {
    let r = ranking(1000, 900_000);
    let winner = NaturalSelectionCoordinator::select_coordinator(&[r]);
    assert_eq!(winner, Some(r.node_id));
}

#[test]
fn highest_uptime_wins() {
    let low = ranking(100, 1_000_000);
    let high = ranking(9999, 500_000);
    let winner = NaturalSelectionCoordinator::select_coordinator(&[low, high]);
    assert_eq!(winner, Some(high.node_id));
}

#[test]
fn reputation_breaks_uptime_tie() {
    let same_uptime = 500;
    let low_rep = ranking(same_uptime, 400_000);
    let high_rep = ranking(same_uptime, 900_000);
    let winner = NaturalSelectionCoordinator::select_coordinator(&[low_rep, high_rep]);
    assert_eq!(winner, Some(high_rep.node_id));
}

#[test]
fn node_id_breaks_all_ties() {
    let same_uptime = 500;
    let same_rep = 700_000;
    let id_a = NodeId::from_bytes([0u8; 32]);
    let id_b = NodeId::from_bytes([255u8; 32]);

    let ra = ranking_with_id(id_a, same_uptime, same_rep);
    let rb = ranking_with_id(id_b, same_uptime, same_rep);
    let winner = NaturalSelectionCoordinator::select_coordinator(&[rb, ra]);
    assert_eq!(winner, Some(id_a));
}

#[test]
fn rank_providers_order() {
    let r1 = ranking(9999, 900_000);
    let r2 = ranking(5000, 800_000);
    let r3 = ranking(100, 100_000);
    let ranked = NaturalSelectionCoordinator::rank_providers(&[r3, r1, r2]);
    assert_eq!(ranked[0], r1.node_id);
    assert_eq!(ranked[1], r2.node_id);
    assert_eq!(ranked[2], r3.node_id);
}

#[test]
fn rank_providers_empty() {
    let ranked = NaturalSelectionCoordinator::rank_providers(&[]);
    assert!(ranked.is_empty());
}

#[test]
fn elections_agree_whatever_the_order() {
    let a = ranking_with_id(node(3), 10, 5);
    let b = ranking_with_id(node(2), 10, 5);
    let c = ranking_with_id(node(1), 9, 9);
    let one = NaturalSelectionCoordinator::select_coordinator(&[a, b, c]);
    let two = NaturalSelectionCoordinator::select_coordinator(&[c, b, a]);
    assert_eq!(one, two);
    assert_eq!(one, Some(node(2)));
    let ranked = NaturalSelectionCoordinator::rank_providers(&[c, a, b]);
    assert_eq!(ranked, vec![node(2), node(3), node(1)]);
}

// Errors

#[test]
fn error_insufficient_pieces_display() {
    let err = HealthError::InsufficientPieces { cid: "abc".into(), k: 32, available: 5 };
    let s = err.message();
    assert!(s.contains("abc"));
    assert!(s.contains("32"));
    assert!(s.contains("5"));
}

#[test]
fn repair_failed_display() {
    let err = HealthError::RepairFailed { cid: "deadbeef".into(), reason: "no peers online".into() };
    assert!(err.message().contains("deadbeef"));
    assert!(err.message().contains("no peers online"));
}

#[test]
fn coordinator_election_failed_display() {
    let err = HealthError::CoordinatorElectionFailed("empty provider list".into());
    assert!(err.message().contains("empty provider list"));
}

#[test]
fn scan_failed_display() {
    let err = HealthError::ScanFailed("store unavailable".into());
    assert!(err.message().contains("store unavailable"));
}

// Requests

#[test]
fn repair_request_cid_accessor() {
    let cid = Cid::from_data(b"test");
    let req = RepairRequest::Critical { cid, available: 1, k: 2 };
    assert_eq!(req.cid(), &cid);
    assert_eq!(req.severity(), "critical");
}

#[test]
fn normal_severity_label() {
    let cid = Cid::from_data(b"test");
    let req = RepairRequest::Normal { cid, available: 3, target: 5 };
    assert_eq!(req.severity(), "normal");
}

#[test]
fn repair_request_deficit() {
    let req =
        RepairRequest::Normal { cid: Cid::from_data(b"deficit"), available: 50, target: 96 };
    assert_eq!(req.target_count(), 96);
    assert_eq!(req.available_count(), 50);
}

#[test]
fn critical_deficit() {
    let req = RepairRequest::Critical { cid: Cid::from_data(b"critical"), available: 10, k: 32 };
    assert_eq!(req.target_count(), 32);
    assert_eq!(req.available_count(), 10);
}

// Targets

#[test]
fn target_piece_count_k32() {
    assert_eq!(target_piece_count(32), 96);
}

#[test]
fn target_piece_count_k1() {
    assert_eq!(target_piece_count(1), 18);
}

#[test]
fn target_piece_count_k4() {
    assert_eq!(target_piece_count(4), 24);
}

#[test]
fn target_piece_count_k16() {
    assert_eq!(target_piece_count(16), 48);
}

#[test]
fn target_piece_count_k8() {
    assert_eq!(target_piece_count(8), 32);
}

#[test]
fn target_piece_count_minimum_k() {
    let _ = target_piece_count(0);
    assert_eq!(target_piece_count(0), 18);
}

#[test]
fn targets_agree_with_the_fraction() {
    for k in 1..2000u32 {
        let factor = (2.0 + 16.0 / k as f64).ceil() as u32;
        assert_eq!(target_piece_count(k), k * factor);
    }
}

#[test]
fn targets_that_fit() {
    assert!(target_fits(1_431_655_765));
    assert_eq!(target_piece_count(1_431_655_765), u32::MAX);
    assert!(!target_fits(1_431_655_766));
}

// Holders

fn holder(node_id: NodeId, piece_count: u32) -> PieceHolder {
    PieceHolder { node_id, piece_count, last_seen: 1000 }
}

#[test]
fn tracker_starts_empty() {
    let tracker = PieceTracker::new();
    assert_eq!(tracker.cid_count(), 0);
}

#[test]
fn record_and_get() {
    let mut tracker = PieceTracker::new();
    let cid = Cid::from_data(b"content");
    let node = some_node();

    tracker.record_piece(&cid, holder(node, 1));
    let holders = tracker.get_holders(&cid);
    assert_eq!(holders.len(), 1);
    assert_eq!(holders[0].node_id, node);
}

#[test]
fn available_count_sums_piece_counts() {
    let mut tracker = PieceTracker::new();
    let cid = Cid::from_data(b"pieces");
    let n1 = some_node();
    let n2 = some_node();

    tracker.record_piece(&cid, holder(n1, 2));
    tracker.record_piece(&cid, holder(n2, 1));

    assert_eq!(tracker.available_count(&cid), 3);
}

#[test]
fn available_count_dedup_same_node() {
    let mut tracker = PieceTracker::new();
    let cid = Cid::from_data(b"dedup");
    let n1 = some_node();

    tracker.record_piece(&cid, holder(n1, 1));
    tracker.record_piece(&cid, holder(n1, 3));

    assert_eq!(tracker.available_count(&cid), 3);
    assert_eq!(tracker.local_piece_count(&cid, &n1), 3);
}

#[test]
fn available_count_unknown_cid() {
    let tracker = PieceTracker::new();
    let cid = Cid::from_data(b"unknown");
    assert_eq!(tracker.available_count(&cid), 0);
}

#[test]
fn local_piece_count_returns_count() {
    let mut tracker = PieceTracker::new();
    let cid = Cid::from_data(b"local");
    let n1 = some_node();
    let n2 = some_node();

    tracker.record_piece(&cid, holder(n1, 5));
    tracker.record_piece(&cid, holder(n2, 2));

    assert_eq!(tracker.local_piece_count(&cid, &n1), 5);
    assert_eq!(tracker.local_piece_count(&cid, &n2), 2);
    assert_eq!(tracker.local_piece_count(&cid, &some_node()), 0);
}

#[test]
fn holders_with_count_returns_all() {
    let mut tracker = PieceTracker::new();
    let cid = Cid::from_data(b"counts");
    let n1 = some_node();
    let n2 = some_node();

    tracker.record_piece(&cid, holder(n1, 3));
    tracker.record_piece(&cid, holder(n2, 1));

    let counts = tracker.holders_with_count(&cid);
    assert_eq!(counts.len(), 2);
    assert!(counts.contains(&(n1, 3)));
    assert!(counts.contains(&(n2, 1)));
    assert_eq!(tracker.holder_nodes(&cid).len(), 2);
}

#[test]
fn remove_node_purges_records() {
    let mut tracker = PieceTracker::new();
    let cid = Cid::from_data(b"multi");
    let n1 = some_node();
    let n2 = some_node();

    tracker.record_piece(&cid, holder(n1, 1));
    tracker.record_piece(&cid, holder(n2, 1));
    assert_eq!(tracker.get_holders(&cid).len(), 2);

    tracker.remove_node(&n1);
    let remaining = tracker.get_holders(&cid);
    assert_eq!(remaining.len(), 1);
    assert_eq!(remaining[0].node_id, n2);
}

#[test]
fn remove_node_cleans_empty_cid() {
    let mut tracker = PieceTracker::new();
    let cid = Cid::from_data(b"lonely");
    let node = some_node();
    tracker.record_piece(&cid, holder(node, 1));
    assert_eq!(tracker.cid_count(), 1);

    tracker.remove_node(&node);
    assert_eq!(tracker.cid_count(), 0);
}

#[test]
fn prune_stale_removes_old_records() {
    let mut tracker = PieceTracker::new();
    let cid = Cid::from_data(b"stale");
    let node = some_node();
    let now: u64 = 10_000_000;

    let old_holder = PieceHolder { node_id: node, piece_count: 1, last_seen: now - 3_600_000 };
    tracker.record_piece(&cid, old_holder);
    assert_eq!(tracker.available_count(&cid), 1);

    let pruned = tracker.prune_stale(60_000, now);
    assert_eq!(pruned, 1);
    assert_eq!(tracker.available_count(&cid), 0);
}

#[test]
fn sorted_cids_returns_sorted_order() {
    let mut tracker = PieceTracker::new();
    let node = some_node();
    let cids: Vec<Cid> = (0u8..5).map(|i| Cid::from_data(&[i])).collect();

    for cid in &cids {
        tracker.record_piece(cid, holder(node, 1));
    }

    let sorted = tracker.sorted_cids();
    assert_eq!(sorted.len(), 5);
    for window in sorted.windows(2) {
        assert!(window[0].as_bytes() <= window[1].as_bytes());
    }
}

#[test]
fn record_and_get_k() {
    let mut tracker = PieceTracker::new();
    let cid = Cid::from_data(b"k-test");
    tracker.record_k(&cid, 16);
    assert_eq!(tracker.get_k(&cid), Some(16));
}

#[test]
fn record_k_first_writer_wins() {
    let mut tracker = PieceTracker::new();
    let cid = Cid::from_data(b"k-first-write");
    tracker.record_k(&cid, 8);
    tracker.record_k(&cid, 32);
    assert_eq!(tracker.get_k(&cid), Some(8));
}

#[test]
fn remove_node_cleans_k_values() {
    let mut tracker = PieceTracker::new();
    let cid = Cid::from_data(b"k-cleanup");
    let node = some_node();
    tracker.record_piece(&cid, holder(node, 1));
    tracker.record_k(&cid, 16);

    tracker.remove_node(&node);
    assert_eq!(tracker.cid_count(), 0);
    assert_eq!(tracker.get_k(&cid), None);
}

#[test]
fn update_last_seen_on_duplicate() {
    let mut tracker = PieceTracker::new();
    let cid = Cid::from_data(b"update");
    let node = some_node();

    let h1 = PieceHolder { node_id: node, piece_count: 1, last_seen: 880_000 };
    tracker.record_piece(&cid, h1);

    let h2 = PieceHolder { node_id: node, piece_count: 1, last_seen: 1_000_000 };
    tracker.record_piece(&cid, h2);

    let holders = tracker.get_holders(&cid);
    assert_eq!(holders.len(), 1);
    assert_eq!(holders[0].last_seen, 1_000_000);
}

#[test]
fn countable_up_to_the_largest_number() {
    let mut tracker = PieceTracker::new();
    let cid = Cid::from_data(b"many");
    tracker.record_piece(&cid, holder(node(1), u32::MAX));
    assert!(tracker.countable(&cid));
    assert_eq!(tracker.available_count(&cid), u32::MAX);
    tracker.record_piece(&cid, holder(node(2), 1));
    assert!(!tracker.countable(&cid));
    assert!(!can_scan(&HealthScanner::new(1000, node(1)), &tracker));
    // A node that holds one piece does not scan the content, so it need not count it.
    let mut scanner = HealthScanner::new(1000, node(2));
    assert!(can_scan(&scanner, &tracker));
    match scanner.scan_cycle(&tracker) {
        Ok(repairs) => assert!(repairs.is_empty()),
        Err(e) => panic!("{}", e.message()),
    }
}

#[test]
fn tracker_remove_node_cascades_at_scale() {
    let mut tracker = PieceTracker::new();
    let nodes: Vec<NodeId> = (0..10).map(|_| some_node()).collect();
    let cids: Vec<Cid> = (0..50).map(|i| Cid::from_data(&[i as u8; 16])).collect();

    for cid in &cids {
        for node in &nodes {
            tracker.record_piece(cid, holder(*node, 4));
        }
    }

    for cid in &cids {
        assert_eq!(tracker.available_count(cid), 40);
    }

    for node in &nodes[0..3] {
        tracker.remove_node(node);
    }

    for cid in &cids {
        assert_eq!(
            tracker.available_count(cid),
            28,
            "should have 28 pieces after removing 3 nodes"
        );
    }
}

// Scans

fn scan(tracker: &PieceTracker, node_id: NodeId) -> Vec<RepairRequest> {
    let mut scanner = HealthScanner::new(3_600_000, node_id).with_scan_percent(WHOLE);
    match scanner.scan_cycle(tracker) {
        Ok(repairs) => repairs,
        Err(e) => panic!("{}", e.message()),
    }
}

#[test]
fn repair_storm_prevention_after_mass_failure() {
    let mut tracker = PieceTracker::new();

    let all_nodes: Vec<NodeId> = (0..10).map(|_| some_node()).collect();
    let cids: Vec<Cid> = (0..20).map(|i| Cid::from_data(&[i as u8; 32])).collect();
    let scanner_node = all_nodes[0];

    for cid in &cids {
        for node_id in &all_nodes {
            tracker.record_piece(cid, holder(*node_id, 4));
        }
    }

    for cid in &cids {
        assert_eq!(tracker.available_count(cid), 40, "each CID should start with 40 pieces");
    }

    for killed_node in &all_nodes[7..10] {
        tracker.remove_node(killed_node);
    }

    for cid in &cids {
        let available = tracker.available_count(cid);
        assert_eq!(available, 28, "each CID should have 28 pieces after 3 node deaths");
    }

    let repairs = scan(&tracker, scanner_node);
    assert_eq!(repairs.len(), 20, "all 20 CIDs should need repair after mass failure");
    for req in &repairs {
        assert_eq!(req.severity(), "critical");
    }

    let batch_size = 5;
    let mut repaired_cids = 0;
    let new_repair_node = some_node();

    for cycle in 0..4 {
        let start = cycle * batch_size;
        let end = (start + batch_size).min(repairs.len());
        let batch = &repairs[start..end];

        for req in batch {
            let cid = req.cid();
            let current = tracker.available_count(cid);
            tracker.record_piece(cid, holder(new_repair_node, 4 * (cycle as u32 + 1)));
            assert!(
                tracker.available_count(cid) > current,
                "repair should increase availability"
            );
            repaired_cids += 1;
        }
    }

    assert_eq!(repaired_cids, 20, "all 20 CIDs should be repaired over 4 cycles");

    let remaining_repairs = scan(&tracker, scanner_node);
    for req in &remaining_repairs {
        assert_ne!(
            req.severity(),
            "critical",
            "no critical repairs should remain after gradual repair"
        );
    }
}

#[test]
fn scanner_reports_contents_of_which_it_has_two_pieces() {
    let me = node(1);
    let mut tracker = PieceTracker::new();
    let mine = Cid::from_data(b"under-replicated");
    let other = Cid::from_data(b"elsewhere");
    tracker.record_piece(&mine, holder(me, 2));
    tracker.record_piece(&other, holder(me, 1));
    tracker.record_piece(&other, holder(node(2), 9));
    let repairs = scan(&tracker, me);
    assert_eq!(repairs, vec![RepairRequest::Critical { cid: mine, available: 2, k: 32 }]);
}

#[test]
fn healthy_contents_need_no_repair() {
    let mut tracker = PieceTracker::new();
    let cid = Cid::from_data(b"healthy");
    tracker.record_k(&cid, 4);
    tracker.record_piece(&cid, holder(node(1), 24));
    assert!(evaluate_cid(&tracker, &cid).is_none());
    tracker.remove_node(&node(1));
    tracker.record_k(&cid, 4);
    tracker.record_piece(&cid, holder(node(1), 23));
    assert_eq!(
        evaluate_cid(&tracker, &cid),
        Some(RepairRequest::Normal { cid, available: 23, target: 24 })
    );
}

/// The sizes of the reports of some cycles, and how often each content was reported.
fn scan_cycles(
    scanner: &mut HealthScanner,
    tracker: &PieceTracker,
    cids: &[Cid],
    cycles: usize,
) -> (Vec<usize>, Vec<usize>) {
    let mut sizes = Vec::new();
    let mut seen: Vec<Cid> = Vec::new();
    for _ in 0..cycles {
        let repairs = match scanner.scan_cycle(tracker) {
            Ok(repairs) => repairs,
            Err(e) => panic!("{}", e.message()),
        };
        sizes.push(repairs.len());
        seen.extend(repairs.iter().map(|req| *req.cid()));
    }
    let counts = cids.iter().map(|cid| seen.iter().filter(|c| *c == cid).count()).collect();
    (sizes, counts)
}

#[test]
fn a_hundred_cycles_visit_every_content_once() {
    let me = node(1);
    for n in [1u32, 2, 99, 100, 101, 150, 250] {
        let mut tracker = PieceTracker::new();
        let cids: Vec<Cid> = (0..n).map(|i| Cid::from_data(&i.to_le_bytes())).collect();
        for cid in &cids {
            tracker.record_piece(cid, holder(me, 2));
        }
        let mut scanner = HealthScanner::new(1000, me);
        assert_eq!(scanner.cycle_interval(), 1000);
        // The first cycle scans one percent, rounded up.
        let (sizes, _) = scan_cycles(&mut scanner, &tracker, &cids, 1);
        assert_eq!(sizes, vec![(n as usize + 99) / 100]);
        // Wherever they begin, a hundred cycles visit every content once.
        for _ in 0..3 {
            let (sizes, counts) = scan_cycles(&mut scanner, &tracker, &cids, 100);
            assert_eq!(sizes.iter().sum::<usize>(), n as usize);
            assert!(counts.iter().all(|c| *c == 1));
        }
    }
}

#[test]
fn one_content_is_reported_in_one_cycle_of_a_hundred() {
    let me = node(1);
    let mut tracker = PieceTracker::new();
    let cid = Cid::from_data(b"alone");
    tracker.record_piece(&cid, holder(me, 2));
    let mut scanner = HealthScanner::new(1000, me);
    let (sizes, _) = scan_cycles(&mut scanner, &tracker, &[cid], 101);
    assert_eq!(sizes[0], 1);
    assert!(sizes[1..100].iter().all(|n| *n == 0));
    assert_eq!(sizes[100], 1);
}

#[test]
fn quarters_take_four_cycles() {
    let me = node(1);
    let mut tracker = PieceTracker::new();
    let cids: Vec<Cid> = (0..10u32).map(|i| Cid::from_data(&i.to_le_bytes())).collect();
    for cid in &cids {
        tracker.record_piece(cid, holder(me, 2));
    }
    let mut scanner = HealthScanner::new(1000, me).with_scan_percent(WHOLE / 4);
    let (sizes, counts) = scan_cycles(&mut scanner, &tracker, &cids, 4);
    assert_eq!(sizes, vec![3, 2, 3, 2]);
    assert!(counts.iter().all(|c| *c == 1));
}

// Repairs

fn pieces_of(data: &[u8], k: u32, n: usize) -> Vec<CodedPiece> {
    match RlncEncoder::new(data, k) {
        Ok(encoder) => encoder.encode_n(n),
        Err(e) => panic!("{}", e.message()),
    }
}

#[test]
fn plan_elects_as_many_nodes_as_pieces_are_missing() {
    let cid = Cid::from_data(b"plan");
    let mut tracker = PieceTracker::new();
    tracker.record_piece(&cid, holder(node(1), 5));
    tracker.record_piece(&cid, holder(node(2), 3));
    tracker.record_piece(&cid, holder(node(3), 1));
    let alive = vec![node(2), node(3)];
    let one_missing = RepairRequest::Normal { cid, available: 9, target: 10 };
    let two_missing = RepairRequest::Normal { cid, available: 8, target: 10 };
    let enough = RepairRequest::Normal { cid, available: 10, target: 10 };

    let first = RepairExecutor::new(node(1));
    assert_eq!(first.plan(&enough, &tracker, &alive), RepairStep::NoDeficit);
    assert_eq!(first.plan(&one_missing, &tracker, &alive), RepairStep::Recode);

    let second = RepairExecutor::new(node(2));
    let seen = vec![node(1), node(3)];
    assert_eq!(second.plan(&one_missing, &tracker, &seen), RepairStep::NotElected);
    assert_eq!(second.plan(&two_missing, &tracker, &seen), RepairStep::Recode);

    let none = RepairExecutor::new(node(9));
    assert_eq!(none.plan(&one_missing, &tracker, &vec![node(3)]), RepairStep::NoRepairers);
}

#[test]
fn distribution_prefers_nodes_with_one_piece() {
    let cid = Cid::from_data(b"targets");
    let me = RepairExecutor::new(node(1));
    let mut tracker = PieceTracker::new();
    tracker.record_piece(&cid, holder(node(1), 2));
    tracker.record_piece(&cid, holder(node(2), 1));
    tracker.record_piece(&cid, holder(node(3), 4));
    let alive = vec![node(2), node(3), node(4)];
    assert_eq!(me.distribution_candidates(&cid, &tracker, &alive), vec![node(2)]);
    let alive = vec![node(3), node(4)];
    assert_eq!(me.distribution_candidates(&cid, &tracker, &alive), vec![node(4)]);
    let alive = vec![node(3)];
    assert_eq!(me.distribution_candidates(&cid, &tracker, &alive), vec![node(3)]);
    assert_eq!(me.select_distribution_target(&cid, &tracker, &alive), Ok(node(3)));
    assert!(me.select_distribution_target(&cid, &tracker, &vec![node(1)]).is_err());
}

#[test]
fn a_repair_sends_a_fresh_piece() {
    let data = b"repairable content";
    let cid = Cid::from_data(data);
    let me = node(1);
    let mut tracker = PieceTracker::new();
    tracker.record_piece(&cid, holder(me, 2));
    let alive = vec![node(2)];
    let pieces = pieces_of(data, 4, 2);
    let mut engine = RlncEngine::new();
    let mut executor = RepairExecutor::new(me);
    let request = RepairRequest::Critical { cid, available: 2, k: 4 };
    match executor.execute_repair(&request, &tracker, &alive, &pieces, &mut engine) {
        Ok(Some((target, WireMessage::PieceResponse { pieces: sent, .. }))) => {
            assert_eq!(target, node(2));
            assert_eq!(sent.len(), 1);
            assert_eq!(sent[0].cid, cid);
            assert!(sent[0].verify_piece_id());
        }
        other => panic!("expected a piece to send, got {:?}", other),
    }
    assert_eq!(engine.metrics().snapshot().recodes, 1);

    let few = pieces_of(data, 4, 1);
    match executor.execute_repair(&request, &tracker, &alive, &few, &mut engine) {
        Err(HealthError::InsufficientPieces { available: 1, .. }) => {}
        other => panic!("expected too few pieces, got {:?}", other),
    }

    let done = RepairRequest::Normal { cid, available: 24, target: 24 };
    match executor.execute_repair(&done, &tracker, &alive, &pieces, &mut engine) {
        Ok(None) => {}
        other => panic!("expected nothing to do, got {:?}", other),
    }
    assert!(RepairExecutor::not_sent(&request, "refused").message().contains("refused"));
}

#[test]
fn loading_reads_the_indexed_pieces() {
    let data = b"indexed";
    let cid = Cid::from_data(data);
    let pieces = pieces_of(data, 2, 3);
    let names: Vec<Cid> = pieces.iter().map(|p| Cid::from_bytes(p.piece_id)).collect();
    let mut index = CodedPieceIndex::new();
    assert!(PieceLoad::load_local_pieces(&cid, &index).is_err());
    index.insert(cid, names.clone());
    let mut load = match PieceLoad::load_local_pieces(&cid, &index) {
        Ok(load) => load,
        Err(e) => panic!("{}", e.message()),
    };
    let mut asked = Vec::new();
    while let Some(name) = load.next_cid() {
        let found = pieces.iter().find(|p| p.piece_id == *name.as_bytes());
        asked.push(name);
        load.accept(found.cloned());
    }
    assert_eq!(asked[..], names[..asked.len()]);
    match load.finish() {
        Ok(loaded) => assert_eq!(loaded.len(), asked.len()),
        Err(e) => panic!("{}", e.message()),
    }
}
