//! The election of the nodes that repair a content.

use crate::types::bytes;
use crate::types::node_id;
use crate::types::node_id::NodeId;
use vstd::prelude::*;

verus! {

/// How good a node is.
#[derive(Clone, Copy, Debug, PartialEq, Eq)]
pub struct NodeRanking {
    /// The node.
    pub node_id: NodeId,
    /// For how many seconds it has been up.
    pub uptime_secs: u64,
    /// Its reputation, on a scale that all rankings share; higher is better.
    pub reputation_score: u64,
}

/// Whether one node ranks before another: by longer uptime, then by higher reputation, then
/// by the smaller identifier.
pub open spec fn ranks_before(a: NodeRanking, b: NodeRanking) -> bool {
    if a.uptime_secs != b.uptime_secs {
        a.uptime_secs > b.uptime_secs
    } else if a.reputation_score != b.reputation_score {
        a.reputation_score > b.reputation_score
    } else {
        bytes::bytes_less(a.node_id@, b.node_id@)
    }
}

/// The order of ranks: before, or the same.
pub open spec fn rank_order() -> spec_fn(NodeRanking, NodeRanking) -> bool {
    |a: NodeRanking, b: NodeRanking| a == b || ranks_before(a, b)
}

/// The nodes from best to worst.
pub open spec fn ranked(providers: Seq<NodeRanking>) -> Seq<NodeRanking> {
    providers.sort_by(rank_order())
}

/// Ranks order all nodes: of two different rankings, one comes first.
pub proof fn lemma_rank_order()
    ensures
        vstd::relations::total_ordering(rank_order()),
{
    let leq = rank_order();
    assert forall|a: NodeRanking, b: NodeRanking| #[trigger] leq(a, b) && #[trigger] leq(b, a) implies a
        == b by {
        bytes::lemma_bytes_order(a.node_id@, b.node_id@);
    }
    assert forall|a: NodeRanking, b: NodeRanking, c: NodeRanking| #[trigger]
        leq(a, b) && #[trigger] leq(b, c) implies leq(a, c) by {
        if a != b && b != c && bytes::bytes_less(a.node_id@, b.node_id@) && bytes::bytes_less(
            b.node_id@,
            c.node_id@,
        ) {
            bytes::lemma_bytes_transitive(a.node_id@, b.node_id@, c.node_id@);
        }
    }
    assert forall|a: NodeRanking, b: NodeRanking| #[trigger] leq(a, b) || #[trigger] leq(b, a) by {
        bytes::lemma_bytes_order(a.node_id@, b.node_id@);
        if a.node_id@ == b.node_id@ {
            node_id::lemma_node_id_equal(a.node_id, b.node_id);
        }
    }
}

/// Elects coordinators by rank.
pub struct NaturalSelectionCoordinator;

fn before(a: &NodeRanking, b: &NodeRanking) -> (first: bool)
    ensures
        first == ranks_before(*a, *b),
{
    if a.uptime_secs != b.uptime_secs {
        a.uptime_secs > b.uptime_secs
    } else if a.reputation_score != b.reputation_score {
        a.reputation_score > b.reputation_score
    } else {
        bytes::key_less(&a.node_id.bytes, &b.node_id.bytes)
    }
}

impl NaturalSelectionCoordinator {
    /// The best of some nodes, none of none.
    pub fn select_coordinator(providers: &[NodeRanking]) -> (winner: Option<NodeId>)
        ensures
            winner == (if providers@.len() == 0 {
                None
            } else {
                Some(ranked(providers@)[0].node_id)
            }),
    {
        if providers.len() == 0 {
            return None;
        }
        let mut best: usize = 0;
        let mut i: usize = 1;
        while i < providers.len()
            invariant
                1 <= i <= providers@.len(),
                best < i,
                forall|j: int|
                    0 <= j < i ==> rank_order()(providers@[best as int], #[trigger] providers@[j]),
            decreases providers@.len() - i,
        {
            proof {
                lemma_rank_order();
            }
            let ghost was = best;
            if before(&providers[i], &providers[best]) {
                best = i;
            }
            proof {
                let leq = rank_order();
                assert(leq(providers@[i as int], providers@[was as int]) || leq(
                    providers@[was as int],
                    providers@[i as int],
                ));
                assert forall|j: int| 0 <= j < i + 1 implies rank_order()(
                    providers@[best as int],
                    #[trigger] providers@[j],
                ) by {
                    assert(leq(providers@[best as int], providers@[was as int]));
                    if j < i {
                        assert(leq(providers@[was as int], providers@[j]));
                    } else {
                        assert(leq(providers@[best as int], providers@[i as int]));
                    }
                }
            }
            i = i + 1;
        }
        proof {
            lemma_first_is_least(providers@, best as int);
        }
        Some(providers[best].node_id)
    }

    /// All of some nodes, from best to worst.
    pub fn rank_providers(providers: &[NodeRanking]) -> (nodes: Vec<NodeId>)
        ensures
            nodes@ == ranked(providers@).map_values(|r: NodeRanking| r.node_id),
    {
        broadcast use vstd::seq_lib::group_to_multiset_ensures;

        let mut sorted: Vec<NodeRanking> = Vec::new();
        let mut i: usize = 0;
        proof {
            lemma_rank_order();
            assert(providers@.take(0) =~= Seq::<NodeRanking>::empty());
        }
        while i < providers.len()
            invariant
                i <= providers@.len(),
                vstd::relations::sorted_by(sorted@, rank_order()),
                sorted@.to_multiset() == providers@.take(i as int).to_multiset(),
                sorted@.len() == i,
            decreases providers@.len() - i,
        {
            broadcast use vstd::seq_lib::group_to_multiset_ensures;

            let ghost was = sorted@;
            place(&mut sorted, providers[i]);
            proof {
                assert(providers@.take(i + 1) =~= providers@.take(i as int).push(
                    providers@[i as int],
                ));
            }
            i = i + 1;
        }
        proof {
            assert(providers@.take(i as int) =~= providers@);
            lemma_rank_order();
            providers@.lemma_sort_by_ensures(rank_order());
            vstd::seq_lib::lemma_sorted_unique(sorted@, ranked(providers@), rank_order());
        }
        let mut nodes: Vec<NodeId> = Vec::new();
        let mut i: usize = 0;
        while i < sorted.len()
            invariant
                i <= sorted@.len(),
                nodes@.len() == i,
                forall|j: int| 0 <= j < i ==> #[trigger] nodes@[j] == sorted@[j].node_id,
            decreases sorted@.len() - i,
        {
            nodes.push(sorted[i].node_id);
            i = i + 1;
        }
        nodes
    }
}

/// Puts a ranking behind those that rank before it.
fn place(sorted: &mut Vec<NodeRanking>, r: NodeRanking)
    requires
        vstd::relations::sorted_by(old(sorted)@, rank_order()),
    ensures
        vstd::relations::sorted_by(final(sorted)@, rank_order()),
        final(sorted)@.to_multiset() == old(sorted)@.to_multiset().insert(r),
        final(sorted)@.len() == old(sorted)@.len() + 1,
{
    broadcast use vstd::seq_lib::group_to_multiset_ensures;

    let ghost was = sorted@;
    let ghost leq = rank_order();
    let mut p: usize = 0;
    while p < sorted.len() && !before(&r, &sorted[p])
        invariant
            p <= sorted@.len(),
            sorted@ == was,
            leq == rank_order(),
            forall|i: int| 0 <= i < p ==> leq(#[trigger] was[i], r),
        decreases sorted@.len() - p,
    {
        proof {
            lemma_rank_order();
            assert(leq(was[p as int], r) || leq(r, was[p as int]));
        }
        p = p + 1;
    }
    sorted.insert(p, r);
    proof {
        lemma_rank_order();
        let after = sorted@;
        assert forall|i: int| p <= i < was.len() implies leq(r, #[trigger] was[i]) by {
            assert(leq(r, was[p as int]));
            if p < i {
                assert(leq(was[p as int], was[i]));
            }
        }
        assert forall|i: int, j: int| 0 <= i < j < after.len() implies #[trigger] leq(
            after[i],
            after[j],
        ) by {
            let a = if i < p {
                i
            } else {
                i - 1
            };
            let b = if j < p {
                j
            } else {
                j - 1
            };
            if i != p {
                assert(after[i] == was[a]);
            }
            if j != p {
                assert(after[j] == was[b]);
            }
            if i != p && j != p {
                assert(leq(was[a], was[b]));
            }
        }
    }
}

proof fn lemma_first_is_least(providers: Seq<NodeRanking>, best: int)
    requires
        0 <= best < providers.len(),
        forall|j: int|
            0 <= j < providers.len() ==> rank_order()(providers[best], #[trigger] providers[j]),
    ensures
        ranked(providers).len() == providers.len(),
        ranked(providers)[0] == providers[best],
{
    broadcast use vstd::seq_lib::group_to_multiset_ensures;

    let leq = rank_order();
    lemma_rank_order();
    providers.lemma_sort_by_ensures(leq);
    let sorted = ranked(providers);
    assert(sorted.len() == sorted.to_multiset().len());
    assert(providers.len() == providers.to_multiset().len());
    assert(providers.contains(providers[best]));
    assert(providers.to_multiset().contains(providers[best]));
    assert(sorted.contains(providers[best]));
    let k = choose|k: int| 0 <= k < sorted.len() && sorted[k] == providers[best];
    assert(sorted.contains(sorted[0]));
    assert(providers.contains(sorted[0]));
    let j = choose|j: int| 0 <= j < providers.len() && providers[j] == sorted[0];
    assert(leq(providers[best], providers[j]));
    if k > 0 {
        assert(leq(sorted[0], sorted[k]));
    }
}

/// The order in which nodes are listed does not matter: every node elects the same.
pub proof fn lemma_election_agrees(a: Seq<NodeRanking>, b: Seq<NodeRanking>)
    requires
        a.to_multiset() == b.to_multiset(),
    ensures
        ranked(a) == ranked(b),
{
    lemma_rank_order();
    a.lemma_sort_by_ensures(rank_order());
    b.lemma_sort_by_ensures(rank_order());
    vstd::seq_lib::lemma_sorted_unique(ranked(a), ranked(b), rank_order());
}

/// A ranking lists the nodes that it was made of, and no other, a better one never behind a
/// worse one.
pub proof fn lemma_ranked(providers: Seq<NodeRanking>, i: int, j: int)
    requires
        0 <= i < j < providers.len(),
    ensures
        ranked(providers).to_multiset() == providers.to_multiset(),
        ranked(providers).len() == providers.len(),
        !ranks_before(ranked(providers)[j], ranked(providers)[i]),
{
    broadcast use vstd::seq_lib::group_to_multiset_ensures;

    let leq = rank_order();
    lemma_rank_order();
    providers.lemma_sort_by_ensures(leq);
    let sorted = ranked(providers);
    assert(sorted.len() == sorted.to_multiset().len());
    assert(providers.len() == providers.to_multiset().len());
    assert(leq(sorted[i], sorted[j]));
    bytes::lemma_bytes_order(sorted[i].node_id@, sorted[j].node_id@);
}

}
