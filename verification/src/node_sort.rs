//! Ranking nodes: the keys by which strategies arrange them.

use vstd::prelude::*;
use crate::lookup::distinct;
use crate::node::{all_within_capacity, node_ids, Node};
use crate::stable_sort::{
    arrange,
    is_permutation,
    key_values,
    keys_of,
    lemma_sort_order,
    sort_by_keys,
    sort_order,
};

verus! {

/// The keys by which strategies rank nodes. Nodes are always arranged by
/// ascending key.
#[derive(Clone, Copy, Debug, PartialEq, Eq, Structural)]
pub enum NodeRank {
    /// Free RAM; the tightest node comes first.
    FreeRam,
    /// Free CPU; the tightest node comes first.
    FreeCpu,
    /// Weight; the heaviest node comes first.
    Weight,
}

/// The key of a node under a ranking.
pub open spec fn rank_key(node: Node, rank: NodeRank) -> int {
    match rank {
        NodeRank::FreeRam => node.free_ram(),
        NodeRank::FreeCpu => node.free_cpu(),
        NodeRank::Weight => -(node.weight as int),
    }
}

/// The keys of the nodes, in order.
pub open spec fn rank_keys(nodes: Seq<Node>, rank: NodeRank) -> Seq<int> {
    Seq::new(nodes.len(), |i: int| rank_key(nodes[i], rank))
}

/// The nodes arranged by ascending key, nodes of equal key in their
/// given order.
pub open spec fn sort_by_rank(nodes: Seq<Node>, rank: NodeRank) -> Seq<Node> {
    arrange(nodes, sort_order(rank_keys(nodes, rank)))
}

/// The key of a node when ranked by free RAM.
fn free_ram_key(node: &Node) -> (key: i128)
    ensures
        key == rank_key(*node, NodeRank::FreeRam),
{
    node.available_ram as i128 - node.allocated_ram as i128
}

/// The key of a node when ranked by free CPU.
fn free_cpu_key(node: &Node) -> (key: i128)
    ensures
        key == rank_key(*node, NodeRank::FreeCpu),
{
    node.available_cpu as i128 - node.allocated_cpu as i128
}

/// The key of a node when ranked by weight.
fn weight_key(node: &Node) -> (key: i128)
    ensures
        key == rank_key(*node, NodeRank::Weight),
{
    -(node.weight as i128)
}

/// Arranges the nodes by ascending key. The sort is stable: nodes of equal
/// key keep their order.
pub fn sort_nodes(nodes: &mut Vec<Node>, rank: NodeRank)
    ensures
        final(nodes)@ == sort_by_rank(old(nodes)@, rank),
{
    let keys = match rank {
        NodeRank::FreeRam => keys_of(nodes, free_ram_key),
        NodeRank::FreeCpu => keys_of(nodes, free_cpu_key),
        NodeRank::Weight => keys_of(nodes, weight_key),
    };
    proof {
        assert(key_values(keys@) =~= rank_keys(nodes@, rank));
    }
    sort_by_keys(nodes, keys);
}

/// Sorting rearranges the nodes and does nothing else: the result holds
/// each node of the input once, so allocations stay within capacity and
/// distinct ids stay distinct.
pub proof fn lemma_sort_by_rank_keeps(nodes: Seq<Node>, rank: NodeRank)
    ensures
        sort_by_rank(nodes, rank).len() == nodes.len(),
        is_permutation(sort_order(rank_keys(nodes, rank)), nodes.len() as int),
        all_within_capacity(nodes) ==> all_within_capacity(sort_by_rank(nodes, rank)),
        distinct(node_ids(nodes)) ==> distinct(node_ids(sort_by_rank(nodes, rank))),
{
    let order = sort_order(rank_keys(nodes, rank));
    let sorted = sort_by_rank(nodes, rank);
    lemma_sort_order(rank_keys(nodes, rank));
    if all_within_capacity(nodes) {
        assert forall|i: int| 0 <= i < sorted.len() implies (
        #[trigger] sorted[i]).within_capacity() by {
            assert(0 <= order[i] < nodes.len());
            assert(nodes[order[i]].within_capacity());
        }
    }
    if distinct(node_ids(nodes)) {
        let ids = node_ids(nodes);
        let sorted_ids = node_ids(sorted);
        assert forall|i: int, j: int| 0 <= i < j < sorted_ids.len() implies #[trigger] sorted_ids[i]
            != #[trigger] sorted_ids[j] by {
            assert(0 <= order[i] < nodes.len());
            assert(0 <= order[j] < nodes.len());
            assert(order[i] != order[j]);
            assert(sorted_ids[i] == ids[order[i]]);
            assert(sorted_ids[j] == ids[order[j]]);
            if order[i] < order[j] {
                assert(ids[order[i]] != ids[order[j]]);
            } else {
                assert(ids[order[j]] != ids[order[i]]);
            }
        }
    }
}

} // verus!
