//! Node status as an outside store mirrors it, and the choice of a node
//! from mirrored status alone.

use vstd::prelude::*;
use crate::lookup::{first_where, lemma_first_where};
use crate::node::Node;
use crate::task::{Demand, Task};

verus! {

/// What is still free on a node, as written to the mirror.
#[derive(Clone, Copy, Debug, PartialEq, Eq, Structural)]
pub struct NodeStatus {
    pub available_ram: u64,
    pub available_cpu: u64,
    pub available_bandwidth: u64,
}

impl NodeStatus {
    /// The status covers the demand in every dimension.
    pub open spec fn covers(self, demand: Demand) -> bool {
        &&& self.available_ram >= demand.ram
        &&& self.available_cpu >= demand.cpu
        &&& self.available_bandwidth >= demand.bandwidth
    }

    /// The status of a node: what is free in each dimension, zero where
    /// more is allocated than there is.
    pub open spec fn spec_of(node: &Node) -> NodeStatus {
        NodeStatus {
            available_ram: crate::node::floor_sub(node.available_ram, node.allocated_ram),
            available_cpu: crate::node::floor_sub(node.available_cpu, node.allocated_cpu),
            available_bandwidth: crate::node::floor_sub(
                node.available_bandwidth,
                node.allocated_bandwidth,
            ),
        }
    }

    /// The status of a node as it is now.
    #[verifier::when_used_as_spec(spec_of)]
    pub fn of(node: &Node) -> (status: NodeStatus)
        ensures
            status == NodeStatus::spec_of(node),
            node.within_capacity() ==> forall|task: Task|
                status.covers(task.demand()) <==> #[trigger] node.can_handle(&task),
    {
        NodeStatus {
            available_ram: node.available_ram.saturating_sub(node.allocated_ram),
            available_cpu: node.available_cpu.saturating_sub(node.allocated_cpu),
            available_bandwidth: node.available_bandwidth.saturating_sub(node.allocated_bandwidth),
        }
    }
}

/// Whether a mirrored entry is present and covers the demand.
pub open spec fn entry_covers(entry: Option<NodeStatus>, demand: Demand) -> bool {
    match entry {
        Some(status) => status.covers(demand),
        None => false,
    }
}

/// Index of the next candidate at or behind `from`: the first entry from
/// there on that is present and covers the demand; the number of entries
/// where there is none.
pub open spec fn candidate_from(statuses: Seq<Option<NodeStatus>>, demand: Demand, from: int) -> int {
    from + first_where(
        statuses.skip(from),
        |entry: Option<NodeStatus>| entry_covers(entry, demand),
    )
}

/// The next node to offer the task to, going by mirrored status: the first
/// entry at or behind `from` that is present and covers the task's demand.
/// The caller offers the task to that node and, where the node declines,
/// asks again from the entry behind it. `None` where no entry is left.
pub fn next_candidate(statuses: &Vec<Option<NodeStatus>>, task: &Task, from: usize) -> (candidate:
    Option<usize>)
    requires
        from <= statuses.len(),
    ensures
        match candidate {
            Some(at) => at == candidate_from(statuses@, task.demand(), from as int) && from <= at
                < statuses@.len() && entry_covers(statuses@[at as int], task.demand()),
            None => candidate_from(statuses@, task.demand(), from as int) == statuses@.len(),
        },
{
    let ghost demand = task.demand();
    let ghost covering = |entry: Option<NodeStatus>| entry_covers(entry, demand);
    let ghost rest = statuses@.skip(from as int);
    proof {
        lemma_first_where(rest, covering);
    }
    let mut i: usize = from;
    while i < statuses.len()
        invariant
            from <= i <= statuses.len(),
            demand == task.demand(),
            covering == (|entry: Option<NodeStatus>| entry_covers(entry, demand)),
            rest == statuses@.skip(from as int),
            i - from <= first_where(rest, covering) <= rest.len(),
        decreases statuses.len() - i,
    {
        proof {
            lemma_first_where(rest, covering);
            assert(rest[i - from] == statuses@[i as int]);
        }
        let fits = match &statuses[i] {
            Some(status) => status.available_ram >= task.required_ram && status.available_cpu
                >= task.required_cpu && status.available_bandwidth >= task.required_bandwidth,
            None => false,
        };
        if fits {
            assert(covering(rest[i - from]));
            return Some(i);
        }
        assert(!covering(rest[i - from]));
        i = i + 1;
    }
    None
}

} // verus!
