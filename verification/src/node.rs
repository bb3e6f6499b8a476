//! Worker nodes and their resource ledger.

use vstd::prelude::*;
use vstd::hash_map::StringHashMap;
use crate::lookup::{first_index, first_where, lemma_first_index, lemma_first_where, Id};
use crate::task::{Demand, Task};

verus! {

/// Why a limit override was turned down.
#[derive(Clone, Copy, Debug, PartialEq, Eq, Structural)]
pub enum LimitError {
    /// The CPU limit is above the node's CPU capacity.
    CpuLimitExceedsCapacity,
    /// The bandwidth limit is above the node's bandwidth capacity.
    BandwidthLimitExceedsCapacity,
    /// The RAM limit is above the node's RAM capacity.
    RamLimitExceedsCapacity,
    /// The storage limit is above the node's storage capacity.
    StorageLimitExceedsCapacity,
}

/// Liveness of a node as the controller sees it.
#[derive(Clone, Copy, Debug, PartialEq, Eq, Structural)]
pub enum NodeHealth {
    /// Heartbeats arrive.
    Healthy,
    /// One heartbeat window went by without a signal.
    Suspected,
    /// A second window in a row went by without a signal.
    Failed,
}

impl NodeHealth {
    /// The state after one heartbeat window: a signal makes a live node
    /// healthy, a missed window makes a healthy node suspected and a
    /// suspected node failed. A failed node stays failed.
    pub open spec fn spec_after_heartbeat(self, healthy: bool) -> NodeHealth {
        match self {
            NodeHealth::Failed => NodeHealth::Failed,
            NodeHealth::Healthy => if healthy {
                NodeHealth::Healthy
            } else {
                NodeHealth::Suspected
            },
            NodeHealth::Suspected => if healthy {
                NodeHealth::Healthy
            } else {
                NodeHealth::Failed
            },
        }
    }

    /// The state after one heartbeat window.
    #[verifier::when_used_as_spec(spec_after_heartbeat)]
    pub fn after_heartbeat(self, healthy: bool) -> (next: NodeHealth)
        ensures
            next == self.spec_after_heartbeat(healthy),
    {
        match self {
            NodeHealth::Failed => NodeHealth::Failed,
            NodeHealth::Healthy => if healthy {
                NodeHealth::Healthy
            } else {
                NodeHealth::Suspected
            },
            NodeHealth::Suspected => if healthy {
                NodeHealth::Healthy
            } else {
                NodeHealth::Failed
            },
        }
    }
}

/// A worker node: fixed capacities and the amounts currently allocated.
pub struct Node {
    pub node_id: String,
    pub weight: u8,
    pub health: NodeHealth,
    pub available_ram: u64,
    pub allocated_ram: u64,
    pub available_storage: u64,
    pub allocated_storage: u64,
    pub available_cpu: u64,
    pub allocated_cpu: u64,
    pub available_bandwidth: u64,
    pub allocated_bandwidth: u64,
    pub task_cache: StringHashMap<Vec<u8>>,
}

/// Percentage of `available` that `allocated` takes up, rounded down.
/// An empty capacity counts as idle when nothing is allocated and as
/// saturated otherwise; the result is capped at `u64::MAX`.
pub open spec fn utilization(allocated: u64, available: u64) -> int {
    if available == 0 {
        if allocated == 0 {
            0
        } else {
            u64::MAX as int
        }
    } else if allocated * 100 / (available as int) > u64::MAX {
        u64::MAX as int
    } else {
        allocated * 100 / (available as int)
    }
}

impl Node {
    /// In every dimension the allocation stays within the capacity.
    pub open spec fn within_capacity(&self) -> bool {
        &&& self.allocated_ram <= self.available_ram
        &&& self.allocated_storage <= self.available_storage
        &&& self.allocated_cpu <= self.available_cpu
        &&& self.allocated_bandwidth <= self.available_bandwidth
    }

    /// Admission test: the demand fits into what is still free.
    pub open spec fn admits(&self, demand: Demand) -> bool {
        &&& self.allocated_ram + demand.ram <= self.available_ram
        &&& self.allocated_cpu + demand.cpu <= self.available_cpu
        &&& self.allocated_bandwidth + demand.bandwidth <= self.available_bandwidth
    }

    /// Admission test for a task.
    pub open spec fn can_handle(&self, task: &Task) -> bool {
        self.admits(task.demand())
    }

    /// RAM that is not allocated.
    pub open spec fn free_ram(&self) -> int {
        self.available_ram - self.allocated_ram
    }

    /// CPU that is not allocated.
    pub open spec fn free_cpu(&self) -> int {
        self.available_cpu - self.allocated_cpu
    }

    /// The node with the demand debited.
    pub open spec fn debited(&self, demand: Demand) -> Node {
        Node {
            allocated_ram: (self.allocated_ram + demand.ram) as u64,
            allocated_cpu: (self.allocated_cpu + demand.cpu) as u64,
            allocated_bandwidth: (self.allocated_bandwidth + demand.bandwidth) as u64,
            ..*self
        }
    }

    /// The node with the demand credited back, never below zero.
    pub open spec fn credited(&self, demand: Demand) -> Node {
        Node {
            allocated_ram: floor_sub(self.allocated_ram, demand.ram),
            allocated_cpu: floor_sub(self.allocated_cpu, demand.cpu),
            allocated_bandwidth: floor_sub(self.allocated_bandwidth, demand.bandwidth),
            ..*self
        }
    }

    /// The node with the task's demand debited.
    pub open spec fn after_allocate(&self, task: &Task) -> Node {
        self.debited(task.demand())
    }

    /// The node with the task's demand credited back, never below zero.
    pub open spec fn after_release(&self, task: &Task) -> Node {
        self.credited(task.demand())
    }

    /// CPU utilization in percent.
    pub open spec fn cpu_load(&self) -> int {
        utilization(self.allocated_cpu, self.available_cpu)
    }

    /// A healthy node with the given capacities, nothing allocated, weight
    /// zero and an empty cache.
    pub fn new(
        node_id: &str,
        available_ram: u64,
        available_storage: u64,
        available_cpu: u64,
        available_bandwidth: u64,
    ) -> (node: Node)
        ensures
            node.node_id@ == node_id@,
            node.weight == 0,
            node.health == NodeHealth::Healthy,
            node.available_ram == available_ram,
            node.available_storage == available_storage,
            node.available_cpu == available_cpu,
            node.available_bandwidth == available_bandwidth,
            node.allocated_ram == 0,
            node.allocated_storage == 0,
            node.allocated_cpu == 0,
            node.allocated_bandwidth == 0,
            node.task_cache@ == Map::<Seq<char>, Vec<u8>>::empty(),
            node.within_capacity(),
    {
        Node {
            node_id: node_id.to_owned(),
            weight: 0,
            health: NodeHealth::Healthy,
            available_ram,
            allocated_ram: 0,
            available_storage,
            allocated_storage: 0,
            available_cpu,
            allocated_cpu: 0,
            available_bandwidth,
            allocated_bandwidth: 0,
            task_cache: StringHashMap::new(),
        }
    }

    /// Whether the task's demand fits into what is still free on this node.
    pub fn can_handle_task(&self, task: &Task) -> (ok: bool)
        ensures
            ok == self.can_handle(task),
    {
        fits(self.allocated_ram, task.required_ram, self.available_ram) && fits(
            self.allocated_cpu,
            task.required_cpu,
            self.available_cpu,
        ) && fits(self.allocated_bandwidth, task.required_bandwidth, self.available_bandwidth)
    }

    /// Debits the task's demand. The caller has passed the admission test.
    pub fn allocate_resources(&mut self, task: &Task)
        requires
            old(self).can_handle(task),
        ensures
            *final(self) == old(self).after_allocate(task),
            old(self).within_capacity() ==> final(self).within_capacity(),
    {
        self.allocated_ram = self.allocated_ram + task.required_ram;
        self.allocated_cpu = self.allocated_cpu + task.required_cpu;
        self.allocated_bandwidth = self.allocated_bandwidth + task.required_bandwidth;
    }

    /// Credits the task's demand back, stopping at zero in each dimension.
    pub fn free_resources(&mut self, task: &Task)
        ensures
            *final(self) == old(self).after_release(task),
            old(self).within_capacity() ==> final(self).within_capacity(),
    {
        self.allocated_ram = self.allocated_ram.saturating_sub(task.required_ram);
        self.allocated_cpu = self.allocated_cpu.saturating_sub(task.required_cpu);
        self.allocated_bandwidth = self.allocated_bandwidth.saturating_sub(
            task.required_bandwidth,
        );
    }
}

impl Node {
    /// The node after `adjust_resources`: a lightly loaded CPU (below 50
    /// percent) frees ten more units of bandwidth for allocation, as far as
    /// the capacity allows; a heavily loaded one (above 80 percent) sets the
    /// bandwidth allocation to half the capacity.
    pub open spec fn after_adjust(&self) -> Node {
        if self.cpu_load() < 50 {
            Node {
                allocated_bandwidth: if self.allocated_bandwidth + 10
                    <= self.available_bandwidth {
                    (self.allocated_bandwidth + 10) as u64
                } else {
                    self.available_bandwidth
                },
                ..*self
            }
        } else if self.cpu_load() > 80 {
            Node { allocated_bandwidth: self.available_bandwidth / 2, ..*self }
        } else {
            *self
        }
    }

    /// Overrides the CPU and bandwidth allocations. A limit above the
    /// capacity is rejected, and then neither allocation changes.
    pub fn set_cpu_bandwidth_limits(&mut self, cpu_limit: u64, bandwidth_limit: u64) -> (r:
        Result<(), LimitError>)
        ensures
            cpu_limit > old(self).available_cpu ==> r == Err::<(), LimitError>(
                LimitError::CpuLimitExceedsCapacity,
            ),
            cpu_limit <= old(self).available_cpu && bandwidth_limit > old(
                self,
            ).available_bandwidth ==> r == Err::<(), LimitError>(
                LimitError::BandwidthLimitExceedsCapacity,
            ),
            cpu_limit <= old(self).available_cpu && bandwidth_limit <= old(
                self,
            ).available_bandwidth ==> r is Ok,
            r is Err ==> *final(self) == *old(self),
            r is Ok ==> *final(self) == (Node {
                allocated_cpu: cpu_limit,
                allocated_bandwidth: bandwidth_limit,
                ..*old(self)
            }),
            old(self).within_capacity() ==> final(self).within_capacity(),
    {
        if cpu_limit > self.available_cpu {
            return Err(LimitError::CpuLimitExceedsCapacity);
        }
        if bandwidth_limit > self.available_bandwidth {
            return Err(LimitError::BandwidthLimitExceedsCapacity);
        }
        self.allocated_cpu = cpu_limit;
        self.allocated_bandwidth = bandwidth_limit;
        Ok(())
    }

    /// CPU utilization in percent.
    pub fn calculate_cpu_load(&self) -> (load: u64)
        ensures
            load == self.cpu_load(),
            self.within_capacity() ==> load <= 100,
    {
        proof {
            lemma_utilization_bound(self.allocated_cpu, self.available_cpu);
        }
        percent(self.allocated_cpu, self.available_cpu)
    }

    /// Shifts the bandwidth allocation with the CPU load.
    pub fn adjust_resources(&mut self)
        ensures
            *final(self) == old(self).after_adjust(),
            old(self).within_capacity() ==> final(self).within_capacity(),
    {
        let cpu_load: u64 = percent(self.allocated_cpu, self.available_cpu);
        if cpu_load < 50 {
            if self.allocated_bandwidth <= self.available_bandwidth
                && self.available_bandwidth - self.allocated_bandwidth >= 10 {
                self.allocated_bandwidth = self.allocated_bandwidth + 10;
            } else {
                self.allocated_bandwidth = self.available_bandwidth;
            }
        } else if cpu_load > 80 {
            self.allocated_bandwidth = self.available_bandwidth / 2;
        }
    }

    /// Stores a task's data under its id, replacing what was cached for it.
    pub fn cache_task_data(&mut self, task_id: &str, data: Vec<u8>)
        ensures
            final(self).task_cache@ == old(self).task_cache@.insert(task_id@, data),
            final(self).node_id == old(self).node_id,
            final(self).weight == old(self).weight,
            final(self).health == old(self).health,
            final(self).available_ram == old(self).available_ram,
            final(self).allocated_ram == old(self).allocated_ram,
            final(self).available_storage == old(self).available_storage,
            final(self).allocated_storage == old(self).allocated_storage,
            final(self).available_cpu == old(self).available_cpu,
            final(self).allocated_cpu == old(self).allocated_cpu,
            final(self).available_bandwidth == old(self).available_bandwidth,
            final(self).allocated_bandwidth == old(self).allocated_bandwidth,
    {
        self.task_cache.insert(task_id.to_owned(), data);
    }

    /// The data cached for a task, if any.
    pub fn get_cached_task_data(&self, task_id: &str) -> (data: Option<&Vec<u8>>)
        ensures
            match data {
                Some(d) => self.task_cache@.contains_key(task_id@) && *d
                    == self.task_cache@[task_id@],
                None => !self.task_cache@.contains_key(task_id@),
            },
    {
        self.task_cache.get(task_id)
    }
}

impl Node {
    /// Caps each task's RAM and CPU demand at an equal share of this node's
    /// capacity: the capacity divided by the number of tasks, rounded down.
    /// A demand below the share stays as it is.
    pub fn allocate_fair_share_resources(&mut self, tasks: &mut Vec<Task>)
        ensures
            *final(self) == *old(self),
            final(tasks)@.len() == old(tasks)@.len(),
            forall|i: int|
                0 <= i < old(tasks)@.len() ==> #[trigger] final(tasks)@[i] == (Task {
                    required_ram: if old(tasks)@[i].required_ram <= old(self).available_ram / (old(
                        tasks,
                    )@.len() as u64) {
                        old(tasks)@[i].required_ram
                    } else {
                        old(self).available_ram / (old(tasks)@.len() as u64)
                    },
                    required_cpu: if old(tasks)@[i].required_cpu <= old(self).available_cpu / (old(
                        tasks,
                    )@.len() as u64) {
                        old(tasks)@[i].required_cpu
                    } else {
                        old(self).available_cpu / (old(tasks)@.len() as u64)
                    },
                    ..old(tasks)@[i]
                }),
    {
        let n = tasks.len();
        if n == 0 {
            return ;
        }
        let total: u64 = n as u64;
        let fair_ram: u64 = self.available_ram / total;
        let fair_cpu: u64 = self.available_cpu / total;
        let mut i: usize = 0;
        while i < n
            invariant
                *self == *old(self),
                n == tasks@.len(),
                n == old(tasks)@.len(),
                n > 0,
                total == n as u64,
                fair_ram == self.available_ram / total,
                fair_cpu == self.available_cpu / total,
                0 <= i <= n,
                forall|k: int| i <= k < n ==> #[trigger] tasks@[k] == old(tasks)@[k],
                forall|k: int|
                    0 <= k < i ==> #[trigger] tasks@[k] == (Task {
                        required_ram: if old(tasks)@[k].required_ram <= fair_ram {
                            old(tasks)@[k].required_ram
                        } else {
                            fair_ram
                        },
                        required_cpu: if old(tasks)@[k].required_cpu <= fair_cpu {
                            old(tasks)@[k].required_cpu
                        } else {
                            fair_cpu
                        },
                        ..old(tasks)@[k]
                    }),
            decreases n - i,
        {
            if tasks[i].required_ram > fair_ram {
                tasks[i].required_ram = fair_ram;
            }
            if tasks[i].required_cpu > fair_cpu {
                tasks[i].required_cpu = fair_cpu;
            }
            i = i + 1;
        }
    }

    /// Which running task a new task pushes aside: the first, in the order
    /// given, whose priority is lower than the new task's. `None` where no
    /// running task has a lower priority.
    pub fn preemptive_task_scheduling(&self, running_tasks: &Vec<Task>, new_task: &Task) -> (preempted:
        Option<usize>)
        ensures
            match preempted {
                Some(at) => at == first_lower_priority(running_tasks@, new_task.priority) && at
                    < running_tasks@.len(),
                None => first_lower_priority(running_tasks@, new_task.priority)
                    == running_tasks@.len(),
            },
    {
        let ghost bar = new_task.priority;
        let ghost lower = |task: Task| task.priority < bar;
        proof {
            lemma_first_where(running_tasks@, lower);
        }
        let mut i: usize = 0;
        while i < running_tasks.len()
            invariant
                0 <= i <= running_tasks.len(),
                bar == new_task.priority,
                lower == (|task: Task| task.priority < bar),
                i <= first_where(running_tasks@, lower) <= running_tasks.len(),
            decreases running_tasks.len() - i,
        {
            proof {
                lemma_first_where(running_tasks@, lower);
            }
            if new_task.priority > running_tasks[i].priority {
                assert(lower(running_tasks@[i as int]));
                return Some(i);
            }
            assert(!lower(running_tasks@[i as int]));
            i = i + 1;
        }
        None
    }
}

/// Index of the first task whose priority is below `priority`, or the
/// number of tasks where none is.
pub open spec fn first_lower_priority(tasks: Seq<Task>, priority: u8) -> int {
    first_where(tasks, |task: Task| task.priority < priority)
}

/// Utilization never passes 100 percent while the allocation is within the
/// capacity.
pub proof fn lemma_utilization_bound(allocated: u64, available: u64)
    ensures
        0 <= utilization(allocated, available),
        allocated <= available ==> utilization(allocated, available) <= 100,
{
    if available != 0 {
        let d = available as int;
        let q = allocated * 100 / d;
        assert(0 <= q) by (nonlinear_arith)
            requires
                q == allocated * 100 / d,
                d > 0,
                allocated >= 0,
        ;
        if allocated <= available {
            assert(q <= 100) by (nonlinear_arith)
                requires
                    q == allocated * 100 / d,
                    d > 0,
                    0 <= allocated <= d,
            ;
        }
    }
}

/// Utilization in percent, computed without overflow.
fn percent(allocated: u64, available: u64) -> (p: u64)
    ensures
        p == utilization(allocated, available),
{
    if available == 0 {
        if allocated == 0 {
            0
        } else {
            u64::MAX
        }
    } else {
        let scaled: u128 = allocated as u128 * 100;
        let q: u128 = scaled / (available as u128);
        if q > u64::MAX as u128 {
            u64::MAX
        } else {
            q as u64
        }
    }
}

/// The ids of the nodes, in order.
pub open spec fn node_ids(nodes: Seq<Node>) -> Seq<Id> {
    Seq::new(nodes.len(), |i: int| nodes[i].node_id@)
}

/// Every node's allocation is within its capacity.
pub open spec fn all_within_capacity(nodes: Seq<Node>) -> bool {
    forall|i: int| 0 <= i < nodes.len() ==> (#[trigger] nodes[i]).within_capacity()
}

/// Index of the first node with the given id, or the number of nodes where
/// none has it.
pub fn position_of_node(nodes: &Vec<Node>, node_id: &String) -> (at: usize)
    ensures
        at == first_index(node_ids(nodes@), node_id@),
        at <= nodes.len(),
{
    let ghost ids = node_ids(nodes@);
    proof {
        lemma_first_index(ids, node_id@);
    }
    let mut i: usize = 0;
    while i < nodes.len()
        invariant
            ids == node_ids(nodes@),
            0 <= i <= nodes.len(),
            i <= first_index(ids, node_id@),
            first_index(ids, node_id@) <= ids.len(),
        decreases nodes.len() - i,
    {
        proof {
            lemma_first_index(ids, node_id@);
        }
        if nodes[i].node_id == *node_id {
            assert(ids[i as int] == node_id@);
            return i;
        }
        assert(ids[i as int] != node_id@);
        i = i + 1;
    }
    i
}

/// One operation on a node's ledger.
pub enum LedgerOp {
    /// Debit the demand, provided the node admits it.
    Allocate(Demand),
    /// Credit the demand back.
    Release(Demand),
}

/// The node after the operations were applied in order. An allocation that
/// the node does not admit is not carried out.
pub open spec fn after_ops(node: Node, ops: Seq<LedgerOp>) -> Node
    decreases ops.len(),
{
    if ops.len() == 0 {
        node
    } else {
        let before = after_ops(node, ops.drop_last());
        match ops.last() {
            LedgerOp::Allocate(demand) => if before.admits(demand) {
                before.debited(demand)
            } else {
                before
            },
            LedgerOp::Release(demand) => before.credited(demand),
        }
    }
}

/// Whatever allocations and releases a node goes through, in every
/// dimension its allocation stays within its capacity, and its capacity
/// stays what it was.
pub proof fn lemma_ledger_within_capacity(node: Node, ops: Seq<LedgerOp>)
    requires
        node.within_capacity(),
    ensures
        after_ops(node, ops).within_capacity(),
        after_ops(node, ops).available_ram == node.available_ram,
        after_ops(node, ops).available_storage == node.available_storage,
        after_ops(node, ops).available_cpu == node.available_cpu,
        after_ops(node, ops).available_bandwidth == node.available_bandwidth,
    decreases ops.len(),
{
    if ops.len() > 0 {
        lemma_ledger_within_capacity(node, ops.drop_last());
    }
}

/// A release credits back no more than was allocated: no allocation rises
/// and none falls below zero.
pub proof fn lemma_release_bounded(node: Node, demand: Demand)
    ensures
        0 <= node.credited(demand).allocated_ram <= node.allocated_ram,
        0 <= node.credited(demand).allocated_cpu <= node.allocated_cpu,
        0 <= node.credited(demand).allocated_bandwidth <= node.allocated_bandwidth,
        node.within_capacity() ==> node.credited(demand).within_capacity(),
{
}

/// Releasing a second time changes nothing, on a node that holds nothing
/// beyond the demand: in every dimension either nothing is asked for or no
/// more is allocated than is asked for.
pub proof fn lemma_release_idempotent(node: Node, demand: Demand)
    requires
        demand.ram == 0 || node.allocated_ram <= demand.ram,
        demand.cpu == 0 || node.allocated_cpu <= demand.cpu,
        demand.bandwidth == 0 || node.allocated_bandwidth <= demand.bandwidth,
    ensures
        node.credited(demand).credited(demand) == node.credited(demand),
{
}

/// `a - b`, or zero where `b` is the larger.
pub open spec fn floor_sub(a: u64, b: u64) -> u64 {
    if a >= b {
        (a - b) as u64
    } else {
        0
    }
}

/// `allocated + required <= available`, computed without overflow.
fn fits(allocated: u64, required: u64, available: u64) -> (ok: bool)
    ensures
        ok == (allocated + required <= available),
{
    allocated <= available && required <= available - allocated
}

} // verus!
