//! Scheduling strategies: which node gets a task.

use vstd::prelude::*;
use crate::lookup::{
    distinct,
    first_index,
    first_where,
    lemma_distinct_index,
    lemma_first_index,
    lemma_first_where,
    occurs,
    Id,
};
use crate::node::{all_within_capacity, node_ids, Node};
use crate::node_sort::{
    lemma_sort_by_rank_keeps,
    rank_key,
    rank_keys,
    sort_by_rank,
    sort_nodes,
    NodeRank,
};
use crate::stable_sort::{
    arrange,
    is_permutation,
    key_values,
    keys_of,
    lemma_sort_order,
    sort_by_keys,
    sort_order,
    stable,
};
use crate::task::{Demand, Task};

verus! {

/// The scheduling policies. The balancer holds no state of its own: every
/// decision is made on the nodes and tasks handed to it.
pub struct LoadBalancer;

/// Index of the first node that admits the demand, or the number of nodes
/// where none does.
pub open spec fn first_admitting(nodes: Seq<Node>, demand: Demand) -> int {
    first_where(nodes, |node: Node| node.admits(demand))
}

/// The nodes after the demand was debited on the first node that admits
/// it; unchanged where no node does.
pub open spec fn place_demand(nodes: Seq<Node>, demand: Demand) -> Seq<Node> {
    let at = first_admitting(nodes, demand);
    if at < nodes.len() {
        nodes.update(at, nodes[at].debited(demand))
    } else {
        nodes
    }
}

/// The id of the node that `place_demand` debits, if there is one.
pub open spec fn demand_placed_on(nodes: Seq<Node>, demand: Demand) -> Option<Id> {
    let at = first_admitting(nodes, demand);
    if at < nodes.len() {
        Some(nodes[at].node_id@)
    } else {
        None
    }
}

/// Index of the first node that passes the admission test for the task, or
/// the number of nodes where none does.
pub open spec fn first_fit(nodes: Seq<Node>, task: Task) -> int {
    first_admitting(nodes, task.demand())
}

/// The nodes after the task was placed on the first node that admits it;
/// unchanged where no node does.
pub open spec fn place(nodes: Seq<Node>, task: Task) -> Seq<Node> {
    place_demand(nodes, task.demand())
}

/// The id of the node that `place` debits, if there is one.
pub open spec fn placed_on(nodes: Seq<Node>, task: Task) -> Option<Id> {
    demand_placed_on(nodes, task.demand())
}

/// The ranking that best-fit uses for a task: free CPU for a CPU-bound
/// task, free RAM for any other.
pub open spec fn best_fit_rank(task: Task) -> NodeRank {
    if task.is_cpu_bound() {
        NodeRank::FreeCpu
    } else {
        NodeRank::FreeRam
    }
}

/// Placing a demand changes one ledger at most: every node keeps its
/// identity, allocations stay within capacity, and a node is debited exactly
/// when some node admits the demand.
pub proof fn lemma_place_demand_keeps(nodes: Seq<Node>, demand: Demand)
    ensures
        place_demand(nodes, demand).len() == nodes.len(),
        node_ids(place_demand(nodes, demand)) == node_ids(nodes),
        all_within_capacity(nodes) ==> all_within_capacity(place_demand(nodes, demand)),
        demand_placed_on(nodes, demand) is None ==> place_demand(nodes, demand) == nodes,
        demand_placed_on(nodes, demand) is None <==> (forall|i: int|
            0 <= i < nodes.len() ==> !(#[trigger] nodes[i]).admits(demand)),
        demand_placed_on(nodes, demand) matches Some(id) ==> occurs(node_ids(nodes), id),
{
    let accept = |node: Node| node.admits(demand);
    lemma_first_where(nodes, accept);
    let at = first_admitting(nodes, demand);
    let after = place_demand(nodes, demand);
    assert(node_ids(after) =~= node_ids(nodes));
    if all_within_capacity(nodes) {
        assert forall|i: int| 0 <= i < after.len() implies (#[trigger] after[i]).within_capacity() by {
            assert(nodes[i].within_capacity());
            if i == at {
                assert(accept(nodes[at]));
            }
        }
    }
    if at < nodes.len() {
        assert(accept(nodes[at]));
        let ids = node_ids(nodes);
        lemma_first_index(ids, nodes[at].node_id@);
        assert(ids[at] == nodes[at].node_id@);
    } else {
        assert forall|i: int| 0 <= i < nodes.len() implies !(#[trigger] nodes[i]).admits(
            demand,
        ) by {
            assert(!accept(nodes[i]));
        }
    }
}

/// Placing a task keeps every node's identity and keeps allocations within
/// capacity.
pub proof fn lemma_place_keeps(nodes: Seq<Node>, task: Task)
    ensures
        place(nodes, task).len() == nodes.len(),
        node_ids(place(nodes, task)) == node_ids(nodes),
        all_within_capacity(nodes) ==> all_within_capacity(place(nodes, task)),
        placed_on(nodes, task) is None ==> place(nodes, task) == nodes,
{
    lemma_place_demand_keeps(nodes, task.demand());
}

/// The nodes after one best-fit placement of the task.
pub open spec fn best_fit_nodes(nodes: Seq<Node>, task: Task) -> Seq<Node> {
    place(sort_by_rank(nodes, best_fit_rank(task)), task)
}

/// The id of the node that best-fit chooses for the task, if any admits it.
pub open spec fn best_fit_choice(nodes: Seq<Node>, task: Task) -> Option<Id> {
    placed_on(sort_by_rank(nodes, best_fit_rank(task)), task)
}

/// The nodes after best-fit placed each of the tasks, one after the other
/// in the order given.
pub open spec fn nodes_after_all(nodes: Seq<Node>, tasks: Seq<Task>) -> Seq<Node>
    decreases tasks.len(),
{
    if tasks.len() == 0 {
        nodes
    } else {
        best_fit_nodes(nodes_after_all(nodes, tasks.drop_last()), tasks.last())
    }
}

/// The choice that best-fit makes for the task at position `i`, after the
/// tasks before it were placed.
pub open spec fn choice_at(nodes: Seq<Node>, tasks: Seq<Task>, i: int) -> Option<Id> {
    best_fit_choice(nodes_after_all(nodes, tasks.take(i)), tasks[i])
}

/// What an id that may be absent looks like in specifications.
pub open spec fn id_view(id: Option<String>) -> Option<Id> {
    match id {
        Some(s) => Some(s@),
        None => None,
    }
}

/// The result of assigning `tasks` one after the other by best-fit,
/// starting from `nodes`: `nodes_after` is what the placements leave,
/// `chosen[i]` is the node chosen for task `i`, and `tasks_after` holds the
/// same tasks in the same order, each assigned task with its node recorded
/// on it and every other task as it was.
pub open spec fn batch_assigned(
    nodes: Seq<Node>,
    tasks: Seq<Task>,
    nodes_after: Seq<Node>,
    tasks_after: Seq<Task>,
    chosen: Seq<Option<String>>,
) -> bool {
    &&& nodes_after == nodes_after_all(nodes, tasks)
    &&& tasks_after.len() == tasks.len()
    &&& chosen.len() == tasks.len()
    &&& forall|i: int|
        0 <= i < tasks.len() ==> id_view(#[trigger] chosen[i]) == choice_at(nodes, tasks, i)
    &&& forall|i: int|
        0 <= i < tasks.len() ==> #[trigger] tasks_after[i] == (match chosen[i] {
            Some(id) => Task { assigned_node_id: Some(id), ..tasks[i] },
            None => tasks[i],
        })
}

/// The keys for priority order: the highest priority sorts first.
pub open spec fn priority_keys(tasks: Seq<Task>) -> Seq<int> {
    Seq::new(tasks.len(), |i: int| -(tasks[i].priority as int))
}

/// The keys for deadline order: the earliest deadline sorts first.
pub open spec fn deadline_keys(tasks: Seq<Task>) -> Seq<int> {
    Seq::new(tasks.len(), |i: int| tasks[i].deadline as int)
}

/// The tasks by descending priority, tasks of equal priority in their
/// given order.
pub open spec fn by_priority(tasks: Seq<Task>) -> Seq<Task> {
    arrange(tasks, sort_order(priority_keys(tasks)))
}

/// The tasks by ascending deadline, tasks of equal deadline in their given
/// order.
pub open spec fn by_deadline(tasks: Seq<Task>) -> Seq<Task> {
    arrange(tasks, sort_order(deadline_keys(tasks)))
}

/// A batch keeps the number of nodes, keeps allocations within capacity
/// and keeps distinct ids distinct.
pub proof fn lemma_nodes_after_all_keeps(nodes: Seq<Node>, tasks: Seq<Task>)
    ensures
        nodes_after_all(nodes, tasks).len() == nodes.len(),
        all_within_capacity(nodes) ==> all_within_capacity(nodes_after_all(nodes, tasks)),
        distinct(node_ids(nodes)) ==> distinct(node_ids(nodes_after_all(nodes, tasks))),
    decreases tasks.len(),
{
    if tasks.len() > 0 {
        let before = nodes_after_all(nodes, tasks.drop_last());
        lemma_nodes_after_all_keeps(nodes, tasks.drop_last());
        let rank = best_fit_rank(tasks.last());
        lemma_sort_by_rank_keeps(before, rank);
        lemma_place_keeps(sort_by_rank(before, rank), tasks.last());
    }
}

/// Best-fit takes the tightest node that admits the task. It chooses a
/// node exactly when some node admits the task; and the node it chooses has
/// the least free capacity, in the dimension that the task is ranked by,
/// among the nodes that admit the task, the earliest in the given order
/// among those that have equally little.
#[verifier::spinoff_prover]
pub proof fn lemma_best_fit_is_tightest(nodes: Seq<Node>, task: Task)
    ensures
        ({
            let rank = best_fit_rank(task);
            let sorted = sort_by_rank(nodes, rank);
            let order = sort_order(rank_keys(nodes, rank));
            let at = first_fit(sorted, task);
            &&& best_fit_choice(nodes, task) is None <==> (forall|i: int|
                0 <= i < nodes.len() ==> !(#[trigger] nodes[i]).can_handle(&task))
            &&& best_fit_choice(nodes, task) is Some ==> {
                &&& 0 <= at < nodes.len()
                &&& 0 <= order[at] < nodes.len()
                &&& best_fit_choice(nodes, task) == Some(nodes[order[at]].node_id@)
                &&& nodes[order[at]].can_handle(&task)
                &&& forall|i: int|
                    0 <= i < nodes.len() && (#[trigger] nodes[i]).can_handle(&task) ==> rank_key(
                        nodes[order[at]],
                        rank,
                    ) < rank_key(nodes[i], rank) || (rank_key(nodes[order[at]], rank) == rank_key(
                        nodes[i],
                        rank,
                    ) && order[at] <= i)
            }
        }),
{
    let rank = best_fit_rank(task);
    let keys = rank_keys(nodes, rank);
    let order = sort_order(keys);
    let sorted = sort_by_rank(nodes, rank);
    let demand = task.demand();
    let accept = |node: Node| node.admits(demand);
    let at = first_fit(sorted, task);
    lemma_sort_order(keys);
    lemma_first_where(sorted, accept);
    assert forall|k: int| 0 <= k < sorted.len() implies #[trigger] sorted[k] == nodes[order[k]] by {}
    if at < sorted.len() {
        assert(accept(sorted[at]));
        assert(0 <= order[at] < nodes.len());
        assert forall|i: int| 0 <= i < nodes.len() && (#[trigger] nodes[i]).can_handle(
            &task,
        ) implies rank_key(nodes[order[at]], rank) < rank_key(nodes[i], rank) || (rank_key(
            nodes[order[at]],
            rank,
        ) == rank_key(nodes[i], rank) && order[at] <= i) by {
            assert(order.contains(i));
            let k = choose|k: int| 0 <= k < order.len() && order[k] == i;
            assert(sorted[k] == nodes[i]);
            if k < at {
                assert(!accept(sorted[k]));
            }
            assert(keys[order[at]] == rank_key(nodes[order[at]], rank));
            assert(keys[order[k]] == rank_key(nodes[i], rank));
            if k > at {
                assert(keys[order[at]] <= keys[order[k]]);
                if keys[order[at]] == keys[order[k]] {
                    assert(order[at] < order[k]);
                }
            }
        }
    } else {
        assert forall|i: int| 0 <= i < nodes.len() implies !(#[trigger] nodes[i]).can_handle(
            &task,
        ) by {
            assert(order.contains(i));
            let k = choose|k: int| 0 <= k < order.len() && order[k] == i;
            assert(sorted[k] == nodes[i]);
            assert(!accept(sorted[k]));
        }
    }
}

/// Priority order is descending and loses no task: the arranged tasks are
/// the given tasks, each once, with priorities that never rise along the
/// sequence, and tasks of equal priority in their given order.
pub proof fn lemma_by_priority(tasks: Seq<Task>)
    ensures
        by_priority(tasks).len() == tasks.len(),
        is_permutation(sort_order(priority_keys(tasks)), tasks.len() as int),
        stable(sort_order(priority_keys(tasks)), priority_keys(tasks)),
        forall|i: int, j: int|
            0 <= i <= j < tasks.len() ==> (#[trigger] by_priority(tasks)[i]).priority >= (
            #[trigger] by_priority(tasks)[j]).priority,
{
    let keys = priority_keys(tasks);
    let order = sort_order(keys);
    lemma_sort_order(keys);
    assert forall|i: int, j: int| 0 <= i <= j < tasks.len() implies (#[trigger] by_priority(
        tasks,
    )[i]).priority >= (#[trigger] by_priority(tasks)[j]).priority by {
        assert(0 <= order[i] < tasks.len());
        assert(0 <= order[j] < tasks.len());
        assert(keys[order[i]] <= keys[order[j]]);
    }
}

/// Deadline order is ascending and loses no task: the arranged tasks are
/// the given tasks, each once, with deadlines that never fall along the
/// sequence, and tasks of equal deadline in their given order.
pub proof fn lemma_by_deadline(tasks: Seq<Task>)
    ensures
        by_deadline(tasks).len() == tasks.len(),
        is_permutation(sort_order(deadline_keys(tasks)), tasks.len() as int),
        stable(sort_order(deadline_keys(tasks)), deadline_keys(tasks)),
        forall|i: int, j: int|
            0 <= i <= j < tasks.len() ==> (#[trigger] by_deadline(tasks)[i]).deadline <= (
            #[trigger] by_deadline(tasks)[j]).deadline,
{
    let keys = deadline_keys(tasks);
    let order = sort_order(keys);
    lemma_sort_order(keys);
    assert forall|i: int, j: int| 0 <= i <= j < tasks.len() implies (#[trigger] by_deadline(
        tasks,
    )[i]).deadline <= (#[trigger] by_deadline(tasks)[j]).deadline by {
        assert(0 <= order[i] < tasks.len());
        assert(0 <= order[j] < tasks.len());
        assert(keys[order[i]] <= keys[order[j]]);
    }
}

/// Amounts of the three resources that tasks ask for.
pub struct Amounts {
    pub ram: int,
    pub cpu: int,
    pub bandwidth: int,
}

/// What is allocated on the node with the given id.
pub open spec fn allocated_on(nodes: Seq<Node>, node_id: Id) -> Amounts {
    let node = nodes[first_index(node_ids(nodes), node_id)];
    Amounts {
        ram: node.allocated_ram as int,
        cpu: node.allocated_cpu as int,
        bandwidth: node.allocated_bandwidth as int,
    }
}

/// The summed demand of the tasks of a batch that were placed on the node
/// with the given id.
pub open spec fn admitted_to(nodes: Seq<Node>, tasks: Seq<Task>, node_id: Id) -> Amounts
    decreases tasks.len(),
{
    if tasks.len() == 0 {
        Amounts { ram: 0, cpu: 0, bandwidth: 0 }
    } else {
        let before = admitted_to(nodes, tasks.drop_last(), node_id);
        if best_fit_choice(nodes_after_all(nodes, tasks.drop_last()), tasks.last()) == Some(
            node_id,
        ) {
            Amounts {
                ram: before.ram + tasks.last().required_ram,
                cpu: before.cpu + tasks.last().required_cpu,
                bandwidth: before.bandwidth + tasks.last().required_bandwidth,
            }
        } else {
            before
        }
    }
}

/// One best-fit placement debits the chosen node by the task's demand and
/// no other node by anything.
#[verifier::spinoff_prover]
pub proof fn lemma_best_fit_debits(nodes: Seq<Node>, task: Task, node_id: Id)
    requires
        distinct(node_ids(nodes)),
        occurs(node_ids(nodes), node_id),
    ensures
        occurs(node_ids(best_fit_nodes(nodes, task)), node_id),
        allocated_on(best_fit_nodes(nodes, task), node_id) == if best_fit_choice(nodes, task)
            == Some(node_id) {
            Amounts {
                ram: allocated_on(nodes, node_id).ram + task.required_ram,
                cpu: allocated_on(nodes, node_id).cpu + task.required_cpu,
                bandwidth: allocated_on(nodes, node_id).bandwidth + task.required_bandwidth,
            }
        } else {
            allocated_on(nodes, node_id)
        },
{
    let rank = best_fit_rank(task);
    let keys = rank_keys(nodes, rank);
    let order = sort_order(keys);
    let sorted = sort_by_rank(nodes, rank);
    let demand = task.demand();
    let accept = |node: Node| node.admits(demand);
    let ids = node_ids(nodes);
    let sorted_ids = node_ids(sorted);
    lemma_sort_order(keys);
    lemma_sort_by_rank_keeps(nodes, rank);
    lemma_first_where(sorted, accept);
    lemma_first_index(ids, node_id);
    let home = first_index(ids, node_id);
    assert(order.contains(home));
    let k = choose|k: int| 0 <= k < order.len() && order[k] == home;
    assert(sorted[k] == nodes[home]);
    assert(sorted_ids[k] == node_id);
    lemma_distinct_index(sorted_ids, k);
    let at = first_fit(sorted, task);
    let after = best_fit_nodes(nodes, task);
    let after_ids = node_ids(after);
    assert(after_ids =~= sorted_ids);
    if at < sorted.len() {
        assert(accept(sorted[at]));
        assert(sorted_ids[at] == sorted[at].node_id@);
        if at != k {
            if at < k {
                assert(sorted_ids[at] != sorted_ids[k]);
            } else {
                assert(sorted_ids[k] != sorted_ids[at]);
            }
        }
    }
}

/// A batch debits every node by exactly what it admitted: for each node,
/// what is allocated once the batch has settled is what was allocated
/// before plus the summed demand of the tasks placed on it. No debit is
/// lost and none is made twice.
pub proof fn lemma_batch_debits(nodes: Seq<Node>, tasks: Seq<Task>, node_id: Id)
    requires
        distinct(node_ids(nodes)),
        occurs(node_ids(nodes), node_id),
    ensures
        occurs(node_ids(nodes_after_all(nodes, tasks)), node_id),
        allocated_on(nodes_after_all(nodes, tasks), node_id).ram == allocated_on(
            nodes,
            node_id,
        ).ram + admitted_to(nodes, tasks, node_id).ram,
        allocated_on(nodes_after_all(nodes, tasks), node_id).cpu == allocated_on(
            nodes,
            node_id,
        ).cpu + admitted_to(nodes, tasks, node_id).cpu,
        allocated_on(nodes_after_all(nodes, tasks), node_id).bandwidth == allocated_on(
            nodes,
            node_id,
        ).bandwidth + admitted_to(nodes, tasks, node_id).bandwidth,
    decreases tasks.len(),
{
    if tasks.len() > 0 {
        let before = nodes_after_all(nodes, tasks.drop_last());
        lemma_batch_debits(nodes, tasks.drop_last(), node_id);
        lemma_nodes_after_all_keeps(nodes, tasks.drop_last());
        lemma_best_fit_debits(before, tasks.last(), node_id);
    }
}

/// The key of a task in priority order.
fn priority_key(task: &Task) -> (key: i128)
    ensures
        key == -(task.priority as int),
{
    -(task.priority as i128)
}

/// The key of a task in deadline order.
fn deadline_key(task: &Task) -> (key: i128)
    ensures
        key == task.deadline as int,
{
    task.deadline as i128
}

/// Scans the nodes in order and debits the first that admits the task.
fn place_on_first_fit(task: &Task, nodes: &mut Vec<Node>) -> (chosen: Option<usize>)
    ensures
        final(nodes)@ == place(old(nodes)@, *task),
        match chosen {
            Some(at) => at == first_fit(old(nodes)@, *task) && at < old(nodes)@.len(),
            None => first_fit(old(nodes)@, *task) == old(nodes)@.len(),
        },
{
    let ghost demand = task.demand();
    let ghost accept = |node: Node| node.admits(demand);
    proof {
        lemma_first_where(nodes@, accept);
    }
    let mut i: usize = 0;
    while i < nodes.len()
        invariant
            nodes@ == old(nodes)@,
            0 <= i <= nodes.len(),
            i <= first_where(nodes@, accept),
            demand == task.demand(),
            accept == (|node: Node| node.admits(demand)),
        decreases nodes.len() - i,
    {
        proof {
            lemma_first_where(nodes@, accept);
        }
        if nodes[i].can_handle_task(task) {
            assert(accept(nodes@[i as int]));
            nodes[i].allocate_resources(task);
            return Some(i);
        }
        assert(!accept(nodes@[i as int]));
        i = i + 1;
    }
    None
}

impl LoadBalancer {
    /// First-fit: debits the first node, in the order given, that admits
    /// the task, records that node on the task and returns its id. Where no
    /// node admits the task, nothing changes and `None` is returned.
    pub fn assign_task_to_node(&mut self, task: &mut Task, available_nodes: &mut Vec<Node>) -> (node_id:
        Option<String>)
        ensures
            final(available_nodes)@ == place(old(available_nodes)@, *old(task)),
            match node_id {
                Some(id) => placed_on(old(available_nodes)@, *old(task)) == Some(id@)
                    && *final(task) == (Task { assigned_node_id: Some(id), ..*old(task) }),
                None => placed_on(old(available_nodes)@, *old(task)) is None && *final(task)
                    == *old(task),
            },
            node_id is None <==> (forall|i: int|
                0 <= i < old(available_nodes)@.len() ==> !(#[trigger] old(
                    available_nodes,
                )@[i]).can_handle(old(task))),
            node_id is None ==> final(available_nodes)@ == old(available_nodes)@,
            node_ids(final(available_nodes)@) == node_ids(old(available_nodes)@),
            all_within_capacity(old(available_nodes)@) ==> all_within_capacity(
                final(available_nodes)@,
            ),
    {
        proof {
            lemma_place_demand_keeps(available_nodes@, task.demand());
        }
        match place_on_first_fit(task, available_nodes) {
            Some(at) => {
                let id = available_nodes[at].node_id.clone();
                task.assigned_node_id = Some(id.clone());
                Some(id)
            },
            None => None,
        }
    }

    /// Best-fit: arranges the nodes by ascending free CPU for a CPU-bound
    /// task and by ascending free RAM for any other, nodes of equal key in
    /// their given order, then debits the first node that admits the task
    /// and returns its id. Where no node admits the task, the nodes are
    /// only rearranged and `None` is returned.
    pub fn assign_task_to_best_node(&mut self, task: &Task, available_nodes: &mut Vec<Node>) -> (node_id:
        Option<String>)
        ensures
            final(available_nodes)@ == place(
                sort_by_rank(old(available_nodes)@, best_fit_rank(*task)),
                *task,
            ),
            match node_id {
                Some(id) => placed_on(
                    sort_by_rank(old(available_nodes)@, best_fit_rank(*task)),
                    *task,
                ) == Some(id@),
                None => placed_on(
                    sort_by_rank(old(available_nodes)@, best_fit_rank(*task)),
                    *task,
                ) is None,
            },
            node_id is None <==> (forall|i: int|
                0 <= i < old(available_nodes)@.len() ==> !(#[trigger] old(
                    available_nodes,
                )@[i]).can_handle(task)),
            final(available_nodes)@.len() == old(available_nodes)@.len(),
            all_within_capacity(old(available_nodes)@) ==> all_within_capacity(
                final(available_nodes)@,
            ),
            distinct(node_ids(old(available_nodes)@)) ==> distinct(
                node_ids(final(available_nodes)@),
            ),
    {
        proof {
            let sorted = sort_by_rank(available_nodes@, best_fit_rank(*task));
            lemma_sort_by_rank_keeps(available_nodes@, best_fit_rank(*task));
            lemma_place_keeps(sorted, *task);
            lemma_best_fit_is_tightest(available_nodes@, *task);
        }
        let rank = if task.is_cpu_bound() {
            NodeRank::FreeCpu
        } else {
            NodeRank::FreeRam
        };
        sort_nodes(available_nodes, rank);
        match place_on_first_fit(task, available_nodes) {
            Some(at) => Some(available_nodes[at].node_id.clone()),
            None => None,
        }
    }
    /// Assigns the tasks one after the other, in the order given, each by
    /// best-fit on what the earlier placements left. Returns the node
    /// chosen for each task.
    fn assign_each(&mut self, tasks: &mut Vec<Task>, available_nodes: &mut Vec<Node>) -> (chosen:
        Vec<Option<String>>)
        ensures
            batch_assigned(
                old(available_nodes)@,
                old(tasks)@,
                final(available_nodes)@,
                final(tasks)@,
                chosen@,
            ),
    {
        let mut chosen: Vec<Option<String>> = Vec::new();
        let n = tasks.len();
        let mut i: usize = 0;
        proof {
            assert(tasks@.take(0) =~= Seq::<Task>::empty());
        }
        while i < n
            invariant
                n == tasks@.len(),
                n == old(tasks)@.len(),
                0 <= i <= n,
                chosen@.len() == i,
                available_nodes@ == nodes_after_all(
                    old(available_nodes)@,
                    old(tasks)@.take(i as int),
                ),
                forall|k: int| i <= k < n ==> #[trigger] tasks@[k] == old(tasks)@[k],
                forall|k: int|
                    0 <= k < i ==> id_view(#[trigger] chosen@[k]) == choice_at(
                        old(available_nodes)@,
                        old(tasks)@,
                        k,
                    ),
                forall|k: int|
                    0 <= k < i ==> #[trigger] tasks@[k] == (match chosen@[k] {
                        Some(id) => Task { assigned_node_id: Some(id), ..old(tasks)@[k] },
                        None => old(tasks)@[k],
                    }),
            decreases n - i,
        {
            proof {
                let longer = old(tasks)@.take(i as int + 1);
                assert(longer.drop_last() =~= old(tasks)@.take(i as int));
                assert(longer.last() == old(tasks)@[i as int]);
            }
            let node_id = self.assign_task_to_best_node(&tasks[i], available_nodes);
            match &node_id {
                Some(id) => {
                    tasks[i].assigned_node_id = Some(id.clone());
                },
                None => {},
            }
            chosen.push(node_id);
            i = i + 1;
        }
        proof {
            assert(old(tasks)@.take(n as int) =~= old(tasks)@);
        }
        chosen
    }

    /// Priority order: arranges the tasks by descending priority, tasks of
    /// equal priority in their given order, and assigns them one after the
    /// other by best-fit. Returns the node chosen for each task, in the new
    /// order of the tasks. No task is dropped: one that no node admits
    /// stays in `tasks`, unassigned.
    pub fn assign_tasks_with_priority(
        &mut self,
        tasks: &mut Vec<Task>,
        available_nodes: &mut Vec<Node>,
    ) -> (chosen: Vec<Option<String>>)
        ensures
            batch_assigned(
                old(available_nodes)@,
                by_priority(old(tasks)@),
                final(available_nodes)@,
                final(tasks)@,
                chosen@,
            ),
            final(tasks)@.len() == old(tasks)@.len(),
            forall|i: int, j: int|
                0 <= i <= j < final(tasks)@.len() ==> (#[trigger] final(tasks)@[i]).priority >= (
                #[trigger] final(tasks)@[j]).priority,
    {
        proof {
            lemma_by_priority(tasks@);
        }
        let keys = keys_of(tasks, priority_key);
        proof {
            assert(key_values(keys@) =~= priority_keys(tasks@));
        }
        sort_by_keys(tasks, keys);
        self.assign_each(tasks, available_nodes)
    }

    /// Deadline order: arranges the tasks by ascending deadline, tasks of
    /// equal deadline in their given order, and assigns them one after the
    /// other by best-fit. Returns the node chosen for each task, in the new
    /// order of the tasks. No task is dropped.
    pub fn assign_tasks_by_deadline(
        &mut self,
        tasks: &mut Vec<Task>,
        available_nodes: &mut Vec<Node>,
    ) -> (chosen: Vec<Option<String>>)
        ensures
            batch_assigned(
                old(available_nodes)@,
                by_deadline(old(tasks)@),
                final(available_nodes)@,
                final(tasks)@,
                chosen@,
            ),
            final(tasks)@.len() == old(tasks)@.len(),
            forall|i: int, j: int|
                0 <= i <= j < final(tasks)@.len() ==> (#[trigger] final(tasks)@[i]).deadline <= (
                #[trigger] final(tasks)@[j]).deadline,
    {
        proof {
            lemma_by_deadline(tasks@);
        }
        let keys = keys_of(tasks, deadline_key);
        proof {
            assert(key_values(keys@) =~= deadline_keys(tasks@));
        }
        sort_by_keys(tasks, keys);
        self.assign_each(tasks, available_nodes)
    }

    /// Weighted: arranges the nodes by descending weight, nodes of equal
    /// weight in their given order, then assigns the tasks in the order
    /// given, each by best-fit. Among nodes that best-fit ranks alike, the
    /// heavier one is therefore taken first.
    pub fn assign_tasks_based_on_weight(
        &mut self,
        tasks: &mut Vec<Task>,
        available_nodes: &mut Vec<Node>,
    ) -> (chosen: Vec<Option<String>>)
        ensures
            batch_assigned(
                sort_by_rank(old(available_nodes)@, NodeRank::Weight),
                old(tasks)@,
                final(available_nodes)@,
                final(tasks)@,
                chosen@,
            ),
    {
        sort_nodes(available_nodes, NodeRank::Weight);
        self.assign_each(tasks, available_nodes)
    }

    /// Least-loaded: arranges the nodes by ascending load, nodes of equal
    /// load in their given order, then assigns the tasks in the order
    /// given, each by best-fit. Among nodes that best-fit ranks alike, the
    /// less loaded one is therefore taken first. The caller measures the
    /// loads: `loads[i]` stands for the load of `available_nodes[i]`, a
    /// larger number for a larger load.
    pub fn assign_tasks_to_least_loaded_node(
        &mut self,
        tasks: &mut Vec<Task>,
        available_nodes: &mut Vec<Node>,
        loads: Vec<i128>,
    ) -> (chosen: Vec<Option<String>>)
        requires
            loads.len() == old(available_nodes).len(),
        ensures
            batch_assigned(
                arrange(old(available_nodes)@, sort_order(key_values(loads@))),
                old(tasks)@,
                final(available_nodes)@,
                final(tasks)@,
                chosen@,
            ),
    {
        sort_by_keys(available_nodes, loads);
        self.assign_each(tasks, available_nodes)
    }

    /// Batch assignment: every task of the batch is assigned by best-fit,
    /// and the placements on the shared nodes take effect one at a time, in
    /// the order of the batch, so that no two tasks are admitted past the
    /// same ceiling. Returns the node chosen for each task once the whole
    /// batch has settled.
    pub fn assign_tasks_in_parallel(&mut self, tasks: Vec<Task>, available_nodes: &mut Vec<Node>) -> (chosen:
        Vec<Option<String>>)
        ensures
            final(available_nodes)@ == nodes_after_all(old(available_nodes)@, tasks@),
            chosen@.len() == tasks@.len(),
            forall|i: int|
                0 <= i < tasks@.len() ==> id_view(#[trigger] chosen@[i]) == choice_at(
                    old(available_nodes)@,
                    tasks@,
                    i,
                ),
    {
        let mut batch = tasks;
        self.assign_each(&mut batch, available_nodes)
    }
}

} // verus!
