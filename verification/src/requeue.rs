//! What pulling tasks back from a departed node does to the fleet.
//!
//! A running task is held by the tracker, record included, and not by the
//! backlog. Pulled back, it goes to another live node that admits it, or
//! into the backlog where none does.

use vstd::prelude::*;
use crate::load_balancer::{demand_placed_on, lemma_place_demand_keeps, place_demand};
use crate::lookup::{distinct, lemma_first_where, occurs, Id};
use crate::node::{all_within_capacity, node_ids, Node};
use crate::task::{Demand, Task, TaskView};
use crate::task_tracker::{
    assignment_ids,
    assignments_map,
    lemma_tasks_assigned_to,
    tasks_assigned_to,
    Assignment,
    Running,
};

verus! {

/// The fleet as specifications see it: the live nodes, the tracker's
/// mapping and the backlog.
pub struct FleetView {
    pub nodes: Seq<Node>,
    pub tracker: Map<Id, Running>,
    pub queue: Seq<TaskView>,
}

/// The views of the tasks, in order.
pub open spec fn task_views(tasks: Seq<Task>) -> Seq<TaskView> {
    Seq::new(tasks.len(), |i: int| tasks[i]@)
}

/// The ids of the tasks, in order.
pub open spec fn view_ids(tasks: Seq<TaskView>) -> Seq<Id> {
    Seq::new(tasks.len(), |i: int| tasks[i].task_id)
}

/// Every record is filed under its own task id.
pub open spec fn filed(tracker: Map<Id, Running>) -> bool {
    forall|task_id: Id| #[trigger]
        tracker.contains_key(task_id) ==> tracker[task_id].task.task_id == task_id
}

/// The live node that takes a pulled-back task over: the first that admits
/// the task's demand. `None` where no node admits it, or where the tracker
/// has no such task.
pub open spec fn requeue_choice(fleet: FleetView, task_id: Id) -> Option<Id> {
    if fleet.tracker.contains_key(task_id) {
        demand_placed_on(fleet.nodes, fleet.tracker[task_id].task.demand)
    } else {
        None
    }
}

/// Pulls one running task back from a node that left. The task loses its
/// assignment and keeps its retry count and everything else. Where a live
/// node admits it, the first such node is debited and the tracker records
/// the task on that node; the backlog stays as it is. Where no live node
/// admits it, the tracker forgets the task and its record goes to the back
/// of the backlog. A task that the tracker does not hold changes nothing.
pub open spec fn requeue_one(fleet: FleetView, task_id: Id) -> FleetView {
    if fleet.tracker.contains_key(task_id) {
        let record = fleet.tracker[task_id].task.unassigned();
        let tracker = fleet.tracker.remove(task_id);
        match demand_placed_on(fleet.nodes, record.demand) {
            Some(node_id) => FleetView {
                nodes: place_demand(fleet.nodes, record.demand),
                tracker: tracker.insert(
                    record.task_id,
                    Running { node_id, task: record.assigned_to(node_id) },
                ),
                queue: fleet.queue,
            },
            None => FleetView { nodes: fleet.nodes, tracker, queue: fleet.queue.push(record) },
        }
    } else {
        fleet
    }
}

/// Pulls the tasks back one after the other, in the order given.
pub open spec fn requeue_all(fleet: FleetView, task_ids: Seq<Id>) -> FleetView
    decreases task_ids.len(),
{
    if task_ids.len() == 0 {
        fleet
    } else {
        requeue_one(requeue_all(fleet, task_ids.drop_last()), task_ids.last())
    }
}

/// The node chosen for the task at position `i`, after the tasks before it
/// were pulled back.
pub open spec fn requeue_choice_at(fleet: FleetView, task_ids: Seq<Id>, i: int) -> Option<Id> {
    requeue_choice(requeue_all(fleet, task_ids.take(i)), task_ids[i])
}

/// No node admits the demand.
pub open spec fn none_admits(nodes: Seq<Node>, demand: Demand) -> bool {
    forall|i: int| 0 <= i < nodes.len() ==> !(#[trigger] nodes[i]).admits(demand)
}

/// A demand that no node admits is admitted by none after a placement
/// either: placing only takes capacity away.
pub proof fn lemma_place_keeps_refusal(nodes: Seq<Node>, placed: Demand, refused: Demand)
    requires
        none_admits(nodes, refused),
    ensures
        none_admits(place_demand(nodes, placed), refused),
{
    let accept = |node: Node| node.admits(placed);
    lemma_first_where(nodes, accept);
    let after = place_demand(nodes, placed);
    let at = crate::load_balancer::first_admitting(nodes, placed);
    assert forall|i: int| 0 <= i < after.len() implies !(#[trigger] after[i]).admits(refused) by {
        assert(!nodes[i].admits(refused));
        if i == at && at < nodes.len() {
            assert(accept(nodes[at]));
        }
    }
}

/// What pulling tasks back guarantees, for tasks that the tracker holds
/// under their own ids and that are named once each.
///
/// The nodes keep their identities and their ledgers stay within capacity.
/// The backlog keeps every task it held, in place and unchanged; what is
/// added behind them are pulled-back tasks, each once.
/// The entry of every task that is not pulled back is as it was.
/// Every pulled-back task ends in exactly one of two ways. Either the
/// tracker has it on a live node, with its record unchanged but for the
/// assignment, and the added part of the backlog does not hold it. Or no
/// live node admits it, the tracker does not have it, and the added part of
/// the backlog holds its record, unassigned and otherwise unchanged.
#[verifier::spinoff_prover]
pub proof fn lemma_requeue_all(fleet: FleetView, task_ids: Seq<Id>)
    requires
        filed(fleet.tracker),
        task_ids.no_duplicates(),
        forall|i: int| 0 <= i < task_ids.len() ==> fleet.tracker.contains_key(#[trigger] task_ids[i]),
    ensures
        ({
            let after = requeue_all(fleet, task_ids);
            let kept = fleet.queue.len() as int;
            &&& node_ids(after.nodes) == node_ids(fleet.nodes)
            &&& all_within_capacity(fleet.nodes) ==> all_within_capacity(after.nodes)
            &&& filed(after.tracker)
            &&& kept <= after.queue.len() <= kept + task_ids.len()
            &&& after.queue.take(kept) == fleet.queue
            &&& forall|t: Id|
                !task_ids.contains(t) ==> (#[trigger] after.tracker.contains_key(t)
                    <==> fleet.tracker.contains_key(t)) && (fleet.tracker.contains_key(t)
                    ==> after.tracker[t] == fleet.tracker[t])
            &&& forall|j: int|
                kept <= j < after.queue.len() ==> task_ids.contains(
                    (#[trigger] after.queue[j]).task_id,
                ) && !after.tracker.contains_key(after.queue[j].task_id) && after.queue[j]
                    == fleet.tracker[after.queue[j].task_id].task.unassigned()
            &&& forall|j: int, k: int|
                kept <= j < k < after.queue.len() ==> (#[trigger] after.queue[j]).task_id != (
                #[trigger] after.queue[k]).task_id
            &&& forall|t: Id|
                task_ids.contains(t) && #[trigger] after.tracker.contains_key(t) ==> {
                    &&& occurs(node_ids(fleet.nodes), after.tracker[t].node_id)
                    &&& after.tracker[t].task == fleet.tracker[t].task.unassigned().assigned_to(
                        after.tracker[t].node_id,
                    )
                }
            &&& forall|t: Id|
                task_ids.contains(t) && !(#[trigger] after.tracker.contains_key(t)) ==> {
                    &&& none_admits(after.nodes, fleet.tracker[t].task.demand)
                    &&& exists|j: int|
                        kept <= j < after.queue.len() && #[trigger] after.queue[j]
                            == fleet.tracker[t].task.unassigned()
                }
        }),
    decreases task_ids.len(),
{
    let kept = fleet.queue.len() as int;
    if task_ids.len() == 0 {
        assert(fleet.queue.take(kept) =~= fleet.queue);
    } else {
        let front = task_ids.drop_last();
        let id = task_ids.last();
        let middle = requeue_all(fleet, front);
        let after = requeue_all(fleet, task_ids);
        assert(task_ids[task_ids.len() - 1] == id);
        assert forall|i: int| 0 <= i < front.len() implies fleet.tracker.contains_key(
            #[trigger] front[i],
        ) by {
            assert(front[i] == task_ids[i]);
        }
        assert(front.no_duplicates()) by {
            assert forall|i: int, j: int| 0 <= i < front.len() && 0 <= j < front.len() && i
                != j implies front[i] != front[j] by {
                assert(front[i] == task_ids[i] && front[j] == task_ids[j]);
            }
        }
        lemma_requeue_all(fleet, front);
        assert(!front.contains(id)) by {
            if front.contains(id) {
                let i = choose|i: int| 0 <= i < front.len() && front[i] == id;
                assert(task_ids[i] == id);
            }
        }
        assert forall|t: Id| front.contains(t) implies task_ids.contains(t) && t != id by {
            let i = choose|i: int| 0 <= i < front.len() && front[i] == t;
            assert(task_ids[i] == t);
        }
        assert forall|t: Id| task_ids.contains(t) && t != id implies front.contains(t) by {
            let i = choose|i: int| 0 <= i < task_ids.len() && task_ids[i] == t;
            assert(front[i] == t);
        }
        assert(middle.tracker.contains_key(id));
        assert(middle.tracker[id] == fleet.tracker[id]);
        let original = fleet.tracker[id].task;
        let record = original.unassigned();
        assert(record.task_id == id);
        lemma_place_demand_keeps(middle.nodes, record.demand);
        assert(after == requeue_one(middle, id));
        let placed = demand_placed_on(middle.nodes, record.demand);
        assert(node_ids(after.nodes) == node_ids(fleet.nodes));
        assert(all_within_capacity(fleet.nodes) ==> all_within_capacity(after.nodes));
        assert(placed is Some ==> after.queue == middle.queue);
        assert(placed is None ==> after.queue == middle.queue.push(record));
        assert(kept <= after.queue.len() <= kept + task_ids.len());
        assert forall|t: Id| #[trigger] after.tracker.contains_key(t) implies after.tracker[t].task.task_id
            == t by {
            if t != id {
                assert(middle.tracker.contains_key(t));
                assert(after.tracker[t] == middle.tracker[t]);
            }
        }
        assert forall|t: Id| !task_ids.contains(t) implies (#[trigger] after.tracker.contains_key(t)
            <==> fleet.tracker.contains_key(t)) && (fleet.tracker.contains_key(t)
            ==> after.tracker[t] == fleet.tracker[t]) by {
            assert(t != id);
            assert(!front.contains(t));
            assert(after.tracker.contains_key(t) <==> middle.tracker.contains_key(t));
            assert(middle.tracker.contains_key(t) <==> fleet.tracker.contains_key(t));
        }
        assert(after.queue.take(kept) =~= fleet.queue) by {
            assert(middle.queue.take(kept) == fleet.queue);
            assert forall|j: int| 0 <= j < kept implies after.queue.take(kept)[j]
                == fleet.queue[j] by {
                assert(middle.queue.take(kept)[j] == middle.queue[j]);
            }
        }
        assert forall|j: int| kept <= j < after.queue.len() implies task_ids.contains(
            (#[trigger] after.queue[j]).task_id,
        ) && !after.tracker.contains_key(after.queue[j].task_id) && after.queue[j]
            == fleet.tracker[after.queue[j].task_id].task.unassigned() by {
            if j < middle.queue.len() {
                assert(after.queue[j] == middle.queue[j]);
                assert(front.contains(middle.queue[j].task_id));
            }
        }
        assert forall|j: int, k: int| kept <= j < k < after.queue.len() implies (
        #[trigger] after.queue[j]).task_id != (#[trigger] after.queue[k]).task_id by {
            assert(after.queue[j] == middle.queue[j]);
            if k < middle.queue.len() {
                assert(after.queue[k] == middle.queue[k]);
            } else {
                assert(front.contains(middle.queue[j].task_id));
            }
        }
        assert forall|t: Id|
            task_ids.contains(t) && #[trigger] after.tracker.contains_key(t) implies occurs(
            node_ids(fleet.nodes),
            after.tracker[t].node_id,
        ) && after.tracker[t].task == fleet.tracker[t].task.unassigned().assigned_to(
            after.tracker[t].node_id,
        ) by {
            if t != id {
                assert(front.contains(t));
                assert(middle.tracker.contains_key(t));
            }
        }
        assert forall|t: Id|
            task_ids.contains(t) && !(#[trigger] after.tracker.contains_key(t)) implies none_admits(
            after.nodes,
            fleet.tracker[t].task.demand,
        ) && (exists|j: int|
            kept <= j < after.queue.len() && #[trigger] after.queue[j]
                == fleet.tracker[t].task.unassigned()) by {
            if t != id {
                assert(front.contains(t));
                assert(!middle.tracker.contains_key(t));
                let j = choose|j: int|
                    kept <= j < middle.queue.len() && #[trigger] middle.queue[j]
                        == fleet.tracker[t].task.unassigned();
                assert(after.queue[j] == middle.queue[j]);
                if demand_placed_on(middle.nodes, record.demand) is Some {
                    lemma_place_keeps_refusal(
                        middle.nodes,
                        record.demand,
                        fleet.tracker[t].task.demand,
                    );
                }
            } else {
                assert(after.queue[middle.queue.len() as int] == record);
            }
        }
    }
}

/// The tasks listed for a node are listed once each, and the mapping holds
/// every one of them.
#[verifier::spinoff_prover]
pub proof fn lemma_tasks_assigned_once(entries: Seq<Assignment>, node_id: Id)
    requires
        distinct(assignment_ids(entries)),
    ensures
        tasks_assigned_to(entries, node_id).no_duplicates(),
        forall|i: int|
            0 <= i < tasks_assigned_to(entries, node_id).len() ==> assignments_map(
                entries,
            ).contains_key(#[trigger] tasks_assigned_to(entries, node_id)[i]),
    decreases entries.len(),
{
    let listed = tasks_assigned_to(entries, node_id);
    assert forall|i: int| 0 <= i < listed.len() implies assignments_map(entries).contains_key(
        #[trigger] listed[i],
    ) by {
        lemma_tasks_assigned_to(entries, node_id, listed[i]);
    }
    if entries.len() > 0 {
        let front = entries.drop_last();
        let last = entries.last();
        let ids = assignment_ids(entries);
        let front_ids = assignment_ids(front);
        assert(front_ids =~= ids.drop_last());
        assert forall|i: int, j: int| 0 <= i < j < front_ids.len() implies #[trigger] front_ids[i]
            != #[trigger] front_ids[j] by {
            assert(ids[i] != ids[j]);
        }
        lemma_tasks_assigned_once(front, node_id);
        let shorter = tasks_assigned_to(front, node_id);
        if last.node_id@ == node_id {
            assert forall|i: int, j: int| 0 <= i < listed.len() && 0 <= j < listed.len() && i
                != j implies listed[i] != listed[j] by {
                if i < shorter.len() && j < shorter.len() {
                    assert(shorter[i] != shorter[j]);
                } else {
                    let k = if i < shorter.len() { i } else { j };
                    lemma_tasks_assigned_to(front, node_id, shorter[k]);
                    crate::lookup::lemma_first_index(front_ids, shorter[k]);
                    let at = crate::lookup::first_index(front_ids, shorter[k]);
                    assert(ids[at] != ids[ids.len() - 1]);
                }
            }
        }
    }
}

/// What holds once the tasks of the departed node `node_id` were pulled
/// back, of the tracker `before` and the backlog `kept` as they were and of
/// the fleet as it is.
///
/// Each task that the tracker had on the node is either recorded on a live
/// node, which is not the departed one, with its retry count and everything
/// but the assignment as it was, and nothing of it is added to the backlog;
/// or no live node admits it, the tracker does not have it, and the backlog
/// holds its record behind the tasks it held before, once, unassigned and
/// otherwise as it was.
/// The entry of every task that ran elsewhere is as it was, and no entry
/// appears for a task that had none.
/// The tasks that the backlog held are in it as they were, in place, and
/// nothing is added to it but tasks of the departed node.
pub open spec fn pulled_back(
    before: Map<Id, Running>,
    node_id: Id,
    kept: Seq<TaskView>,
    after: FleetView,
) -> bool {
    let held = kept.len() as int;
    &&& held <= after.queue.len()
    &&& after.queue.take(held) == kept
    &&& forall|t: Id| #[trigger] after.tracker.contains_key(t) ==> after.tracker[t].node_id != node_id
    &&& forall|t: Id|
        #[trigger] before.contains_key(t) && before[t].node_id != node_id
            ==> after.tracker.contains_key(t) && after.tracker[t] == before[t]
    &&& forall|t: Id| !before.contains_key(t) ==> !(#[trigger] after.tracker.contains_key(t))
    &&& forall|t: Id|
        #[trigger] before.contains_key(t) && before[t].node_id == node_id ==> {
            ||| {
                &&& after.tracker.contains_key(t)
                &&& occurs(node_ids(after.nodes), after.tracker[t].node_id)
                &&& after.tracker[t].task == before[t].task.unassigned().assigned_to(
                    after.tracker[t].node_id,
                )
                &&& forall|j: int|
                    held <= j < after.queue.len() ==> (#[trigger] after.queue[j]).task_id != t
            }
            ||| {
                &&& !after.tracker.contains_key(t)
                &&& none_admits(after.nodes, before[t].task.demand)
                &&& exists|j: int|
                    held <= j < after.queue.len() && #[trigger] after.queue[j]
                        == before[t].task.unassigned() && (forall|k: int|
                        held <= k < after.queue.len() && k != j ==> (#[trigger] after.queue[k]).task_id
                            != t)
            }
        }
    &&& forall|j: int|
        held <= j < after.queue.len() ==> before.contains_key((#[trigger] after.queue[j]).task_id)
            && before[after.queue[j].task_id].node_id == node_id
}

/// When a node leaves, none of its tasks is lost and nothing else is
/// disturbed: with the node gone from the live nodes, and every record
/// filed under its own id, pulling back every task that the tracker had on
/// the node gives what `pulled_back` says, and the nodes keep their
/// identities and stay within capacity.
#[verifier::spinoff_prover]
pub proof fn lemma_node_removal(
    nodes: Seq<Node>,
    entries: Seq<Assignment>,
    queue: Seq<TaskView>,
    node_id: Id,
)
    requires
        !occurs(node_ids(nodes), node_id),
        distinct(assignment_ids(entries)),
        filed(assignments_map(entries)),
    ensures
        ({
            let after = requeue_all(
                FleetView { nodes, tracker: assignments_map(entries), queue },
                tasks_assigned_to(entries, node_id),
            );
            &&& node_ids(after.nodes) == node_ids(nodes)
            &&& all_within_capacity(nodes) ==> all_within_capacity(after.nodes)
            &&& pulled_back(assignments_map(entries), node_id, queue, after)
        }),
{
    let before = assignments_map(entries);
    let pulled = tasks_assigned_to(entries, node_id);
    let fleet = FleetView { nodes, tracker: before, queue };
    let after = requeue_all(fleet, pulled);
    let kept = queue.len() as int;
    lemma_tasks_assigned_once(entries, node_id);
    lemma_requeue_all(fleet, pulled);
    assert forall|t: Id| #[trigger] after.tracker.contains_key(t) implies after.tracker[t].node_id
        != node_id by {
        lemma_tasks_assigned_to(entries, node_id, t);
    }
    assert forall|t: Id| #[trigger] before.contains_key(t) && before[t].node_id
        != node_id implies after.tracker.contains_key(t) && after.tracker[t] == before[t] by {
        lemma_tasks_assigned_to(entries, node_id, t);
    }
    assert forall|t: Id| !before.contains_key(t) implies !(#[trigger] after.tracker.contains_key(
        t,
    )) by {
        lemma_tasks_assigned_to(entries, node_id, t);
    }
    assert forall|j: int| kept <= j < after.queue.len() implies before.contains_key(
        (#[trigger] after.queue[j]).task_id,
    ) && before[after.queue[j].task_id].node_id == node_id by {
        lemma_tasks_assigned_to(entries, node_id, after.queue[j].task_id);
    }
    assert forall|t: Id| #[trigger] before.contains_key(t) && before[t].node_id == node_id implies ({
        ||| {
            &&& after.tracker.contains_key(t)
            &&& occurs(node_ids(nodes), after.tracker[t].node_id)
            &&& after.tracker[t].task == before[t].task.unassigned().assigned_to(
                after.tracker[t].node_id,
            )
            &&& forall|j: int|
                kept <= j < after.queue.len() ==> (#[trigger] after.queue[j]).task_id != t
        }
        ||| {
            &&& !after.tracker.contains_key(t)
            &&& none_admits(after.nodes, before[t].task.demand)
            &&& exists|j: int|
                kept <= j < after.queue.len() && #[trigger] after.queue[j]
                    == before[t].task.unassigned() && (forall|k: int|
                    kept <= k < after.queue.len() && k != j ==> (#[trigger] after.queue[k]).task_id
                        != t)
        }
    }) by {
        lemma_tasks_assigned_to(entries, node_id, t);
        assert(pulled.contains(t));
        if !after.tracker.contains_key(t) {
            let j = choose|j: int|
                kept <= j < after.queue.len() && #[trigger] after.queue[j]
                    == before[t].task.unassigned();
            assert(after.queue[j].task_id == t);
            assert forall|k: int| kept <= k < after.queue.len() && k != j implies (
            #[trigger] after.queue[k]).task_id != t by {
                if k < j {
                    assert(after.queue[k].task_id != after.queue[j].task_id);
                } else {
                    assert(after.queue[j].task_id != after.queue[k].task_id);
                }
            }
        }
    }
}

} // verus!
