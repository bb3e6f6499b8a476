//! Execution with retry: what to do with a task when an attempt starts,
//! succeeds or fails, or when the task's node is lost.
//!
//! The caller dispatches the task to the node that a step names and reports
//! the outcome as the next event.

use vstd::prelude::*;
use crate::load_balancer::{first_admitting, id_view, LoadBalancer};
use crate::requeue::none_admits;
use crate::task_tracker::Running;
use crate::lookup::{
    distinct,
    first_index,
    first_where,
    lemma_first_index,
    lemma_first_index_remove,
    lemma_first_where,
    occurs,
    Id,
};
use crate::node::{all_within_capacity, node_ids, position_of_node, Node};
use crate::requeue::{task_views, view_ids, FleetView};
use crate::task::{Demand, Task, TaskView};
use crate::task_queue::{task_ids, TaskQueue};
use crate::task_tracker::TaskTracker;

verus! {

/// What happened to a task since the last step.
#[derive(Clone, Copy, Debug, PartialEq, Eq, Structural)]
pub enum RetryEvent {
    /// The task is to be placed for the first time.
    Start,
    /// The node reported success.
    ExecutionSucceeded,
    /// The node reported failure, or did not answer in time.
    ExecutionFailed,
    /// The task's node left the fleet while the task was running.
    NodeLost,
}

/// What the caller is to do next.
#[derive(Debug, PartialEq, Eq)]
pub enum RetryAction {
    /// Run the task on this node and report the outcome.
    Dispatch(String),
    /// No node has room: the task waits in the backlog.
    NoCapacity,
    /// The task is done.
    Completed,
    /// The retry budget is used up: the task is given up for good.
    PermanentlyFailed,
}

/// A `RetryAction` as specifications see it.
pub enum RetryActionView {
    Dispatch(Id),
    NoCapacity,
    Completed,
    PermanentlyFailed,
}

impl View for RetryAction {
    type V = RetryActionView;

    open spec fn view(&self) -> RetryActionView {
        match self {
            RetryAction::Dispatch(node_id) => RetryActionView::Dispatch(node_id@),
            RetryAction::NoCapacity => RetryActionView::NoCapacity,
            RetryAction::Completed => RetryActionView::Completed,
            RetryAction::PermanentlyFailed => RetryActionView::PermanentlyFailed,
        }
    }
}

/// The result of one step: the task, the fleet and the next action.
pub struct RetryView {
    pub task: TaskView,
    pub fleet: FleetView,
    pub action: RetryActionView,
}

/// The nodes after the demand was credited back on the node with the given
/// id; unchanged where no node has it.
pub open spec fn release_on(nodes: Seq<Node>, node_id: Id, demand: Demand) -> Seq<Node> {
    let at = first_index(node_ids(nodes), node_id);
    if at < nodes.len() {
        nodes.update(at, nodes[at].credited(demand))
    } else {
        nodes
    }
}

/// The nodes after the task gave back what it holds on its node. A task
/// without a node holds nothing.
pub open spec fn released(nodes: Seq<Node>, task: TaskView) -> Seq<Node> {
    match task.assigned_node_id {
        Some(node_id) => release_on(nodes, node_id, task.demand),
        None => nodes,
    }
}

/// The backlog without the first task that has the given id.
pub open spec fn without_task(queue: Seq<TaskView>, task_id: Id) -> Seq<TaskView> {
    let at = first_index(view_ids(queue), task_id);
    if at < queue.len() {
        queue.remove(at)
    } else {
        queue
    }
}

/// Index of the node for the next attempt: the first node that admits the
/// demand and is not the one to avoid; where there is no such node, the
/// first that admits the demand; the number of nodes where none does.
pub open spec fn first_admitting_other(nodes: Seq<Node>, demand: Demand, avoid: Option<Id>) -> int {
    match avoid {
        None => first_admitting(nodes, demand),
        Some(avoided) => {
            let other = first_where(
                nodes,
                |node: Node| node.admits(demand) && node.node_id@ != avoided,
            );
            if other < nodes.len() {
                other
            } else {
                first_admitting(nodes, demand)
            }
        },
    }
}

/// A task after a failed attempt: one more retry is counted, up to the
/// bound.
pub open spec fn after_failure(task: TaskView) -> TaskView {
    TaskView {
        retries: if task.retries < task.max_retries {
            (task.retries + 1) as u32
        } else {
            task.retries
        },
        ..task
    }
}

/// Selects a node for a task: the node is debited, the tracker records the
/// task on it, the backlog no longer holds the task, and the task is to be
/// dispatched there. Where no node admits the task, the task waits: one
/// that was running goes to the back of the backlog, and for one that was
/// not, nothing changes.
pub open spec fn select(task: TaskView, fleet: FleetView, avoid: Option<Id>, was_running: bool) -> RetryView {
    let at = first_admitting_other(fleet.nodes, task.demand, avoid);
    if 0 <= at < fleet.nodes.len() {
        let node_id = fleet.nodes[at].node_id@;
        RetryView {
            task: task.assigned_to(node_id),
            fleet: FleetView {
                nodes: fleet.nodes.update(at, fleet.nodes[at].debited(task.demand)),
                tracker: fleet.tracker.insert(
                    task.task_id,
                    Running { node_id, task: task.assigned_to(node_id) },
                ),
                queue: without_task(fleet.queue, task.task_id),
            },
            action: RetryActionView::Dispatch(node_id),
        }
    } else if was_running {
        RetryView {
            task,
            fleet: FleetView {
                nodes: fleet.nodes,
                tracker: fleet.tracker,
                queue: without_task(fleet.queue, task.task_id).push(task),
            },
            action: RetryActionView::NoCapacity,
        }
    } else {
        RetryView { task, fleet, action: RetryActionView::NoCapacity }
    }
}

/// Gives a task up for good: it is assigned to no node, and neither the
/// tracker nor the backlog holds it any longer.
pub open spec fn abandon(task: TaskView, fleet: FleetView) -> RetryView {
    RetryView {
        task: task.unassigned(),
        fleet: FleetView {
            nodes: fleet.nodes,
            tracker: fleet.tracker.remove(task.task_id),
            queue: without_task(fleet.queue, task.task_id),
        },
        action: RetryActionView::PermanentlyFailed,
    }
}

/// One step of execution with retry. A running task is held by the tracker
/// and not by the backlog; the backlog holds the tasks that wait.
///
/// `Start`: a task whose retry budget is used up is given up, and nothing
/// changes; any other is placed on the first node that admits it.
/// `ExecutionSucceeded`: the task gives back what it holds, tracker and
/// backlog forget it, and it is done.
/// `ExecutionFailed`: one retry is counted and the task gives back what it
/// holds. With the budget used up the task is given up, and tracker and
/// backlog forget it; otherwise it is placed again, on another node than the
/// one that failed wherever another node admits it.
/// `NodeLost`: no retry is counted and nothing is given back to the lost
/// node; the task is placed again, on another node wherever one admits it.
/// A task that no node admits waits. At the start nothing changes for it.
/// After a failed attempt or the loss of its node, the tracker no longer
/// holds it and it goes to the back of the backlog, unassigned.
pub open spec fn retry_step(task: TaskView, fleet: FleetView, event: RetryEvent) -> RetryView {
    let forgotten = fleet.tracker.remove(task.task_id);
    match event {
        RetryEvent::Start => if task.exceeded_retry_limit() {
            RetryView { task, fleet, action: RetryActionView::PermanentlyFailed }
        } else {
            select(task, fleet, None, false)
        },
        RetryEvent::ExecutionSucceeded => RetryView {
            task: task.unassigned(),
            fleet: FleetView {
                nodes: released(fleet.nodes, task),
                tracker: forgotten,
                queue: without_task(fleet.queue, task.task_id),
            },
            action: RetryActionView::Completed,
        },
        RetryEvent::ExecutionFailed => {
            let failed = after_failure(task);
            let nodes = released(fleet.nodes, task);
            if failed.exceeded_retry_limit() {
                abandon(failed, FleetView { nodes, ..fleet })
            } else {
                select(
                    failed.unassigned(),
                    FleetView { nodes, tracker: forgotten, queue: fleet.queue },
                    task.assigned_node_id,
                    true,
                )
            }
        },
        RetryEvent::NodeLost => if task.exceeded_retry_limit() {
            abandon(task, fleet)
        } else {
            select(
                task.unassigned(),
                FleetView { nodes: fleet.nodes, tracker: forgotten, queue: fleet.queue },
                task.assigned_node_id,
                true,
            )
        },
    }
}

/// Index of the first node that admits the task, or the number of nodes.
fn scan_admitting(task: &Task, nodes: &Vec<Node>) -> (at: usize)
    ensures
        at == first_admitting(nodes@, task.demand()),
        at <= nodes.len(),
        at < nodes.len() ==> nodes@[at as int].admits(task.demand()),
{
    let ghost demand = task.demand();
    let ghost accept = |node: Node| node.admits(demand);
    proof {
        lemma_first_where(nodes@, accept);
    }
    let mut i: usize = 0;
    while i < nodes.len()
        invariant
            0 <= i <= nodes.len(),
            demand == task.demand(),
            accept == (|node: Node| node.admits(demand)),
            i <= first_where(nodes@, accept) <= nodes.len(),
        decreases nodes.len() - i,
    {
        proof {
            lemma_first_where(nodes@, accept);
        }
        if nodes[i].can_handle_task(task) {
            assert(accept(nodes@[i as int]));
            return i;
        }
        assert(!accept(nodes@[i as int]));
        i = i + 1;
    }
    i
}

/// Index of the node for the next attempt.
fn scan_admitting_other(task: &Task, nodes: &Vec<Node>, avoid: &Option<String>) -> (at: usize)
    ensures
        at == first_admitting_other(nodes@, task.demand(), id_view(*avoid)),
        at <= nodes.len(),
        at < nodes.len() ==> nodes@[at as int].admits(task.demand()),
{
    match avoid {
        None => scan_admitting(task, nodes),
        Some(avoided) => {
            let ghost demand = task.demand();
            let ghost avoided_id = avoided@;
            let ghost accept = |node: Node| node.admits(demand) && node.node_id@ != avoided_id;
            proof {
                lemma_first_where(nodes@, accept);
            }
            let mut i: usize = 0;
            while i < nodes.len()
                invariant
                    0 <= i <= nodes.len(),
                    demand == task.demand(),
                    avoided_id == avoided@,
                    id_view(*avoid) == Some(avoided_id),
                    accept == (|node: Node| node.admits(demand) && node.node_id@ != avoided_id),
                    i <= first_where(nodes@, accept) <= nodes.len(),
                decreases nodes.len() - i,
            {
                proof {
                    lemma_first_where(nodes@, accept);
                }
                if nodes[i].can_handle_task(task) && !(nodes[i].node_id == *avoided) {
                    assert(accept(nodes@[i as int]));
                    return i;
                }
                assert(!accept(nodes@[i as int]));
                i = i + 1;
            }
            scan_admitting(task, nodes)
        },
    }
}

/// Credits the task's demand back on the node with the given id.
fn release_on_node(nodes: &mut Vec<Node>, node_id: &String, task: &Task)
    ensures
        final(nodes)@ == release_on(old(nodes)@, node_id@, task.demand()),
{
    let at = position_of_node(nodes, node_id);
    if at < nodes.len() {
        nodes[at].free_resources(task);
    }
}

impl LoadBalancer {
    /// Gives back what the task holds on the node it is assigned to, and
    /// clears the assignment. A task without a node holds nothing: for it,
    /// and so for a task that was released before, nothing changes.
    pub fn release_task_resources(&mut self, task: &mut Task, available_nodes: &mut Vec<Node>)
        ensures
            final(available_nodes)@ == released(old(available_nodes)@, old(task)@),
            final(task)@ == old(task)@.unassigned(),
            old(task).assigned_node_id is None ==> *final(task) == *old(task),
    {
        let held = task.assigned_node_id.take();
        match held {
            Some(node_id) => {
                release_on_node(available_nodes, &node_id, task);
            },
            None => {},
        }
    }
}

/// Places the task on the node for the next attempt, if one admits it.
fn select_node(
    task: &mut Task,
    nodes: &mut Vec<Node>,
    task_tracker: &mut TaskTracker,
    task_queue: &mut TaskQueue,
    avoid: &Option<String>,
    was_running: bool,
) -> (action: RetryAction)
    requires
        old(task_tracker).well_formed(),
    ensures
        final(task_tracker).well_formed(),
        old(task_tracker).records_match() ==> final(task_tracker).records_match(),
        (RetryView {
            task: final(task)@,
            fleet: FleetView {
                nodes: final(nodes)@,
                tracker: final(task_tracker)@,
                queue: task_views(final(task_queue)@),
            },
            action: action@,
        }) == select(
            old(task)@,
            FleetView {
                nodes: old(nodes)@,
                tracker: old(task_tracker)@,
                queue: task_views(old(task_queue)@),
            },
            id_view(*avoid),
            was_running,
        ),
{
    let at = scan_admitting_other(task, nodes, avoid);
    proof {
        assert(task_ids(task_queue@) =~= view_ids(task_views(task_queue@)));
        lemma_first_index(task_ids(task_queue@), task.task_id@);
    }
    let ghost waiting = task_queue@;
    let ghost found = first_index(task_ids(waiting), task.task_id@);
    if at < nodes.len() {
        nodes[at].allocate_resources(task);
        let node_id = nodes[at].node_id.clone();
        task.assigned_node_id = Some(node_id.clone());
        task_tracker.assign_task_to_node(task.clone(), node_id.as_str());
        let _ = task_queue.get_task_by_id(task.task_id.as_str());
        proof {
            if found < waiting.len() {
                assert(task_views(task_queue@) =~= task_views(waiting).remove(found));
            }
        }
        RetryAction::Dispatch(node_id)
    } else {
        if was_running {
            let _ = task_queue.get_task_by_id(task.task_id.as_str());
            let ghost rest = task_queue@;
            task_queue.enqueue(task.clone());
            proof {
                if found < waiting.len() {
                    assert(task_views(rest) =~= task_views(waiting).remove(found));
                }
                assert(task_views(task_queue@) =~= task_views(rest).push(task@));
            }
        }
        RetryAction::NoCapacity
    }
}

/// Takes the task out of the tracker and out of the backlog.
fn forget(task: &Task, task_tracker: &mut TaskTracker, task_queue: &mut TaskQueue)
    requires
        old(task_tracker).well_formed(),
    ensures
        final(task_tracker).well_formed(),
        old(task_tracker).records_match() ==> final(task_tracker).records_match(),
        final(task_tracker)@ == old(task_tracker)@.remove(task.task_id@),
        task_views(final(task_queue)@) == without_task(
            task_views(old(task_queue)@),
            task.task_id@,
        ),
{
    proof {
        assert(task_ids(task_queue@) =~= view_ids(task_views(task_queue@)));
        lemma_first_index(task_ids(task_queue@), task.task_id@);
    }
    task_tracker.remove_task_assignment(task.task_id.as_str());
    let ghost at = first_index(task_ids(task_queue@), task.task_id@);
    let ghost before = task_queue@;
    let _ = task_queue.get_task_by_id(task.task_id.as_str());
    proof {
        if at < before.len() {
            assert(task_views(task_queue@) =~= task_views(before).remove(at));
        }
    }
}

impl LoadBalancer {
    /// One step of execution with retry; `retry_step` says what each event
    /// does. The caller starts with `Start`, runs the task on the node of
    /// each `Dispatch` and reports the outcome as the next event, until a
    /// step answers otherwise.
    pub fn assign_task_with_retry(
        &mut self,
        task: &mut Task,
        available_nodes: &mut Vec<Node>,
        task_queue: &mut TaskQueue,
        task_tracker: &mut TaskTracker,
        event: RetryEvent,
    ) -> (action: RetryAction)
        requires
            old(task_tracker).well_formed(),
        ensures
            final(task_tracker).well_formed(),
            old(task_tracker).records_match() ==> final(task_tracker).records_match(),
            (RetryView {
                task: final(task)@,
                fleet: FleetView {
                    nodes: final(available_nodes)@,
                    tracker: final(task_tracker)@,
                    queue: task_views(final(task_queue)@),
                },
                action: action@,
            }) == retry_step(
                old(task)@,
                FleetView {
                    nodes: old(available_nodes)@,
                    tracker: old(task_tracker)@,
                    queue: task_views(old(task_queue)@),
                },
                event,
            ),
    {
        match event {
            RetryEvent::Start => {
                if task.exceeded_retry_limit() {
                    RetryAction::PermanentlyFailed
                } else {
                    select_node(task, available_nodes, task_tracker, task_queue, &None, false)
                }
            },
            RetryEvent::ExecutionSucceeded => {
                self.release_task_resources(task, available_nodes);
                forget(task, task_tracker, task_queue);
                RetryAction::Completed
            },
            RetryEvent::ExecutionFailed => {
                let failed_on = task.assigned_node_id.take();
                match &failed_on {
                    Some(node_id) => {
                        release_on_node(available_nodes, node_id, task);
                    },
                    None => {},
                }
                if task.retries < task.max_retries {
                    task.retries = task.retries + 1;
                }
                if task.exceeded_retry_limit() {
                    forget(task, task_tracker, task_queue);
                    RetryAction::PermanentlyFailed
                } else {
                    task_tracker.remove_task_assignment(task.task_id.as_str());
                    select_node(task, available_nodes, task_tracker, task_queue, &failed_on, true)
                }
            },
            RetryEvent::NodeLost => {
                let lost = task.assigned_node_id.take();
                if task.exceeded_retry_limit() {
                    forget(task, task_tracker, task_queue);
                    RetryAction::PermanentlyFailed
                } else {
                    task_tracker.remove_task_assignment(task.task_id.as_str());
                    select_node(task, available_nodes, task_tracker, task_queue, &lost, true)
                }
            },
        }
    }
}

/// Crediting a demand back changes one ledger at most: every node keeps
/// its identity, and allocations stay within capacity.
pub proof fn lemma_release_keeps(nodes: Seq<Node>, node_id: Id, demand: Demand)
    ensures
        release_on(nodes, node_id, demand).len() == nodes.len(),
        node_ids(release_on(nodes, node_id, demand)) == node_ids(nodes),
        all_within_capacity(nodes) ==> all_within_capacity(release_on(nodes, node_id, demand)),
{
    let after = release_on(nodes, node_id, demand);
    lemma_first_index(node_ids(nodes), node_id);
    assert(node_ids(after) =~= node_ids(nodes));
    if all_within_capacity(nodes) {
        assert forall|i: int| 0 <= i < after.len() implies (#[trigger] after[i]).within_capacity() by {
            assert(nodes[i].within_capacity());
        }
    }
}

/// The node for the next attempt admits the task; there is one exactly
/// when some node admits the task; and it is another node than the one to
/// avoid wherever another node admits the task.
pub proof fn lemma_first_admitting_other(nodes: Seq<Node>, demand: Demand, avoid: Option<Id>)
    ensures
        ({
            let at = first_admitting_other(nodes, demand, avoid);
            &&& 0 <= at <= nodes.len()
            &&& at < nodes.len() ==> nodes[at].admits(demand)
            &&& at == nodes.len() <==> (forall|i: int|
                0 <= i < nodes.len() ==> !(#[trigger] nodes[i]).admits(demand))
            &&& avoid matches Some(avoided) ==> forall|i: int|
                0 <= i < nodes.len() && (#[trigger] nodes[i]).admits(demand) && nodes[i].node_id@
                    != avoided ==> at < nodes.len() && nodes[at].node_id@ != avoided
        }),
{
    let any = |node: Node| node.admits(demand);
    lemma_first_where(nodes, any);
    let plain = first_admitting(nodes, demand);
    if plain < nodes.len() {
        assert(any(nodes[plain]));
    }
    assert forall|i: int| 0 <= i < plain implies !(#[trigger] nodes[i]).admits(demand) by {
        assert(!any(nodes[i]));
    }
    match avoid {
        None => {},
        Some(avoided) => {
            let other_than = |node: Node| node.admits(demand) && node.node_id@ != avoided;
            lemma_first_where(nodes, other_than);
            let other = first_where(nodes, other_than);
            if other < nodes.len() {
                assert(other_than(nodes[other]));
            } else {
                assert forall|i: int| 0 <= i < nodes.len() implies !((#[trigger] nodes[i]).admits(
                    demand,
                ) && nodes[i].node_id@ != avoided) by {
                    assert(!other_than(nodes[i]));
                }
            }
        },
    }
}

/// The backlog without a task holds no task of that id, where no id was
/// in it twice; and it holds the tasks of every other id as it did.
pub proof fn lemma_without_task(queue: Seq<TaskView>, task_id: Id)
    ensures
        distinct(view_ids(queue)) ==> !occurs(view_ids(without_task(queue, task_id)), task_id),
        !occurs(view_ids(queue), task_id) ==> without_task(queue, task_id) == queue,
{
    let ids = view_ids(queue);
    lemma_first_index(ids, task_id);
    let gone = first_index(ids, task_id);
    if distinct(ids) && gone < ids.len() {
        lemma_first_index_remove(ids, gone, task_id);
        assert(view_ids(queue.remove(gone)) =~= ids.remove(gone));
    }
}

/// What every step of execution with retry guarantees.
///
/// The fleet stays valid: nodes keep their identities and ledgers stay
/// within capacity.
/// The retry count stays within its bound; a failed attempt that the
/// budget still covers counts exactly one retry, and no other event counts
/// any.
/// A task whose budget is used up is never dispatched; offered at the
/// start, it is given up and nothing at all changes.
/// A failed attempt ends in permanent failure exactly when it uses the
/// budget up.
/// A dispatched task is assigned to a live node, the tracker holds it on
/// that node with its record, and a backlog without repeated ids does not
/// hold it.
/// A task given up after a failed attempt, and a task that is done, is
/// assigned to no node and the tracker does not hold it; nor does a backlog
/// without repeated ids.
/// After a failed attempt the task goes to another node than the one that
/// failed, wherever another node admits it.
/// A task waits only when no node admits it. At the start nothing changes
/// then. After a failed attempt or the loss of its node, the tracker does
/// not hold the task, and the backlog holds it at the back, unassigned, and
/// nowhere else where no id was in the backlog twice.
#[verifier::spinoff_prover]
pub proof fn lemma_retry_step(task: TaskView, fleet: FleetView, event: RetryEvent)
    ensures
        ({
            let out = retry_step(task, fleet, event);
            &&& node_ids(out.fleet.nodes) == node_ids(fleet.nodes)
            &&& all_within_capacity(fleet.nodes) ==> all_within_capacity(out.fleet.nodes)
            &&& out.task.max_retries == task.max_retries
            &&& task.retries <= task.max_retries ==> out.task.retries <= out.task.max_retries
            &&& event == RetryEvent::ExecutionFailed && task.retries < task.max_retries
                ==> out.task.retries == task.retries + 1
            &&& event != RetryEvent::ExecutionFailed ==> out.task.retries == task.retries
            &&& task.exceeded_retry_limit() ==> !(out.action is Dispatch)
            &&& event == RetryEvent::Start && task.exceeded_retry_limit() ==> out.action
                is PermanentlyFailed && out.task == task && out.fleet == fleet
            &&& event == RetryEvent::Start && !task.exceeded_retry_limit() ==> (out.action
                is NoCapacity <==> none_admits(fleet.nodes, task.demand))
            &&& event == RetryEvent::Start && out.action is NoCapacity ==> out.task == task
                && out.fleet == fleet
            &&& event == RetryEvent::ExecutionFailed ==> (out.action is PermanentlyFailed
                <==> task.retries + 1 >= task.max_retries)
            &&& out.action matches RetryActionView::Dispatch(node_id) ==> {
                &&& out.task.assigned_node_id == Some(node_id)
                &&& out.fleet.tracker.contains_key(task.task_id)
                &&& out.fleet.tracker[task.task_id] == (Running { node_id, task: out.task })
                &&& occurs(node_ids(fleet.nodes), node_id)
                &&& distinct(view_ids(fleet.queue)) ==> !occurs(
                    view_ids(out.fleet.queue),
                    task.task_id,
                )
            }
            &&& (out.action is PermanentlyFailed && event != RetryEvent::Start) || out.action
                is Completed ==> {
                &&& out.task.assigned_node_id is None
                &&& !out.fleet.tracker.contains_key(task.task_id)
                &&& distinct(view_ids(fleet.queue)) ==> !occurs(
                    view_ids(out.fleet.queue),
                    task.task_id,
                )
            }
            &&& event == RetryEvent::ExecutionFailed ==> (task.assigned_node_id matches Some(
                failed_on,
            ) ==> (out.action matches RetryActionView::Dispatch(node_id) ==> forall|i: int|
                0 <= i < fleet.nodes.len() && (#[trigger] released(fleet.nodes, task)[i]).admits(
                    task.demand,
                ) && fleet.nodes[i].node_id@ != failed_on ==> node_id != failed_on))
            &&& out.action is NoCapacity ==> {
                &&& none_admits(out.fleet.nodes, task.demand)
                &&& event != RetryEvent::Start ==> {
                    &&& out.task.assigned_node_id is None
                    &&& !out.fleet.tracker.contains_key(task.task_id)
                    &&& out.fleet.queue == without_task(fleet.queue, task.task_id).push(out.task)
                    &&& distinct(view_ids(fleet.queue)) ==> !occurs(
                        view_ids(without_task(fleet.queue, task.task_id)),
                        task.task_id,
                    )
                }
            }
        }),
{
    let out = retry_step(task, fleet, event);
    let freed = released(fleet.nodes, task);
    match task.assigned_node_id {
        Some(node_id) => {
            lemma_release_keeps(fleet.nodes, node_id, task.demand);
        },
        None => {},
    }
    let start = match event {
        RetryEvent::Start => fleet.nodes,
        RetryEvent::NodeLost => fleet.nodes,
        _ => freed,
    };
    let avoid = match event {
        RetryEvent::Start => None,
        _ => task.assigned_node_id,
    };
    lemma_first_admitting_other(start, task.demand, avoid);
    lemma_without_task(fleet.queue, task.task_id);
    let at = first_admitting_other(start, task.demand, avoid);
    if out.action is Dispatch {
        assert(0 <= at < start.len());
        assert(out.fleet.nodes == start.update(at, start[at].debited(task.demand)));
        assert(node_ids(out.fleet.nodes) =~= node_ids(start));
        lemma_first_index(node_ids(start), start[at].node_id@);
        assert(node_ids(start)[at] == start[at].node_id@);
        if all_within_capacity(fleet.nodes) {
            assert forall|i: int| 0 <= i < out.fleet.nodes.len() implies (
            #[trigger] out.fleet.nodes[i]).within_capacity() by {
                assert(start[i].within_capacity());
            }
        }
        if event == RetryEvent::ExecutionFailed {
            match (task.assigned_node_id, out.action) {
                (Some(failed_on), RetryActionView::Dispatch(node_id)) => {
                    assert forall|i: int|
                        0 <= i < fleet.nodes.len() && (#[trigger] released(
                            fleet.nodes,
                            task,
                        )[i]).admits(task.demand) && fleet.nodes[i].node_id@
                            != failed_on implies node_id != failed_on by {
                        assert(node_ids(freed)[i] == node_ids(fleet.nodes)[i]);
                        assert(freed[i].node_id@ != failed_on);
                    }
                },
                _ => {},
            }
        }
    }
}

/// Releasing a task that was released before is a no-op: once a task has
/// given back what it held, it holds nothing, and giving back again leaves
/// every ledger as it is.
pub proof fn lemma_release_task_once(nodes: Seq<Node>, task: TaskView)
    ensures
        released(released(nodes, task), task.unassigned()) == released(nodes, task),
{
}

/// The task and the fleet after the events were taken in one after the
/// other, each step starting from what the step before left, together with
/// the action of the last step. Before any event nothing is dispatched.
pub open spec fn after_events(task: TaskView, fleet: FleetView, events: Seq<RetryEvent>) -> RetryView
    decreases events.len(),
{
    if events.len() == 0 {
        RetryView { task, fleet, action: RetryActionView::NoCapacity }
    } else {
        let before = after_events(task, fleet, events.drop_last());
        retry_step(before.task, before.fleet, events.last())
    }
}

/// The number of failed attempts among the events.
pub open spec fn failures(events: Seq<RetryEvent>) -> nat
    decreases events.len(),
{
    if events.len() == 0 {
        0
    } else if events.last() == RetryEvent::ExecutionFailed {
        failures(events.drop_last()) + 1
    } else {
        failures(events.drop_last())
    }
}

/// Execution with retry never goes on without end. Whatever the events,
/// the retry count is what it was plus the number of failed attempts, up to
/// the bound; and once the failed attempts have used the budget up, no step
/// dispatches the task again.
pub proof fn lemma_retry_budget(task: TaskView, fleet: FleetView, events: Seq<RetryEvent>)
    requires
        task.retries <= task.max_retries,
    ensures
        ({
            let out = after_events(task, fleet, events);
            &&& out.task.max_retries == task.max_retries
            &&& out.task.retries == if task.retries + failures(events) <= task.max_retries {
                task.retries + failures(events)
            } else {
                task.max_retries as int
            }
            &&& task.retries + failures(events) >= task.max_retries ==> !(out.action is Dispatch)
        }),
    decreases events.len(),
{
    if events.len() > 0 {
        let before = after_events(task, fleet, events.drop_last());
        lemma_retry_budget(task, fleet, events.drop_last());
        lemma_retry_step(before.task, before.fleet, events.last());
    }
}

/// The tracker's mapping and the backlog.
pub struct Books {
    pub tracker: Map<Id, Running>,
    pub queue: Seq<TaskView>,
}

/// What the tracker and the backlog hold after one task of a settled batch
/// was filed: a task that has a node is recorded on it, any other goes to
/// the back of the backlog.
pub open spec fn filed_one(books: Books, task: TaskView) -> Books {
    match task.assigned_node_id {
        Some(node_id) => Books {
            tracker: books.tracker.insert(task.task_id, Running { node_id, task }),
            queue: books.queue,
        },
        None => Books { tracker: books.tracker, queue: books.queue.push(task) },
    }
}

/// What the tracker and the backlog hold after the tasks of a settled batch
/// were filed, one after the other.
pub open spec fn filed_all(books: Books, tasks: Seq<TaskView>) -> Books
    decreases tasks.len(),
{
    if tasks.len() == 0 {
        books
    } else {
        filed_one(filed_all(books, tasks.drop_last()), tasks.last())
    }
}

impl LoadBalancer {
    /// Files the tasks of a batch that a strategy has settled, in order:
    /// the tracker records every task that was given a node, with its
    /// record, and every other task goes to the back of the backlog to wait.
    /// No task is dropped.
    pub fn record_assignments(
        &mut self,
        tasks: Vec<Task>,
        task_queue: &mut TaskQueue,
        task_tracker: &mut TaskTracker,
    )
        requires
            old(task_tracker).well_formed(),
        ensures
            final(task_tracker).well_formed(),
            old(task_tracker).records_match() ==> final(task_tracker).records_match(),
            (Books { tracker: final(task_tracker)@, queue: task_views(final(task_queue)@) })
                == filed_all(
                Books { tracker: old(task_tracker)@, queue: task_views(old(task_queue)@) },
                task_views(tasks@),
            ),
    {
        let mut tasks = tasks;
        let ghost all = task_views(tasks@);
        let ghost books0 = Books { tracker: task_tracker@, queue: task_views(task_queue@) };
        let ghost done: Seq<TaskView> = Seq::empty();
        while tasks.len() > 0
            invariant
                task_tracker.well_formed(),
                old(task_tracker).records_match() ==> task_tracker.records_match(),
                all == done + task_views(tasks@),
                (Books { tracker: task_tracker@, queue: task_views(task_queue@) }) == filed_all(
                    books0,
                    done,
                ),
            decreases tasks.len(),
        {
            let ghost rest_before = task_views(tasks@);
            let ghost waiting = task_queue@;
            let task = tasks.remove(0);
            proof {
                assert(task_views(tasks@) =~= rest_before.drop_first());
                assert(done.push(task@) + task_views(tasks@) =~= done + rest_before);
                assert(done.push(task@).drop_last() =~= done);
                assert(done.push(task@).last() == task@);
            }
            let node_id = match &task.assigned_node_id {
                Some(id) => Some(id.clone()),
                None => None,
            };
            match node_id {
                Some(id) => {
                    task_tracker.assign_task_to_node(task, id.as_str());
                },
                None => {
                    task_queue.enqueue(task);
                    assert(task_views(task_queue@) =~= task_views(waiting).push(task@));
                },
            }
            proof {
                done = done.push(task@);
            }
        }
        proof {
            assert(task_views(tasks@) =~= Seq::<TaskView>::empty());
            assert(all =~= done);
        }
    }
}

} // verus!
