//! The node registry: live and failed nodes, and what happens to the work
//! of a node that leaves.

use vstd::prelude::*;
use crate::lookup::{
    distinct,
    first_index,
    lemma_first_index,
    lemma_first_index_push,
    lemma_first_index_remove,
    occurs,
    Id,
};
use crate::load_balancer::{id_view, LoadBalancer};
use crate::requeue::{
    lemma_node_removal,
    pulled_back,
    requeue_all,
    requeue_choice,
    requeue_choice_at,
    requeue_one,
    task_views,
    FleetView,
};
use crate::node::{all_within_capacity, node_ids, position_of_node, Node, NodeHealth};
use crate::task::Task;
use crate::task_queue::TaskQueue;
use crate::task_tracker::{
    lemma_records_filed,
    string_views,
    tasks_assigned_to,
    Running,
    TaskTracker,
};

verus! {

/// Why a registration was turned down.
#[derive(Clone, Copy, Debug, PartialEq, Eq, Structural)]
pub enum RegistryError {
    /// A live or failed node already has this id.
    DuplicateNode,
    /// No failed node has this id.
    UnknownNode,
}

/// Owner of the registry. A node id is in at most one of the two lists.
pub struct NodeController {
    /// The live nodes.
    pub nodes: Vec<Node>,
    /// Nodes confirmed as failed, kept for diagnosis and rejoining.
    pub failed_nodes: Vec<Node>,
}

/// No id of `a` is an id of `b`.
pub open spec fn disjoint(a: Seq<Id>, b: Seq<Id>) -> bool {
    forall|i: int, j: int| 0 <= i < a.len() && 0 <= j < b.len() ==> #[trigger] a[i] != #[trigger] b[j]
}

/// A node that is absent from a list shares its id with none of the list.
pub proof fn lemma_absent(ids: Seq<Id>, id: Id)
    ensures
        !occurs(ids, id) <==> (forall|i: int| 0 <= i < ids.len() ==> #[trigger] ids[i] != id),
{
    lemma_first_index(ids, id);
}

/// What became of one task that was pulled back from a departed node.
#[derive(Debug)]
pub struct Reassignment {
    /// The task.
    pub task_id: String,
    /// The live node that took the task over, or `None` where no node
    /// admitted it and it went into the backlog.
    pub node_id: Option<String>,
}

/// The reports name the tasks in order, each with the node chosen for it
/// after the tasks before it were pulled back.
pub open spec fn reported(reports: Seq<Reassignment>, fleet: FleetView, task_ids: Seq<Id>) -> bool {
    &&& reports.len() == task_ids.len()
    &&& forall|i: int|
        0 <= i < task_ids.len() ==> (#[trigger] reports[i]).task_id@ == task_ids[i] && id_view(
            reports[i].node_id,
        ) == requeue_choice_at(fleet, task_ids, i)
}

/// The state after the live node `node_id` left: it is gone from the live
/// nodes, and every task that the tracker had on it was pulled back, in the
/// order of the tracker's entries, and reported.
pub open spec fn left(
    nodes: Seq<Node>,
    tracker: &TaskTracker,
    queue: Seq<Task>,
    node_id: Id,
    nodes_after: Seq<Node>,
    tracker_after: Map<Id, Running>,
    queue_after: Seq<Task>,
    reports: Seq<Reassignment>,
) -> bool {
    let fleet = FleetView {
        nodes: nodes.remove(first_index(node_ids(nodes), node_id)),
        tracker: tracker@,
        queue: task_views(queue),
    };
    let pulled = tasks_assigned_to(tracker.task_node_map@, node_id);
    &&& (FleetView { nodes: nodes_after, tracker: tracker_after, queue: task_views(queue_after) })
        == requeue_all(fleet, pulled)
    &&& reported(reports, fleet, pulled)
}

/// A node as it rejoins the fleet: healthy, with nothing allocated.
pub open spec fn rejoined(node: Node) -> Node {
    Node {
        health: NodeHealth::Healthy,
        allocated_ram: 0,
        allocated_storage: 0,
        allocated_cpu: 0,
        allocated_bandwidth: 0,
        ..node
    }
}

/// Removing a node keeps the other ids distinct and the other ledgers
/// within capacity.
pub proof fn lemma_remove_keeps(nodes: Seq<Node>, others: Seq<Id>, at: int)
    requires
        0 <= at < nodes.len(),
    ensures
        node_ids(nodes.remove(at)) == node_ids(nodes).remove(at),
        distinct(node_ids(nodes)) ==> distinct(node_ids(nodes.remove(at))) && !occurs(
            node_ids(nodes.remove(at)),
            nodes[at].node_id@,
        ),
        disjoint(node_ids(nodes), others) ==> disjoint(node_ids(nodes.remove(at)), others),
        all_within_capacity(nodes) ==> all_within_capacity(nodes.remove(at)),
{
    let ids = node_ids(nodes);
    let fewer = nodes.remove(at);
    assert(node_ids(fewer) =~= ids.remove(at));
    if distinct(ids) {
        lemma_first_index_remove(ids, at, nodes[at].node_id@);
    }
    if disjoint(ids, others) {
        assert forall|i: int, j: int|
            0 <= i < fewer.len() && 0 <= j < others.len() implies #[trigger] node_ids(fewer)[i]
            != #[trigger] others[j] by {
            let a = if i < at { i } else { i + 1 };
            assert(node_ids(fewer)[i] == ids[a]);
        }
    }
    if all_within_capacity(nodes) {
        assert forall|i: int| 0 <= i < fewer.len() implies (#[trigger] fewer[i]).within_capacity() by {
            let a = if i < at { i } else { i + 1 };
            assert(nodes[a].within_capacity());
        }
    }
}

impl NodeController {
    /// Ids are unique within and across the two lists, and every live
    /// node's allocation is within its capacity.
    pub open spec fn well_formed(&self) -> bool {
        &&& distinct(node_ids(self.nodes@))
        &&& distinct(node_ids(self.failed_nodes@))
        &&& disjoint(node_ids(self.nodes@), node_ids(self.failed_nodes@))
        &&& all_within_capacity(self.nodes@)
    }

    /// Whether a live node has this id.
    pub open spec fn is_live(&self, node_id: Id) -> bool {
        occurs(node_ids(self.nodes@), node_id)
    }

    /// Whether a failed node has this id.
    pub open spec fn is_failed(&self, node_id: Id) -> bool {
        occurs(node_ids(self.failed_nodes@), node_id)
    }

    /// A controller without nodes.
    pub fn new() -> (controller: NodeController)
        ensures
            controller.nodes@.len() == 0,
            controller.failed_nodes@.len() == 0,
            controller.well_formed(),
    {
        NodeController { nodes: Vec::new(), failed_nodes: Vec::new() }
    }

    /// Adds a node to the live nodes. An id that a live or failed node
    /// already has is rejected, and then nothing changes.
    pub fn register_node(&mut self, node: Node) -> (r: Result<(), RegistryError>)
        ensures
            old(self).is_live(node.node_id@) || old(self).is_failed(node.node_id@) ==> r == Err::<
                (),
                RegistryError,
            >(RegistryError::DuplicateNode) && *final(self) == *old(self),
            !old(self).is_live(node.node_id@) && !old(self).is_failed(node.node_id@) ==> r is Ok
                && final(self).nodes@ == old(self).nodes@.push(node) && final(self).failed_nodes@
                == old(self).failed_nodes@,
            old(self).well_formed() && node.within_capacity() ==> final(self).well_formed(),
    {
        let live_at = position_of_node(&self.nodes, &node.node_id);
        let failed_at = position_of_node(&self.failed_nodes, &node.node_id);
        if live_at < self.nodes.len() || failed_at < self.failed_nodes.len() {
            return Err(RegistryError::DuplicateNode);
        }
        proof {
            let ids = node_ids(self.nodes@);
            lemma_first_index_push(ids, node.node_id@, node.node_id@);
            lemma_absent(node_ids(self.failed_nodes@), node.node_id@);
            assert(node_ids(self.nodes@.push(node)) =~= ids.push(node.node_id@));
        }
        self.nodes.push(node);
        Ok(())
    }

    /// Adds a node to the fleet: the same as `register_node`.
    pub fn add_node(&mut self, node: Node) -> (r: Result<(), RegistryError>)
        ensures
            old(self).is_live(node.node_id@) || old(self).is_failed(node.node_id@) ==> r == Err::<
                (),
                RegistryError,
            >(RegistryError::DuplicateNode) && *final(self) == *old(self),
            !old(self).is_live(node.node_id@) && !old(self).is_failed(node.node_id@) ==> r is Ok
                && final(self).nodes@ == old(self).nodes@.push(node) && final(self).failed_nodes@
                == old(self).failed_nodes@,
            old(self).well_formed() && node.within_capacity() ==> final(self).well_formed(),
    {
        self.register_node(node)
    }

    /// Whether the node is live.
    pub fn is_node_available(&self, node_id: &str) -> (live: bool)
        ensures
            live == self.is_live(node_id@),
    {
        let id: String = node_id.to_owned();
        position_of_node(&self.nodes, &id) < self.nodes.len()
    }

    /// The live nodes with their ledgers as they are now.
    pub fn get_available_nodes(&self) -> (nodes: &Vec<Node>)
        ensures
            nodes@ == self.nodes@,
    {
        &self.nodes
    }

    /// Moves a live node to the failed nodes and marks it failed. Returns
    /// whether the node was live; where it was not, nothing changes.
    pub fn mark_node_as_failed(&mut self, node_id: &str) -> (moved: bool)
        ensures
            moved == old(self).is_live(node_id@),
            !moved ==> *final(self) == *old(self),
            moved ==> ({
                let at = first_index(node_ids(old(self).nodes@), node_id@);
                &&& final(self).nodes@ == old(self).nodes@.remove(at)
                &&& final(self).failed_nodes@ == old(self).failed_nodes@.push(
                    Node { health: NodeHealth::Failed, ..old(self).nodes@[at] },
                )
            }),
            old(self).well_formed() ==> final(self).well_formed(),
            old(self).well_formed() ==> !final(self).is_live(node_id@),
    {
        let id: String = node_id.to_owned();
        let at = position_of_node(&self.nodes, &id);
        if at >= self.nodes.len() {
            return false;
        }
        let ghost live_ids = node_ids(self.nodes@);
        let ghost failed_ids = node_ids(self.failed_nodes@);
        proof {
            lemma_first_index(live_ids, node_id@);
        }
        let mut node = self.nodes.remove(at);
        node.health = NodeHealth::Failed;
        proof {
            assert(node_ids(self.nodes@) =~= live_ids.remove(at as int));
            assert(node_ids(self.failed_nodes@.push(node)) =~= failed_ids.push(node_id@));
            if old(self).well_formed() {
                lemma_first_index_remove(live_ids, at as int, node_id@);
                lemma_absent(failed_ids, node_id@);
                assert forall|j: int| 0 <= j < failed_ids.len() implies #[trigger] failed_ids[j]
                    != node_id@ by {
                    assert(live_ids[at as int] != failed_ids[j]);
                }
                lemma_first_index_push(failed_ids, node_id@, node_id@);
                let new_live = live_ids.remove(at as int);
                let new_failed = failed_ids.push(node_id@);
                assert forall|i: int, j: int|
                    0 <= i < new_live.len() && 0 <= j < new_failed.len() implies #[trigger] new_live[i]
                    != #[trigger] new_failed[j] by {
                    let a = if i < at { i } else { i + 1 };
                    assert(new_live[i] == live_ids[a]);
                    if j < failed_ids.len() {
                        assert(live_ids[a] != failed_ids[j]);
                    } else {
                        if a < at {
                            assert(live_ids[a] != live_ids[at as int]);
                        } else {
                            assert(live_ids[at as int] != live_ids[a]);
                        }
                    }
                }
                assert forall|i: int| 0 <= i < self.nodes@.len() implies (
                #[trigger] self.nodes@[i]).within_capacity() by {
                    let a = if i < at { i } else { i + 1 };
                    assert(old(self).nodes@[a].within_capacity());
                }
            }
        }
        self.failed_nodes.push(node);
        true
    }
    /// Pulls one running task back from a node that left and looks for a
    /// new node for it among the live nodes. Returns the node that took it.
    fn reassign_one(
        &mut self,
        task_id: &String,
        task_tracker: &mut TaskTracker,
        load_balancer: &mut LoadBalancer,
        task_queue: &mut TaskQueue,
    ) -> (node_id: Option<String>)
        requires
            old(task_tracker).well_formed(),
        ensures
            final(task_tracker).well_formed(),
            old(task_tracker).records_match() ==> final(task_tracker).records_match(),
            (FleetView {
                nodes: final(self).nodes@,
                tracker: final(task_tracker)@,
                queue: task_views(final(task_queue)@),
            }) == requeue_one(
                FleetView {
                    nodes: old(self).nodes@,
                    tracker: old(task_tracker)@,
                    queue: task_views(old(task_queue)@),
                },
                task_id@,
            ),
            id_view(node_id) == requeue_choice(
                FleetView {
                    nodes: old(self).nodes@,
                    tracker: old(task_tracker)@,
                    queue: task_views(old(task_queue)@),
                },
                task_id@,
            ),
            final(self).failed_nodes@ == old(self).failed_nodes@,
            node_ids(final(self).nodes@) == node_ids(old(self).nodes@),
            all_within_capacity(old(self).nodes@) ==> all_within_capacity(final(self).nodes@),
    {
        match task_tracker.take_task(task_id.as_str()) {
            Some(record) => {
                let mut task = record;
                task.assigned_node_id = None;
                let ghost waiting = task_queue@;
                match load_balancer.assign_task_to_node(&mut task, &mut self.nodes) {
                    Some(node_id) => {
                        task_tracker.assign_task_to_node(task, node_id.as_str());
                        Some(node_id)
                    },
                    None => {
                        task_queue.enqueue(task);
                        assert(task_views(task_queue@) =~= task_views(waiting).push(task@));
                        None
                    },
                }
            },
            None => {
                assert(task_tracker@ =~= old(task_tracker)@);
                None
            },
        }
    }

    /// Pulls back every task that the tracker has on `node_id`, a node that
    /// has left the live nodes, in the order of the tracker's entries, and
    /// looks for a new node for each among the live nodes. Nothing is
    /// credited back to the node that left. A task that a node admits runs on there; a task
    /// that no node admits goes into the backlog, unassigned. No task is
    /// dropped, and no retry is counted. Reports, for each task, the node
    /// that took it.
    pub fn reassign_tasks_from_node(
        &mut self,
        node_id: &str,
        task_tracker: &mut TaskTracker,
        load_balancer: &mut LoadBalancer,
        task_queue: &mut TaskQueue,
    ) -> (outcomes: Vec<Reassignment>)
        requires
            old(task_tracker).well_formed(),
        ensures
            final(task_tracker).well_formed(),
            old(task_tracker).records_match() ==> final(task_tracker).records_match(),
            (FleetView {
                nodes: final(self).nodes@,
                tracker: final(task_tracker)@,
                queue: task_views(final(task_queue)@),
            }) == requeue_all(
                FleetView {
                    nodes: old(self).nodes@,
                    tracker: old(task_tracker)@,
                    queue: task_views(old(task_queue)@),
                },
                tasks_assigned_to(old(task_tracker).task_node_map@, node_id@),
            ),
            reported(
                outcomes@,
                FleetView {
                    nodes: old(self).nodes@,
                    tracker: old(task_tracker)@,
                    queue: task_views(old(task_queue)@),
                },
                tasks_assigned_to(old(task_tracker).task_node_map@, node_id@),
            ),
            final(self).failed_nodes@ == old(self).failed_nodes@,
            node_ids(final(self).nodes@) == node_ids(old(self).nodes@),
            all_within_capacity(old(self).nodes@) ==> all_within_capacity(final(self).nodes@),
    {
        let affected = task_tracker.tasks_on_node(node_id);
        let ghost ids = string_views(affected@);
        let ghost fleet0 = FleetView {
            nodes: self.nodes@,
            tracker: task_tracker@,
            queue: task_views(task_queue@),
        };
        let mut outcomes: Vec<Reassignment> = Vec::new();
        let mut i: usize = 0;
        proof {
            assert(ids.take(0) =~= Seq::<Id>::empty());
        }
        while i < affected.len()
            invariant
                0 <= i <= affected.len(),
                ids == string_views(affected@),
                task_tracker.well_formed(),
                old(task_tracker).records_match() ==> task_tracker.records_match(),
                (FleetView {
                    nodes: self.nodes@,
                    tracker: task_tracker@,
                    queue: task_views(task_queue@),
                }) == requeue_all(fleet0, ids.take(i as int)),
                outcomes@.len() == i,
                forall|k: int|
                    0 <= k < i ==> (#[trigger] outcomes@[k]).task_id@ == ids[k] && id_view(
                        outcomes@[k].node_id,
                    ) == requeue_choice_at(fleet0, ids, k),
                self.failed_nodes@ == old(self).failed_nodes@,
                node_ids(self.nodes@) == node_ids(old(self).nodes@),
                all_within_capacity(old(self).nodes@) ==> all_within_capacity(self.nodes@),
            decreases affected.len() - i,
        {
            proof {
                let longer = ids.take(i as int + 1);
                assert(longer.drop_last() =~= ids.take(i as int));
                assert(longer.last() == affected@[i as int]@);
            }
            let taken_by = self.reassign_one(&affected[i], task_tracker, load_balancer, task_queue);
            outcomes.push(Reassignment { task_id: affected[i].clone(), node_id: taken_by });
            i = i + 1;
        }
        proof {
            assert(ids.take(affected.len() as int) =~= ids);
        }
        outcomes
    }

    /// Takes a node out of the fleet and reassigns its work: every task
    /// that the tracker has on the node is pulled back and offered to the
    /// remaining live nodes. Reports what became of each task, or `None`
    /// for a node that was not live, for which nothing changes.
    pub fn remove_node(
        &mut self,
        node_id: &str,
        task_tracker: &mut TaskTracker,
        load_balancer: &mut LoadBalancer,
        task_queue: &mut TaskQueue,
    ) -> (outcomes: Option<Vec<Reassignment>>)
        requires
            old(task_tracker).well_formed(),
        ensures
            final(task_tracker).well_formed(),
            old(task_tracker).records_match() ==> final(task_tracker).records_match(),
            outcomes is Some == old(self).is_live(node_id@),
            outcomes is None ==> *final(self) == *old(self) && *final(task_tracker) == *old(
                task_tracker,
            ) && *final(task_queue) == *old(task_queue),
            outcomes matches Some(reports) ==> left(
                old(self).nodes@,
                old(task_tracker),
                old(task_queue)@,
                node_id@,
                final(self).nodes@,
                final(task_tracker)@,
                final(task_queue)@,
                reports@,
            ),
            final(self).failed_nodes@ == old(self).failed_nodes@,
            old(self).well_formed() ==> final(self).well_formed() && !final(self).is_live(node_id@),
            outcomes is Some && old(self).well_formed() && old(task_tracker).records_match()
                ==> pulled_back(
                old(task_tracker)@,
                node_id@,
                task_views(old(task_queue)@),
                FleetView {
                    nodes: final(self).nodes@,
                    tracker: final(task_tracker)@,
                    queue: task_views(final(task_queue)@),
                },
            ),
    {
        let id: String = node_id.to_owned();
        let at = position_of_node(&self.nodes, &id);
        if at >= self.nodes.len() {
            return None;
        }
        proof {
            lemma_first_index(node_ids(self.nodes@), node_id@);
            lemma_remove_keeps(self.nodes@, node_ids(self.failed_nodes@), at as int);
        }
        let _ = self.nodes.remove(at);
        proof {
            if old(self).well_formed() && task_tracker.records_match() {
                lemma_records_filed(task_tracker);
                lemma_node_removal(
                    self.nodes@,
                    task_tracker.task_node_map@,
                    task_views(task_queue@),
                    node_id@,
                );
            }
        }
        Some(self.reassign_tasks_from_node(node_id, task_tracker, load_balancer, task_queue))
    }

    /// Confirms a node as failed: moves it from the live to the failed
    /// nodes, then pulls back every task that the tracker has on it and
    /// offers each to the remaining live nodes. Reports what became of each
    /// task, or `None` for a node that was not live, for which nothing
    /// changes.
    pub fn handle_node_failure(
        &mut self,
        node_id: &str,
        task_tracker: &mut TaskTracker,
        load_balancer: &mut LoadBalancer,
        task_queue: &mut TaskQueue,
    ) -> (outcomes: Option<Vec<Reassignment>>)
        requires
            old(task_tracker).well_formed(),
        ensures
            final(task_tracker).well_formed(),
            old(task_tracker).records_match() ==> final(task_tracker).records_match(),
            outcomes is Some == old(self).is_live(node_id@),
            outcomes is None ==> *final(self) == *old(self) && *final(task_tracker) == *old(
                task_tracker,
            ) && *final(task_queue) == *old(task_queue),
            outcomes matches Some(reports) ==> {
                &&& left(
                    old(self).nodes@,
                    old(task_tracker),
                    old(task_queue)@,
                    node_id@,
                    final(self).nodes@,
                    final(task_tracker)@,
                    final(task_queue)@,
                    reports@,
                )
                &&& final(self).failed_nodes@ == old(self).failed_nodes@.push(
                    Node {
                        health: NodeHealth::Failed,
                        ..old(self).nodes@[first_index(node_ids(old(self).nodes@), node_id@)]
                    },
                )
            },
            old(self).well_formed() ==> final(self).well_formed() && !final(self).is_live(node_id@),
            outcomes is Some && old(self).well_formed() && old(task_tracker).records_match()
                ==> pulled_back(
                old(task_tracker)@,
                node_id@,
                task_views(old(task_queue)@),
                FleetView {
                    nodes: final(self).nodes@,
                    tracker: final(task_tracker)@,
                    queue: task_views(final(task_queue)@),
                },
            ),
    {
        if !self.mark_node_as_failed(node_id) {
            return None;
        }
        proof {
            if old(self).well_formed() && task_tracker.records_match() {
                lemma_records_filed(task_tracker);
                lemma_node_removal(
                    self.nodes@,
                    task_tracker.task_node_map@,
                    task_views(task_queue@),
                    node_id@,
                );
            }
        }
        Some(self.reassign_tasks_from_node(node_id, task_tracker, load_balancer, task_queue))
    }

    /// Takes in the outcome of one heartbeat window for a node. A signal
    /// makes the node healthy; a first missed window makes it suspected; a
    /// second missed window in a row confirms the failure, which is handled
    /// as `handle_node_failure` does. Returns the node's new state and what
    /// became of each task pulled back, or `None` for a node that is not
    /// live, for which nothing changes.
    pub fn record_heartbeat(
        &mut self,
        node_id: &str,
        healthy: bool,
        task_tracker: &mut TaskTracker,
        load_balancer: &mut LoadBalancer,
        task_queue: &mut TaskQueue,
    ) -> (state: Option<(NodeHealth, Vec<Reassignment>)>)
        requires
            old(task_tracker).well_formed(),
        ensures
            final(task_tracker).well_formed(),
            old(task_tracker).records_match() ==> final(task_tracker).records_match(),
            !old(self).is_live(node_id@) ==> state is None && *final(self) == *old(self)
                && *final(task_tracker) == *old(task_tracker) && *final(task_queue) == *old(
                task_queue,
            ),
            old(self).is_live(node_id@) ==> ({
                let at = first_index(node_ids(old(self).nodes@), node_id@);
                let next = old(self).nodes@[at].health.after_heartbeat(healthy);
                &&& state matches Some((health, reports))
                &&& health == next
                &&& next != NodeHealth::Failed ==> {
                    &&& reports@.len() == 0
                    &&& final(self).nodes@ == old(self).nodes@.update(
                        at,
                        Node { health: next, ..old(self).nodes@[at] },
                    )
                    &&& final(self).failed_nodes@ == old(self).failed_nodes@
                    &&& *final(task_tracker) == *old(task_tracker)
                    &&& *final(task_queue) == *old(task_queue)
                }
                &&& next == NodeHealth::Failed ==> {
                    &&& left(
                        old(self).nodes@,
                        old(task_tracker),
                        old(task_queue)@,
                        node_id@,
                        final(self).nodes@,
                        final(task_tracker)@,
                        final(task_queue)@,
                        reports@,
                    )
                    &&& final(self).failed_nodes@ == old(self).failed_nodes@.push(
                        Node { health: NodeHealth::Failed, ..old(self).nodes@[at] },
                    )
                }
            }),
            old(self).well_formed() ==> final(self).well_formed(),
            old(self).is_live(node_id@) && old(self).nodes@[first_index(
                node_ids(old(self).nodes@),
                node_id@,
            )].health.after_heartbeat(healthy) == NodeHealth::Failed && old(self).well_formed()
                && old(task_tracker).records_match() ==> pulled_back(
                old(task_tracker)@,
                node_id@,
                task_views(old(task_queue)@),
                FleetView {
                    nodes: final(self).nodes@,
                    tracker: final(task_tracker)@,
                    queue: task_views(final(task_queue)@),
                },
            ),
    {
        let id: String = node_id.to_owned();
        let at = position_of_node(&self.nodes, &id);
        if at >= self.nodes.len() {
            return None;
        }
        proof {
            lemma_first_index(node_ids(self.nodes@), node_id@);
        }
        let next = self.nodes[at].health.after_heartbeat(healthy);
        match next {
            NodeHealth::Failed => {
                match self.handle_node_failure(node_id, task_tracker, load_balancer, task_queue) {
                    Some(reports) => Some((next, reports)),
                    None => Some((next, Vec::new())),
                }
            },
            _ => {
                self.nodes[at].health = next;
                proof {
                    assert(node_ids(self.nodes@) =~= node_ids(old(self).nodes@));
                    if old(self).well_formed() {
                        assert forall|i: int| 0 <= i < self.nodes@.len() implies (
                        #[trigger] self.nodes@[i]).within_capacity() by {
                            assert(old(self).nodes@[i].within_capacity());
                        }
                    }
                }
                Some((next, Vec::new()))
            },
        }
    }

    /// Lets a failed node rejoin the fleet as a fresh node: it becomes live
    /// and healthy, with nothing allocated. An id that no failed node has is
    /// rejected, and then nothing changes.
    pub fn rejoin_node(&mut self, node_id: &str) -> (r: Result<(), RegistryError>)
        ensures
            !old(self).is_failed(node_id@) ==> r == Err::<(), RegistryError>(
                RegistryError::UnknownNode,
            ) && *final(self) == *old(self),
            old(self).is_failed(node_id@) ==> ({
                let at = first_index(node_ids(old(self).failed_nodes@), node_id@);
                &&& r is Ok
                &&& final(self).failed_nodes@ == old(self).failed_nodes@.remove(at)
                &&& final(self).nodes@ == old(self).nodes@.push(
                    rejoined(old(self).failed_nodes@[at]),
                )
            }),
            old(self).well_formed() ==> final(self).well_formed(),
    {
        let id: String = node_id.to_owned();
        let at = position_of_node(&self.failed_nodes, &id);
        if at >= self.failed_nodes.len() {
            return Err(RegistryError::UnknownNode);
        }
        let ghost live_ids = node_ids(self.nodes@);
        let ghost failed_ids = node_ids(self.failed_nodes@);
        proof {
            lemma_first_index(failed_ids, node_id@);
            lemma_remove_keeps(self.failed_nodes@, Seq::<Id>::empty(), at as int);
        }
        let mut node = self.failed_nodes.remove(at);
        node.health = NodeHealth::Healthy;
        node.allocated_ram = 0;
        node.allocated_storage = 0;
        node.allocated_cpu = 0;
        node.allocated_bandwidth = 0;
        proof {
            assert(node_ids(self.nodes@.push(node)) =~= live_ids.push(node_id@));
            if old(self).well_formed() {
                assert forall|i: int| 0 <= i < live_ids.len() implies #[trigger] live_ids[i]
                    != node_id@ by {
                    assert(live_ids[i] != failed_ids[at as int]);
                }
                lemma_absent(live_ids, node_id@);
                lemma_first_index_push(live_ids, node_id@, node_id@);
                let new_live = live_ids.push(node_id@);
                let new_failed = failed_ids.remove(at as int);
                assert forall|i: int, j: int|
                    0 <= i < new_live.len() && 0 <= j < new_failed.len() implies #[trigger] new_live[i]
                    != #[trigger] new_failed[j] by {
                    let b = if j < at { j } else { j + 1 };
                    assert(new_failed[j] == failed_ids[b]);
                    if i < live_ids.len() {
                        assert(live_ids[i] != failed_ids[b]);
                    } else {
                        if b < at {
                            assert(failed_ids[b] != failed_ids[at as int]);
                        } else {
                            assert(failed_ids[at as int] != failed_ids[b]);
                        }
                    }
                }
                assert forall|i: int| 0 <= i < self.nodes@.push(node).len() implies (
                #[trigger] self.nodes@.push(node)[i]).within_capacity() by {
                    if i < self.nodes@.len() {
                        assert(old(self).nodes@[i].within_capacity());
                    }
                }
            }
        }
        self.nodes.push(node);
        Ok(())
    }
}

} // verus!
