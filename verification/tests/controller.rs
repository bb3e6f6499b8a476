use fleet_scheduler::load_balancer::LoadBalancer;
use fleet_scheduler::node::{Node, NodeHealth};
use fleet_scheduler::node_controller::{NodeController, Reassignment, RegistryError};
use fleet_scheduler::task::Task;
use fleet_scheduler::task_queue::TaskQueue;
use fleet_scheduler::task_tracker::TaskTracker;

fn node(id: &str, ram: u64) -> Node {
    Node::new(id, ram, 0, 100, 100)
}

fn some(id: &str) -> Option<String> {
    Some(id.to_string())
}

fn live_ids(controller: &NodeController) -> Vec<String> {
    controller.get_available_nodes().iter().map(|n| n.node_id.clone()).collect()
}

fn failed_ids(controller: &NodeController) -> Vec<String> {
    controller.failed_nodes.iter().map(|n| n.node_id.clone()).collect()
}

fn queued(queue: &mut TaskQueue) -> Vec<Task> {
    let mut tasks = vec![];
    while let Some(task) = queue.dequeue() {
        tasks.push(task);
    }
    tasks
}

struct Fleet {
    controller: NodeController,
    tracker: TaskTracker,
    queue: TaskQueue,
    balancer: LoadBalancer,
}

/// Two nodes, T1 running on nodeA and T2 on nodeB; nothing waits.
fn fleet(ram_a: u64, ram_b: u64) -> Fleet {
    let mut controller = NodeController::new();
    controller.register_node(node("nodeA", ram_a)).unwrap();
    controller.register_node(node("nodeB", ram_b)).unwrap();
    let mut tracker = TaskTracker::new();
    let queue = TaskQueue::new();
    let mut t1 = Task::new("T1", 4, 50, 10, 10, vec![1]);
    t1.retries = 2;
    t1.deadline = 17;
    t1.assigned_node_id = some("nodeA");
    let mut t2 = Task::new("T2", 1, 30, 10, 10, vec![2]);
    t2.retries = 1;
    t2.assigned_node_id = some("nodeB");
    controller.nodes[0].allocate_resources(&t1);
    controller.nodes[1].allocate_resources(&t2);
    tracker.assign_task_to_node(t1, "nodeA");
    tracker.assign_task_to_node(t2, "nodeB");
    Fleet { controller, tracker, queue, balancer: LoadBalancer }
}

fn report(reports: &Vec<Reassignment>) -> Vec<(String, Option<String>)> {
    reports.iter().map(|r| (r.task_id.clone(), r.node_id.clone())).collect()
}

#[test]
fn a_new_controller_has_no_nodes() {
    let controller = NodeController::new();
    assert!(controller.get_available_nodes().is_empty());
    assert!(controller.failed_nodes.is_empty());
    assert!(!controller.is_node_available("n1"));
}

#[test]
fn registered_nodes_are_available() {
    let mut controller = NodeController::new();
    assert_eq!(controller.register_node(node("n1", 10)), Ok(()));
    assert_eq!(controller.add_node(node("n2", 20)), Ok(()));
    assert!(controller.is_node_available("n1"));
    assert!(controller.is_node_available("n2"));
    assert!(!controller.is_node_available("n3"));
    assert_eq!(live_ids(&controller), vec!["n1", "n2"]);
    assert_eq!(controller.get_available_nodes()[1].available_ram, 20);
}

#[test]
fn a_duplicate_id_is_rejected() {
    let mut controller = NodeController::new();
    controller.register_node(node("n1", 10)).unwrap();
    assert_eq!(controller.register_node(node("n1", 99)), Err(RegistryError::DuplicateNode));
    assert_eq!(controller.add_node(node("n1", 99)), Err(RegistryError::DuplicateNode));
    assert_eq!(live_ids(&controller), vec!["n1"]);
    assert_eq!(controller.get_available_nodes()[0].available_ram, 10);
}

#[test]
fn the_id_of_a_failed_node_is_rejected_too() {
    let mut controller = NodeController::new();
    controller.register_node(node("n1", 10)).unwrap();
    assert!(controller.mark_node_as_failed("n1"));
    assert_eq!(controller.register_node(node("n1", 99)), Err(RegistryError::DuplicateNode));
    assert!(live_ids(&controller).is_empty());
    assert_eq!(failed_ids(&controller), vec!["n1"]);
}

#[test]
fn marking_failed_moves_the_node() {
    let mut controller = NodeController::new();
    controller.register_node(node("n1", 10)).unwrap();
    controller.register_node(node("n2", 20)).unwrap();
    assert!(controller.mark_node_as_failed("n1"));
    assert!(!controller.is_node_available("n1"));
    assert!(controller.is_node_available("n2"));
    assert_eq!(failed_ids(&controller), vec!["n1"]);
    assert_eq!(controller.failed_nodes[0].health, NodeHealth::Failed);
    assert_eq!(controller.failed_nodes[0].available_ram, 10);
    assert!(!controller.mark_node_as_failed("n1"));
    assert!(!controller.mark_node_as_failed("n9"));
    assert_eq!(failed_ids(&controller), vec!["n1"]);
}

#[test]
fn removing_a_node_requeues_its_tasks() {
    let mut f = fleet(100, 60);
    let reports = f
        .controller
        .remove_node("nodeA", &mut f.tracker, &mut f.balancer, &mut f.queue)
        .unwrap();
    assert_eq!(report(&reports), vec![("T1".to_string(), None)]);
    assert!(!f.controller.is_node_available("nodeA"));
    assert!(f.controller.failed_nodes.is_empty());
    assert_eq!(f.tracker.get_assigned_node("T1"), None);
    assert_eq!(f.tracker.get_assigned_node("T2"), some("nodeB"));
    assert_eq!(f.tracker.task_node_map.len(), 1);
    assert_eq!(f.tracker.task_node_map[0].task.retries, 1);
    assert_eq!(f.controller.get_available_nodes()[0].allocated_ram, 30);
    let tasks = queued(&mut f.queue);
    assert_eq!(tasks.len(), 1);
    assert_eq!(tasks[0].task_id, "T1");
    assert_eq!(tasks[0].assigned_node_id, None);
    assert_eq!(tasks[0].retries, 2);
    assert_eq!(tasks[0].max_retries, 3);
    assert_eq!(tasks[0].priority, 4);
    assert_eq!(tasks[0].deadline, 17);
    assert_eq!(
        (tasks[0].required_ram, tasks[0].required_cpu, tasks[0].required_bandwidth),
        (50, 10, 10)
    );
    assert_eq!(tasks[0].data, vec![1]);
}

#[test]
fn a_requeued_task_goes_behind_the_waiting_tasks() {
    let mut f = fleet(100, 60);
    f.queue.enqueue(Task::new("W1", 1, 500, 1, 1, vec![]));
    f.queue.enqueue(Task::new("W2", 1, 1, 1, 1, vec![]));
    f.controller.remove_node("nodeA", &mut f.tracker, &mut f.balancer, &mut f.queue).unwrap();
    let ids: Vec<String> = queued(&mut f.queue).iter().map(|t| t.task_id.clone()).collect();
    assert_eq!(ids, vec!["W1", "W2", "T1"]);
    assert_eq!(f.tracker.get_assigned_node("W2"), None);
    assert_eq!(f.controller.get_available_nodes()[0].allocated_ram, 30);
}

#[test]
fn a_pulled_back_task_goes_to_a_node_with_room() {
    let mut f = fleet(100, 200);
    let reports = f
        .controller
        .remove_node("nodeA", &mut f.tracker, &mut f.balancer, &mut f.queue)
        .unwrap();
    assert_eq!(report(&reports), vec![("T1".to_string(), some("nodeB"))]);
    assert_eq!(f.tracker.get_assigned_node("T1"), some("nodeB"));
    assert_eq!(f.tracker.get_assigned_node("T2"), some("nodeB"));
    assert_eq!(live_ids(&f.controller), vec!["nodeB"]);
    assert_eq!(f.controller.get_available_nodes()[0].allocated_ram, 80);
    assert_eq!(f.controller.get_available_nodes()[0].allocated_cpu, 20);
    assert_eq!(f.queue.len(), 0);
    let record = f.tracker.take_task("T1").unwrap();
    assert_eq!(record.assigned_node_id, some("nodeB"));
    assert_eq!(record.retries, 2);
    assert_eq!(record.data, vec![1]);
}

#[test]
fn several_tasks_of_a_node_are_placed_while_room_lasts() {
    let mut f = fleet(1000, 100);
    for id in ["T3", "T4"] {
        let mut t = Task::new(id, 1, 40, 1, 1, vec![]);
        t.assigned_node_id = some("nodeA");
        f.controller.nodes[0].allocate_resources(&t);
        f.tracker.assign_task_to_node(t, "nodeA");
    }
    let reports = f
        .controller
        .remove_node("nodeA", &mut f.tracker, &mut f.balancer, &mut f.queue)
        .unwrap();
    assert_eq!(
        report(&reports),
        vec![
            ("T1".to_string(), some("nodeB")),
            ("T3".to_string(), None),
            ("T4".to_string(), None),
        ]
    );
    assert_eq!(f.controller.get_available_nodes()[0].allocated_ram, 80);
    assert_eq!(f.tracker.tasks_on_node("nodeB"), vec!["T2".to_string(), "T1".to_string()]);
    let ids: Vec<String> = queued(&mut f.queue).iter().map(|t| t.task_id.clone()).collect();
    assert_eq!(ids, vec!["T3", "T4"]);
}

#[test]
fn removing_an_unknown_node_changes_nothing() {
    let mut f = fleet(100, 60);
    assert!(f
        .controller
        .remove_node("nodeZ", &mut f.tracker, &mut f.balancer, &mut f.queue)
        .is_none());
    assert_eq!(live_ids(&f.controller), vec!["nodeA", "nodeB"]);
    assert_eq!(f.tracker.get_assigned_node("T1"), some("nodeA"));
    assert_eq!(f.tracker.get_assigned_node("T2"), some("nodeB"));
    assert_eq!(f.queue.len(), 0);
    assert_eq!(f.controller.get_available_nodes()[0].allocated_ram, 50);
}

#[test]
fn removing_an_idle_node_reports_nothing() {
    let mut f = fleet(100, 60);
    f.controller.register_node(node("nodeC", 10)).unwrap();
    let reports = f
        .controller
        .remove_node("nodeC", &mut f.tracker, &mut f.balancer, &mut f.queue)
        .unwrap();
    assert!(reports.is_empty());
    assert_eq!(f.tracker.task_node_map.len(), 2);
    assert_eq!(f.queue.len(), 0);
}

#[test]
fn a_failure_moves_the_node_and_requeues_its_tasks() {
    let mut f = fleet(100, 60);
    let reports = f
        .controller
        .handle_node_failure("nodeA", &mut f.tracker, &mut f.balancer, &mut f.queue)
        .unwrap();
    assert_eq!(report(&reports), vec![("T1".to_string(), None)]);
    assert_eq!(live_ids(&f.controller), vec!["nodeB"]);
    assert_eq!(failed_ids(&f.controller), vec!["nodeA"]);
    assert_eq!(f.controller.failed_nodes[0].health, NodeHealth::Failed);
    assert_eq!(f.tracker.get_assigned_node("T1"), None);
    assert_eq!(f.tracker.get_assigned_node("T2"), some("nodeB"));
    assert_eq!(f.queue.len(), 1);
    assert!(f
        .controller
        .handle_node_failure("nodeA", &mut f.tracker, &mut f.balancer, &mut f.queue)
        .is_none());
    assert_eq!(failed_ids(&f.controller), vec!["nodeA"]);
    assert_eq!(f.queue.len(), 1);
    assert_eq!(f.queue.dequeue().unwrap().retries, 2);
}

#[test]
fn work_is_never_reassigned_to_the_failed_node() {
    let mut f = fleet(1000, 60);
    f.controller.handle_node_failure("nodeA", &mut f.tracker, &mut f.balancer, &mut f.queue);
    assert_eq!(f.tracker.get_assigned_node("T1"), None);
    assert_eq!(f.controller.failed_nodes[0].allocated_ram, 50);
    assert_eq!(f.queue.len(), 1);
}

#[test]
fn reassignment_alone_leaves_the_registry_alone() {
    let mut f = fleet(100, 200);
    let reports = f.controller.reassign_tasks_from_node(
        "nodeB",
        &mut f.tracker,
        &mut f.balancer,
        &mut f.queue,
    );
    assert_eq!(report(&reports), vec![("T2".to_string(), some("nodeA"))]);
    assert_eq!(live_ids(&f.controller), vec!["nodeA", "nodeB"]);
    assert_eq!(f.tracker.get_assigned_node("T2"), some("nodeA"));
    assert_eq!(f.tracker.get_assigned_node("T1"), some("nodeA"));
    assert_eq!(f.controller.get_available_nodes()[0].allocated_ram, 80);
    assert_eq!(f.queue.len(), 0);
}

#[test]
fn one_missed_heartbeat_makes_a_node_suspected() {
    let mut f = fleet(100, 60);
    let state = f.controller.record_heartbeat("nodeA", false, &mut f.tracker, &mut f.balancer, &mut f.queue);
    assert_eq!(state.unwrap().0, NodeHealth::Suspected);
    assert!(f.controller.is_node_available("nodeA"));
    assert_eq!(f.controller.get_available_nodes()[0].health, NodeHealth::Suspected);
    assert_eq!(f.tracker.get_assigned_node("T1"), some("nodeA"));
    let state = f.controller.record_heartbeat("nodeA", true, &mut f.tracker, &mut f.balancer, &mut f.queue);
    let (health, reports) = state.unwrap();
    assert_eq!(health, NodeHealth::Healthy);
    assert!(reports.is_empty());
    assert_eq!(f.controller.get_available_nodes()[0].health, NodeHealth::Healthy);
    assert_eq!(f.controller.get_available_nodes()[0].allocated_ram, 50);
}

#[test]
fn two_missed_heartbeats_in_a_row_confirm_the_failure() {
    let mut f = fleet(100, 60);
    f.controller.record_heartbeat("nodeA", false, &mut f.tracker, &mut f.balancer, &mut f.queue);
    let state = f.controller.record_heartbeat("nodeA", false, &mut f.tracker, &mut f.balancer, &mut f.queue);
    let (health, reports) = state.unwrap();
    assert_eq!(health, NodeHealth::Failed);
    assert_eq!(report(&reports), vec![("T1".to_string(), None)]);
    assert!(!f.controller.is_node_available("nodeA"));
    assert_eq!(failed_ids(&f.controller), vec!["nodeA"]);
    assert_eq!(f.tracker.get_assigned_node("T1"), None);
    assert_eq!(f.queue.len(), 1);
    let state = f.controller.record_heartbeat("nodeA", false, &mut f.tracker, &mut f.balancer, &mut f.queue);
    assert!(state.is_none());
}

#[test]
fn a_signal_between_two_misses_keeps_the_node() {
    let mut f = fleet(100, 60);
    for healthy in [false, true, false, true, false] {
        f.controller.record_heartbeat("nodeB", healthy, &mut f.tracker, &mut f.balancer, &mut f.queue);
    }
    assert!(f.controller.is_node_available("nodeB"));
    assert_eq!(f.controller.get_available_nodes()[1].health, NodeHealth::Suspected);
}

#[test]
fn a_heartbeat_of_an_unknown_node_is_ignored() {
    let mut f = fleet(100, 60);
    let state = f.controller.record_heartbeat("nodeZ", false, &mut f.tracker, &mut f.balancer, &mut f.queue);
    assert!(state.is_none());
    assert_eq!(live_ids(&f.controller), vec!["nodeA", "nodeB"]);
}

#[test]
fn a_failed_node_rejoins_with_an_empty_ledger() {
    let mut f = fleet(100, 60);
    f.controller.nodes[0].allocated_storage = 0;
    f.controller.handle_node_failure("nodeA", &mut f.tracker, &mut f.balancer, &mut f.queue);
    assert_eq!(f.controller.rejoin_node("nodeA"), Ok(()));
    assert!(f.controller.failed_nodes.is_empty());
    assert_eq!(live_ids(&f.controller), vec!["nodeB", "nodeA"]);
    let back = &f.controller.get_available_nodes()[1];
    assert_eq!(back.health, NodeHealth::Healthy);
    assert_eq!((back.allocated_ram, back.allocated_cpu, back.allocated_bandwidth), (0, 0, 0));
    assert_eq!(back.available_ram, 100);
}

#[test]
fn only_a_failed_node_can_rejoin() {
    let mut f = fleet(100, 60);
    assert_eq!(f.controller.rejoin_node("nodeA"), Err(RegistryError::UnknownNode));
    assert_eq!(f.controller.rejoin_node("nodeZ"), Err(RegistryError::UnknownNode));
    assert_eq!(live_ids(&f.controller), vec!["nodeA", "nodeB"]);
    assert_eq!(f.controller.get_available_nodes()[0].allocated_ram, 50);
}
