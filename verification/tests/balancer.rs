use fleet_scheduler::load_balancer::LoadBalancer;
use fleet_scheduler::node::Node;
use fleet_scheduler::task::Task;
use fleet_scheduler::task_queue::TaskQueue;
use fleet_scheduler::task_tracker::TaskTracker;

fn node(id: &str, ram: u64, cpu: u64, bandwidth: u64) -> Node {
    Node::new(id, ram, 0, cpu, bandwidth)
}

fn ids(nodes: &Vec<Node>) -> Vec<String> {
    nodes.iter().map(|n| n.node_id.clone()).collect()
}

fn some(id: &str) -> Option<String> {
    Some(id.to_string())
}

#[test]
fn first_fit_takes_the_first_node_with_room() {
    let mut balancer = LoadBalancer;
    let mut nodes = vec![node("n1", 10, 10, 10), node("n2", 100, 100, 100), node("n3", 100, 100, 100)];
    let mut task = Task::new("t", 1, 50, 5, 5, vec![]);
    assert_eq!(balancer.assign_task_to_node(&mut task, &mut nodes), some("n2"));
    assert_eq!(task.assigned_node_id, some("n2"));
    assert_eq!(ids(&nodes), vec!["n1", "n2", "n3"]);
    assert_eq!(nodes[0].allocated_ram, 0);
    assert_eq!(nodes[1].allocated_ram, 50);
    assert_eq!(nodes[1].allocated_cpu, 5);
    assert_eq!(nodes[1].allocated_bandwidth, 5);
    assert_eq!(nodes[2].allocated_ram, 0);
}

#[test]
fn first_fit_fills_a_node_before_moving_on() {
    let mut balancer = LoadBalancer;
    let mut nodes = vec![node("n1", 100, 100, 100), node("n2", 100, 100, 100)];
    let mut a = Task::new("a", 1, 60, 1, 1, vec![]);
    let mut b = Task::new("b", 1, 40, 1, 1, vec![]);
    let mut c = Task::new("c", 1, 1, 1, 1, vec![]);
    assert_eq!(balancer.assign_task_to_node(&mut a, &mut nodes), some("n1"));
    assert_eq!(balancer.assign_task_to_node(&mut b, &mut nodes), some("n1"));
    assert_eq!(balancer.assign_task_to_node(&mut c, &mut nodes), some("n2"));
    assert_eq!(nodes[0].allocated_ram, 100);
    assert_eq!(nodes[1].allocated_ram, 1);
}

#[test]
fn first_fit_without_room_changes_nothing() {
    let mut balancer = LoadBalancer;
    let mut nodes = vec![node("n1", 10, 10, 10), node("n2", 20, 20, 20)];
    let mut task = Task::new("t", 1, 21, 1, 1, vec![]);
    assert_eq!(balancer.assign_task_to_node(&mut task, &mut nodes), None);
    assert_eq!(task.assigned_node_id, None);
    assert_eq!(nodes.len(), 2);
    assert_eq!(nodes[0].allocated_ram + nodes[1].allocated_ram, 0);
    let mut none: Vec<Node> = vec![];
    assert_eq!(balancer.assign_task_to_node(&mut task, &mut none), None);
}

#[test]
fn best_fit_places_a_ram_task_by_free_ram() {
    let mut balancer = LoadBalancer;
    let mut nodes = vec![node("N1", 100, 10, 100), node("N2", 10, 100, 100)];
    let task = Task::new("t", 1, 50, 5, 0, vec![]);
    assert!(!task.is_cpu_bound());
    assert_eq!(balancer.assign_task_to_best_node(&task, &mut nodes), some("N1"));
    assert_eq!(ids(&nodes), vec!["N2", "N1"]);
    assert_eq!(nodes[1].allocated_ram, 50);
    assert_eq!(nodes[1].allocated_cpu, 5);
    assert_eq!(nodes[0].allocated_ram, 0);
}

#[test]
fn best_fit_places_a_cpu_task_by_free_cpu() {
    let mut balancer = LoadBalancer;
    let mut nodes = vec![node("N1", 100, 10, 100), node("N2", 10, 100, 100)];
    let task = Task::new("t", 1, 0, 50, 0, vec![]);
    assert!(task.is_cpu_bound());
    assert_eq!(balancer.assign_task_to_best_node(&task, &mut nodes), some("N2"));
    assert_eq!(ids(&nodes), vec!["N1", "N2"]);
    assert_eq!(nodes[1].allocated_cpu, 50);
    assert_eq!(nodes[0].allocated_cpu, 0);
}

#[test]
fn best_fit_prefers_the_tightest_node() {
    let mut balancer = LoadBalancer;
    let mut nodes = vec![node("big", 1000, 100, 100), node("snug", 60, 100, 100), node("small", 40, 100, 100)];
    let task = Task::new("t", 1, 50, 1, 1, vec![]);
    assert_eq!(balancer.assign_task_to_best_node(&task, &mut nodes), some("snug"));
    assert_eq!(ids(&nodes), vec!["small", "snug", "big"]);
    assert_eq!(nodes[1].allocated_ram, 50);
}

#[test]
fn best_fit_ranks_by_what_is_free_not_by_capacity() {
    let mut balancer = LoadBalancer;
    let mut busy = node("busy", 1000, 100, 100);
    busy.allocated_ram = 940;
    let mut nodes = vec![node("idle", 100, 100, 100), busy];
    let task = Task::new("t", 1, 50, 1, 1, vec![]);
    assert_eq!(balancer.assign_task_to_best_node(&task, &mut nodes), some("busy"));
    assert_eq!(nodes[0].node_id, "busy");
    assert_eq!(nodes[0].allocated_ram, 990);
}

#[test]
fn best_fit_breaks_ties_by_the_given_order() {
    let mut balancer = LoadBalancer;
    let mut nodes = vec![node("a", 100, 100, 100), node("b", 100, 100, 100), node("c", 100, 100, 100)];
    let task = Task::new("t", 1, 100, 1, 1, vec![]);
    assert_eq!(balancer.assign_task_to_best_node(&task, &mut nodes), some("a"));
    assert_eq!(balancer.assign_task_to_best_node(&task, &mut nodes), some("b"));
    assert_eq!(balancer.assign_task_to_best_node(&task, &mut nodes), some("c"));
    assert_eq!(balancer.assign_task_to_best_node(&task, &mut nodes), None);
}

#[test]
fn best_fit_without_room_debits_nothing() {
    let mut balancer = LoadBalancer;
    let mut nodes = vec![node("n1", 30, 10, 10), node("n2", 20, 20, 20)];
    let task = Task::new("t", 1, 10, 1, 30, vec![]);
    assert_eq!(balancer.assign_task_to_best_node(&task, &mut nodes), None);
    assert_eq!(nodes.len(), 2);
    assert_eq!(ids(&nodes), vec!["n2", "n1"]);
    for n in nodes.iter() {
        assert_eq!((n.allocated_ram, n.allocated_cpu, n.allocated_bandwidth), (0, 0, 0));
    }
}

#[test]
fn priority_order_assigns_the_highest_priority_first() {
    let mut balancer = LoadBalancer;
    let mut nodes = vec![node("n1", 100, 100, 100)];
    let mut tasks = vec![
        Task::new("prio5", 5, 40, 1, 1, vec![]),
        Task::new("prio10", 10, 40, 1, 1, vec![]),
        Task::new("prio1", 1, 40, 1, 1, vec![]),
    ];
    let chosen = balancer.assign_tasks_with_priority(&mut tasks, &mut nodes);
    let order: Vec<u8> = tasks.iter().map(|t| t.priority).collect();
    assert_eq!(order, vec![10, 5, 1]);
    assert_eq!(chosen, vec![some("n1"), some("n1"), None]);
    assert_eq!(tasks[0].assigned_node_id, some("n1"));
    assert_eq!(tasks[1].assigned_node_id, some("n1"));
    assert_eq!(tasks[2].assigned_node_id, None);
    assert_eq!(nodes[0].allocated_ram, 80);
}

#[test]
fn priority_order_admits_one_at_a_time() {
    let mut balancer = LoadBalancer;
    let mut nodes = vec![node("n1", 50, 100, 100)];
    let mut tasks = vec![
        Task::new("prio5", 5, 50, 1, 1, vec![]),
        Task::new("prio10", 10, 50, 1, 1, vec![]),
        Task::new("prio1", 1, 50, 1, 1, vec![]),
    ];
    let chosen = balancer.assign_tasks_with_priority(&mut tasks, &mut nodes);
    assert_eq!(tasks[0].task_id, "prio10");
    assert_eq!(chosen, vec![some("n1"), None, None]);
    assert_eq!(tasks.len(), 3);
}

#[test]
fn equal_priorities_keep_their_order() {
    let mut balancer = LoadBalancer;
    let mut nodes: Vec<Node> = vec![];
    let mut tasks = vec![
        Task::new("a", 3, 1, 1, 1, vec![]),
        Task::new("b", 7, 1, 1, 1, vec![]),
        Task::new("c", 3, 1, 1, 1, vec![]),
        Task::new("d", 7, 1, 1, 1, vec![]),
    ];
    let chosen = balancer.assign_tasks_with_priority(&mut tasks, &mut nodes);
    let order: Vec<String> = tasks.iter().map(|t| t.task_id.clone()).collect();
    assert_eq!(order, vec!["b", "d", "a", "c"]);
    assert_eq!(chosen, vec![None, None, None, None]);
}

#[test]
fn deadline_order_assigns_the_soonest_deadline_first() {
    let mut balancer = LoadBalancer;
    let mut nodes = vec![node("n1", 100, 100, 100)];
    let mut tasks = vec![
        Task::new("d300", 1, 40, 1, 1, vec![]),
        Task::new("d100", 1, 40, 1, 1, vec![]),
        Task::new("d200", 1, 40, 1, 1, vec![]),
    ];
    tasks[0].deadline = 300;
    tasks[1].deadline = 100;
    tasks[2].deadline = 200;
    let chosen = balancer.assign_tasks_by_deadline(&mut tasks, &mut nodes);
    let order: Vec<u64> = tasks.iter().map(|t| t.deadline).collect();
    assert_eq!(order, vec![100, 200, 300]);
    assert_eq!(chosen, vec![some("n1"), some("n1"), None]);
    assert_eq!(tasks[2].task_id, "d300");
    assert_eq!(tasks[2].assigned_node_id, None);
}

#[test]
fn weighted_assignment_prefers_heavier_nodes_among_equals() {
    let mut balancer = LoadBalancer;
    let mut light = node("light", 100, 100, 100);
    light.weight = 1;
    let mut heavy = node("heavy", 100, 100, 100);
    heavy.weight = 9;
    let mut middle = node("middle", 100, 100, 100);
    middle.weight = 5;
    let mut nodes = vec![light, heavy, middle];
    let mut tasks = vec![Task::new("a", 1, 10, 1, 1, vec![])];
    let chosen = balancer.assign_tasks_based_on_weight(&mut tasks, &mut nodes);
    assert_eq!(chosen, vec![some("heavy")]);
    assert_eq!(ids(&nodes), vec!["heavy", "middle", "light"]);
    assert_eq!(tasks[0].assigned_node_id, some("heavy"));
}

#[test]
fn weighted_assignment_still_goes_by_best_fit() {
    let mut balancer = LoadBalancer;
    let mut heavy = node("heavy", 1000, 100, 100);
    heavy.weight = 9;
    let mut light = node("light", 50, 100, 100);
    light.weight = 1;
    let mut nodes = vec![light, heavy];
    let mut tasks = vec![Task::new("a", 1, 10, 1, 1, vec![])];
    let chosen = balancer.assign_tasks_based_on_weight(&mut tasks, &mut nodes);
    assert_eq!(chosen, vec![some("light")]);
}

fn load_key(node: &Node) -> i128 {
    let cpu = node.allocated_cpu as f64 / node.available_cpu as f64;
    let ram = node.allocated_ram as f64 / node.available_ram as f64;
    let bandwidth = node.allocated_bandwidth as f64 / node.available_bandwidth as f64;
    ((cpu + ram + bandwidth) / 3.0 * 100.0).to_bits() as i128
}

#[test]
fn least_loaded_assignment_prefers_idle_nodes_among_equals() {
    let mut balancer = LoadBalancer;
    let mut loaded = node("loaded", 200, 100, 100);
    loaded.allocated_ram = 100;
    loaded.allocated_bandwidth = 90;
    let idle = node("idle", 100, 100, 100);
    let mut nodes = vec![loaded, idle];
    let loads: Vec<i128> = nodes.iter().map(load_key).collect();
    let mut tasks = vec![Task::new("a", 1, 10, 1, 1, vec![])];
    let chosen = balancer.assign_tasks_to_least_loaded_node(&mut tasks, &mut nodes, loads);
    assert_eq!(chosen, vec![some("idle")]);
    assert_eq!(nodes[0].node_id, "idle");
    assert_eq!(nodes[0].allocated_ram, 10);
}

#[test]
fn least_loaded_assignment_tells_close_loads_apart() {
    let mut balancer = LoadBalancer;
    let mut half_cpu = node("half_cpu", 100, 100, 100);
    half_cpu.allocated_cpu = 50;
    let mut a_bit_less = node("a_bit_less", 100, 100, 100);
    a_bit_less.allocated_cpu = 48;
    a_bit_less.allocated_ram = 1;
    let mut nodes = vec![half_cpu, a_bit_less];
    let loads: Vec<i128> = nodes.iter().map(load_key).collect();
    let mut tasks = vec![Task::new("a", 1, 10, 1, 1, vec![])];
    balancer.assign_tasks_to_least_loaded_node(&mut tasks, &mut nodes, loads);
    assert_eq!(ids(&nodes), vec!["a_bit_less", "half_cpu"]);
}

#[test]
fn least_loaded_assignment_goes_by_the_loads_given() {
    let mut balancer = LoadBalancer;
    let mut nodes = vec![node("a", 100, 100, 100), node("b", 100, 100, 100), node("c", 100, 100, 100)];
    let mut tasks = vec![Task::new("t", 1, 10, 1, 1, vec![]), Task::new("u", 1, 10, 1, 1, vec![])];
    let chosen = balancer.assign_tasks_to_least_loaded_node(&mut tasks, &mut nodes, vec![30, 10, 20]);
    assert_eq!(chosen, vec![some("b"), some("b")]);
    assert_eq!(tasks[1].assigned_node_id, some("b"));
}

#[test]
fn a_batch_never_overcommits_a_node() {
    let mut balancer = LoadBalancer;
    let mut nodes = vec![node("n1", 100, 100, 100), node("n2", 100, 100, 100)];
    let tasks: Vec<Task> = (0..5).map(|i| Task::new(&format!("t{}", i), 1, 60, 1, 1, vec![])).collect();
    let chosen = balancer.assign_tasks_in_parallel(tasks, &mut nodes);
    assert_eq!(chosen.len(), 5);
    assert_eq!(chosen.iter().filter(|c| c.is_some()).count(), 2);
    assert_eq!(chosen[0], some("n1"));
    assert_eq!(chosen[1], some("n2"));
    assert_eq!(chosen[2], None);
    for n in nodes.iter() {
        assert_eq!(n.allocated_ram, 60);
        assert!(n.allocated_ram <= n.available_ram);
    }
}

#[test]
fn a_batch_of_nothing_assigns_nothing() {
    let mut balancer = LoadBalancer;
    let mut nodes = vec![node("n1", 100, 100, 100)];
    assert!(balancer.assign_tasks_in_parallel(vec![], &mut nodes).is_empty());
    let mut tasks: Vec<Task> = vec![];
    assert!(balancer.assign_tasks_with_priority(&mut tasks, &mut nodes).is_empty());
    assert!(balancer.assign_tasks_by_deadline(&mut tasks, &mut nodes).is_empty());
    assert_eq!(nodes[0].allocated_ram, 0);
}

#[test]
fn releasing_a_task_credits_its_node_once() {
    let mut balancer = LoadBalancer;
    let mut nodes = vec![node("n1", 100, 100, 100), node("n2", 100, 100, 100)];
    let mut first = Task::new("a", 1, 50, 10, 10, vec![]);
    let mut second = Task::new("b", 1, 50, 10, 10, vec![]);
    assert_eq!(balancer.assign_task_to_node(&mut first, &mut nodes), some("n1"));
    assert_eq!(balancer.assign_task_to_node(&mut second, &mut nodes), some("n1"));
    assert_eq!(nodes[0].allocated_ram, 100);
    balancer.release_task_resources(&mut first, &mut nodes);
    assert_eq!(first.assigned_node_id, None);
    assert_eq!(nodes[0].allocated_ram, 50);
    assert_eq!(nodes[0].allocated_cpu, 10);
    balancer.release_task_resources(&mut first, &mut nodes);
    assert_eq!(nodes[0].allocated_ram, 50);
    assert_eq!(nodes[0].allocated_cpu, 10);
    assert_eq!(nodes[1].allocated_ram, 0);
    assert_eq!(second.assigned_node_id, some("n1"));
}

#[test]
fn releasing_on_an_absent_node_changes_nothing() {
    let mut balancer = LoadBalancer;
    let mut nodes = vec![node("n1", 100, 100, 100)];
    nodes[0].allocated_ram = 70;
    let mut task = Task::new("a", 1, 50, 10, 10, vec![]);
    task.assigned_node_id = some("gone");
    balancer.release_task_resources(&mut task, &mut nodes);
    assert_eq!(task.assigned_node_id, None);
    assert_eq!(nodes[0].allocated_ram, 70);
}

#[test]
fn a_settled_batch_is_filed_in_tracker_and_backlog() {
    let mut balancer = LoadBalancer;
    let mut nodes = vec![node("n1", 100, 100, 100)];
    let mut tasks = vec![
        Task::new("a", 1, 60, 1, 1, vec![1]),
        Task::new("b", 9, 60, 1, 1, vec![2]),
        Task::new("c", 5, 30, 1, 1, vec![3]),
    ];
    let mut queue = TaskQueue::new();
    queue.enqueue(Task::new("w", 1, 1, 1, 1, vec![]));
    let mut tracker = TaskTracker::new();
    let chosen = balancer.assign_tasks_with_priority(&mut tasks, &mut nodes);
    assert_eq!(chosen, vec![some("n1"), some("n1"), None]);
    balancer.record_assignments(tasks, &mut queue, &mut tracker);
    assert_eq!(tracker.get_assigned_node("b"), some("n1"));
    assert_eq!(tracker.get_assigned_node("c"), some("n1"));
    assert_eq!(tracker.get_assigned_node("a"), None);
    assert_eq!(tracker.task_node_map.len(), 2);
    assert_eq!(tracker.task_node_map[0].task.data, vec![2]);
    assert_eq!(tracker.task_node_map[1].task.assigned_node_id, some("n1"));
    assert_eq!(queue.len(), 2);
    assert_eq!(queue.dequeue().unwrap().task_id, "w");
    let waiting = queue.dequeue().unwrap();
    assert_eq!(waiting.task_id, "a");
    assert_eq!(waiting.assigned_node_id, None);
    assert_eq!(waiting.data, vec![1]);
}

#[test]
fn filing_nothing_changes_nothing() {
    let mut balancer = LoadBalancer;
    let mut queue = TaskQueue::new();
    let mut tracker = TaskTracker::new();
    balancer.record_assignments(vec![], &mut queue, &mut tracker);
    assert_eq!(queue.len(), 0);
    assert!(tracker.task_node_map.is_empty());
}
