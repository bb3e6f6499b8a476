use fleet_scheduler::task::Task;
use fleet_scheduler::task_tracker::TaskTracker;

fn task(id: &str) -> Task {
    Task::new(id, 1, 10, 1, 1, vec![])
}

#[test]
fn a_new_tracker_knows_no_task() {
    let tracker = TaskTracker::new();
    assert!(tracker.task_node_map.is_empty());
    assert_eq!(tracker.get_assigned_node("t1"), None);
    assert!(tracker.tasks_on_node("n1").is_empty());
}

#[test]
fn an_assignment_is_found_again() {
    let mut tracker = TaskTracker::new();
    tracker.assign_task_to_node(task("t1"), "n1");
    tracker.assign_task_to_node(task("t2"), "n2");
    assert_eq!(tracker.get_assigned_node("t1"), Some("n1".to_string()));
    assert_eq!(tracker.get_assigned_node("t2"), Some("n2".to_string()));
    assert_eq!(tracker.get_assigned_node("t3"), None);
    assert_eq!(tracker.get_assigned_node("n1"), None);
}

#[test]
fn a_task_has_one_node_at_a_time() {
    let mut tracker = TaskTracker::new();
    tracker.assign_task_to_node(task("t1"), "n1");
    let mut later = task("t1");
    later.retries = 2;
    tracker.assign_task_to_node(later, "n2");
    assert_eq!(tracker.get_assigned_node("t1"), Some("n2".to_string()));
    assert_eq!(tracker.task_node_map.len(), 1);
    assert_eq!(tracker.task_node_map[0].task.retries, 2);
    assert!(tracker.tasks_on_node("n1").is_empty());
    assert_eq!(tracker.tasks_on_node("n2"), vec!["t1".to_string()]);
}

#[test]
fn removing_forgets_one_task_only() {
    let mut tracker = TaskTracker::new();
    tracker.assign_task_to_node(task("t1"), "n1");
    tracker.assign_task_to_node(task("t2"), "n1");
    tracker.remove_task_assignment("t1");
    assert_eq!(tracker.get_assigned_node("t1"), None);
    assert_eq!(tracker.get_assigned_node("t2"), Some("n1".to_string()));
    tracker.remove_task_assignment("t1");
    tracker.remove_task_assignment("t9");
    assert_eq!(tracker.get_assigned_node("t2"), Some("n1".to_string()));
    assert_eq!(tracker.task_node_map.len(), 1);
}

#[test]
fn taking_a_task_hands_back_its_record() {
    let mut tracker = TaskTracker::new();
    let mut running = Task::new("t1", 7, 10, 20, 30, vec![4, 5]);
    running.retries = 1;
    running.deadline = 99;
    tracker.assign_task_to_node(running, "n1");
    tracker.assign_task_to_node(task("t2"), "n1");
    let record = tracker.take_task("t1").unwrap();
    assert_eq!(record.task_id, "t1");
    assert_eq!(record.priority, 7);
    assert_eq!(record.deadline, 99);
    assert_eq!(
        (record.required_ram, record.required_cpu, record.required_bandwidth),
        (10, 20, 30)
    );
    assert_eq!(record.data, vec![4, 5]);
    assert_eq!(record.retries, 1);
    assert_eq!(tracker.get_assigned_node("t1"), None);
    assert_eq!(tracker.get_assigned_node("t2"), Some("n1".to_string()));
    assert!(tracker.take_task("t1").is_none());
    assert!(tracker.take_task("t9").is_none());
    assert_eq!(tracker.task_node_map.len(), 1);
}

#[test]
fn tasks_on_a_node_come_in_recording_order() {
    let mut tracker = TaskTracker::new();
    tracker.assign_task_to_node(task("t3"), "n1");
    tracker.assign_task_to_node(task("t1"), "n2");
    tracker.assign_task_to_node(task("t2"), "n1");
    tracker.assign_task_to_node(task("t0"), "n1");
    assert_eq!(
        tracker.tasks_on_node("n1"),
        vec!["t3".to_string(), "t2".to_string(), "t0".to_string()]
    );
    assert_eq!(tracker.tasks_on_node("n2"), vec!["t1".to_string()]);
    assert!(tracker.tasks_on_node("n3").is_empty());
}
