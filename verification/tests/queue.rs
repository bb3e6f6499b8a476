use fleet_scheduler::task::Task;
use fleet_scheduler::task_queue::TaskQueue;

fn task(id: &str) -> Task {
    Task::new(id, 1, 1, 1, 1, vec![])
}

#[test]
fn the_queue_is_first_in_first_out() {
    let mut queue = TaskQueue::new();
    assert_eq!(queue.len(), 0);
    queue.enqueue(task("a"));
    queue.enqueue(task("b"));
    queue.enqueue(task("c"));
    assert_eq!(queue.len(), 3);
    assert_eq!(queue.dequeue().unwrap().task_id, "a");
    assert_eq!(queue.dequeue().unwrap().task_id, "b");
    queue.enqueue(task("d"));
    assert_eq!(queue.dequeue().unwrap().task_id, "c");
    assert_eq!(queue.dequeue().unwrap().task_id, "d");
    assert_eq!(queue.len(), 0);
}

#[test]
fn an_empty_queue_gives_nothing() {
    let mut queue = TaskQueue::new();
    assert!(queue.dequeue().is_none());
    assert_eq!(queue.len(), 0);
    assert!(queue.get_task_by_id("a").is_none());
}

#[test]
fn a_task_is_taken_out_by_id() {
    let mut queue = TaskQueue::new();
    queue.enqueue(task("a"));
    queue.enqueue(task("b"));
    queue.enqueue(task("c"));
    assert_eq!(queue.get_task_by_id("b").unwrap().task_id, "b");
    assert_eq!(queue.len(), 2);
    assert!(queue.get_task_by_id("b").is_none());
    assert!(queue.get_task_by_id("zz").is_none());
    assert_eq!(queue.len(), 2);
    assert_eq!(queue.dequeue().unwrap().task_id, "a");
    assert_eq!(queue.dequeue().unwrap().task_id, "c");
}

#[test]
fn taking_by_id_takes_the_earliest_of_equal_ids() {
    let mut queue = TaskQueue::new();
    let mut first = task("a");
    first.priority = 1;
    let mut second = task("a");
    second.priority = 2;
    queue.enqueue(first);
    queue.enqueue(second);
    assert_eq!(queue.get_task_by_id("a").unwrap().priority, 1);
    assert_eq!(queue.get_task_by_id("a").unwrap().priority, 2);
    assert!(queue.get_task_by_id("a").is_none());
}

#[test]
fn a_snapshot_leaves_the_queue_alone() {
    let mut queue = TaskQueue::new();
    let mut first = Task::new("a", 3, 10, 20, 30, vec![1, 2]);
    first.deadline = 77;
    first.retries = 2;
    first.assigned_node_id = Some("n1".to_string());
    queue.enqueue(first);
    queue.enqueue(task("b"));
    let mut snapshot = queue.get_all_tasks();
    assert_eq!(snapshot.len(), 2);
    assert_eq!(snapshot[0].task_id, "a");
    assert_eq!(snapshot[0].priority, 3);
    assert_eq!(snapshot[0].deadline, 77);
    assert_eq!(snapshot[0].required_ram, 10);
    assert_eq!(snapshot[0].required_cpu, 20);
    assert_eq!(snapshot[0].required_bandwidth, 30);
    assert_eq!(snapshot[0].data, vec![1, 2]);
    assert_eq!(snapshot[0].retries, 2);
    assert_eq!(snapshot[0].max_retries, 3);
    assert_eq!(snapshot[0].assigned_node_id, Some("n1".to_string()));
    assert_eq!(snapshot[1].task_id, "b");
    snapshot.reverse();
    snapshot.pop();
    assert_eq!(queue.len(), 2);
    assert_eq!(queue.dequeue().unwrap().task_id, "a");
    assert_eq!(queue.dequeue().unwrap().task_id, "b");
    assert!(TaskQueue::new().get_all_tasks().is_empty());
}
