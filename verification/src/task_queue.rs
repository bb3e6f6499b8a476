//! The backlog of tasks that wait for a node, in insertion order.

use vstd::prelude::*;
use std::collections::VecDeque;
use crate::lookup::{first_index, lemma_first_index, Id};
use crate::task::Task;

verus! {

/// First-in, first-out backlog of the tasks that wait for a node.
pub struct TaskQueue {
    pub queue: VecDeque<Task>,
}

impl View for TaskQueue {
    type V = Seq<Task>;

    /// The waiting tasks, earliest first.
    open spec fn view(&self) -> Seq<Task> {
        self.queue@
    }
}

/// The ids of the tasks, in order.
pub open spec fn task_ids(tasks: Seq<Task>) -> Seq<Id> {
    Seq::new(tasks.len(), |i: int| tasks[i].task_id@)
}

impl TaskQueue {
    /// An empty backlog.
    pub fn new() -> (q: TaskQueue)
        ensures
            q@ == Seq::<Task>::empty(),
    {
        TaskQueue { queue: VecDeque::new() }
    }

    /// Number of waiting tasks.
    pub fn len(&self) -> (n: usize)
        ensures
            n == self@.len(),
    {
        self.queue.len()
    }

    /// Appends a task at the back.
    pub fn enqueue(&mut self, task: Task)
        ensures
            final(self)@ == old(self)@.push(task),
    {
        self.queue.push_back(task);
    }

    /// Takes the earliest task, or `None` from an empty backlog.
    pub fn dequeue(&mut self) -> (task: Option<Task>)
        ensures
            old(self)@.len() == 0 ==> task is None && final(self)@ == old(self)@,
            old(self)@.len() > 0 ==> task == Some(old(self)@[0]) && final(self)@ == old(
                self,
            )@.drop_first(),
    {
        self.queue.pop_front()
    }

    /// A snapshot of the backlog, earliest task first. The backlog itself
    /// stays as it is, so a strategy may rearrange the snapshot freely.
    pub fn get_all_tasks(&self) -> (tasks: Vec<Task>)
        ensures
            tasks@.len() == self@.len(),
            forall|i: int| 0 <= i < self@.len() ==> (#[trigger] tasks@[i])@ == self@[i]@,
    {
        let mut tasks: Vec<Task> = Vec::new();
        let mut i: usize = 0;
        while i < self.queue.len()
            invariant
                0 <= i <= self.queue@.len(),
                tasks@.len() == i,
                forall|k: int| 0 <= k < i ==> (#[trigger] tasks@[k])@ == self.queue@[k]@,
            decreases self.queue.len() - i,
        {
            tasks.push(self.queue[i].clone());
            i = i + 1;
        }
        tasks
    }

    /// Takes the first task with the given id out of the backlog. The other
    /// tasks keep their order. `None` where no task has that id.
    pub fn get_task_by_id(&mut self, task_id: &str) -> (task: Option<Task>)
        ensures
            ({
                let at = first_index(task_ids(old(self)@), task_id@);
                if at < old(self)@.len() {
                    task == Some(old(self)@[at]) && final(self)@ == old(self)@.remove(at)
                } else {
                    task is None && final(self)@ == old(self)@
                }
            }),
    {
        let wanted: String = task_id.to_owned();
        let n = self.queue.len();
        let mut i: usize = 0;
        proof {
            lemma_first_index(task_ids(self@), task_id@);
        }
        while i < n
            invariant
                n == self.queue@.len(),
                self.queue@ == old(self)@,
                wanted@ == task_id@,
                0 <= i <= n,
                forall|j: int| 0 <= j < i ==> #[trigger] task_ids(old(self)@)[j] != task_id@,
                i <= first_index(task_ids(old(self)@), task_id@),
            decreases n - i,
        {
            if self.queue[i].task_id == wanted {
                proof {
                    lemma_first_index(task_ids(old(self)@), task_id@);
                    assert(task_ids(old(self)@)[i as int] == task_id@);
                }
                return self.queue.remove(i);
            }
            proof {
                lemma_first_index(task_ids(old(self)@), task_id@);
                assert(task_ids(old(self)@)[i as int] != task_id@);
            }
            i = i + 1;
        }
        None
    }
}

} // verus!
