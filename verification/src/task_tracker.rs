//! Which node currently runs which task, with the record of each running
//! task.

use vstd::prelude::*;
use crate::task::{Task, TaskView};
use crate::lookup::{
    distinct,
    first_index,
    lemma_first_index,
    lemma_first_index_push,
    lemma_first_index_remove,
    occurs,
    Id,
};

verus! {

/// One entry of the tracker: a running task, the node responsible for it
/// and the task's record, from which the task can be put back into the
/// backlog.
#[derive(Debug)]
pub struct Assignment {
    pub task_id: String,
    pub node_id: String,
    pub task: Task,
}

/// What the tracker knows of a running task: its node and its record.
pub struct Running {
    pub node_id: Id,
    pub task: TaskView,
}

/// Records, for each running task, the single node that runs it.
pub struct TaskTracker {
    pub task_node_map: Vec<Assignment>,
}

/// The task ids of the entries, in order.
pub open spec fn assignment_ids(entries: Seq<Assignment>) -> Seq<Id> {
    Seq::new(entries.len(), |i: int| entries[i].task_id@)
}

/// What an entry holds, as specifications see it.
pub open spec fn running(entry: Assignment) -> Running {
    Running { node_id: entry.node_id@, task: entry.task@ }
}

/// The mapping that a list of entries stands for: each task id that occurs,
/// to the node and the record of its first entry.
pub open spec fn assignments_map(entries: Seq<Assignment>) -> Map<Id, Running> {
    Map::new(
        |task_id: Id| occurs(assignment_ids(entries), task_id),
        |task_id: Id| running(entries[first_index(assignment_ids(entries), task_id)]),
    )
}

/// The ids of the tasks that the entries assign to `node_id`, in entry order.
pub open spec fn tasks_assigned_to(entries: Seq<Assignment>, node_id: Id) -> Seq<Id>
    decreases entries.len(),
{
    if entries.len() == 0 {
        Seq::empty()
    } else if entries.last().node_id@ == node_id {
        tasks_assigned_to(entries.drop_last(), node_id).push(entries.last().task_id@)
    } else {
        tasks_assigned_to(entries.drop_last(), node_id)
    }
}

/// The views of a list of strings.
pub open spec fn string_views(strings: Seq<String>) -> Seq<Id> {
    Seq::new(strings.len(), |i: int| strings[i]@)
}

impl View for TaskTracker {
    type V = Map<Id, Running>;

    /// Task id to node and record.
    open spec fn view(&self) -> Map<Id, Running> {
        assignments_map(self.task_node_map@)
    }
}

impl TaskTracker {
    /// No task has two entries.
    pub open spec fn well_formed(&self) -> bool {
        distinct(assignment_ids(self.task_node_map@))
    }

    /// Every record is filed under its own task id.
    pub open spec fn records_match(&self) -> bool {
        forall|i: int|
            0 <= i < self.task_node_map@.len() ==> (#[trigger] self.task_node_map@[i]).task@.task_id
                == self.task_node_map@[i].task_id@
    }

    /// A tracker without entries: it holds no record, so it maps no task
    /// to a node.
    pub fn new() -> (tracker: TaskTracker)
        ensures
            tracker.task_node_map@ == Seq::<Assignment>::empty(),
            tracker@ == Map::<Id, Running>::empty(),
            tracker.well_formed(),
            tracker.records_match(),
    {
        let tracker = TaskTracker { task_node_map: Vec::new() };
        assert(tracker@ =~= Map::<Id, Running>::empty());
        tracker
    }

    /// Index of the entry of `task_id`, or the number of entries.
    fn find(&self, task_id: &String) -> (at: usize)
        ensures
            at == first_index(assignment_ids(self.task_node_map@), task_id@),
            at <= self.task_node_map.len(),
    {
        let ghost ids = assignment_ids(self.task_node_map@);
        proof {
            lemma_first_index(ids, task_id@);
        }
        let mut i: usize = 0;
        while i < self.task_node_map.len()
            invariant
                ids == assignment_ids(self.task_node_map@),
                0 <= i <= self.task_node_map.len(),
                i <= first_index(ids, task_id@),
                first_index(ids, task_id@) <= ids.len(),
            decreases self.task_node_map.len() - i,
        {
            proof {
                lemma_first_index(ids, task_id@);
            }
            if self.task_node_map[i].task_id == *task_id {
                assert(ids[i as int] == task_id@);
                return i;
            }
            assert(ids[i as int] != task_id@);
            i = i + 1;
        }
        i
    }

    /// Records that `node_id` runs the task, and keeps the task's record.
    /// An earlier entry for the task is replaced.
    pub fn assign_task_to_node(&mut self, task: Task, node_id: &str)
        requires
            old(self).well_formed(),
        ensures
            final(self).well_formed(),
            old(self).records_match() ==> final(self).records_match(),
            final(self)@ == old(self)@.insert(
                task@.task_id,
                Running { node_id: node_id@, task: task@ },
            ),
    {
        let id: String = task.task_id.clone();
        let at = self.find(&id);
        let ghost task_id = task@.task_id;
        let ghost before = self.task_node_map@;
        let ghost ids = assignment_ids(before);
        let ghost wanted = old(self)@.insert(task_id, Running { node_id: node_id@, task: task@ });
        let entry = Assignment { task_id: id, node_id: node_id.to_owned(), task };
        if at < self.task_node_map.len() {
            proof {
                lemma_first_index(ids, task_id);
            }
            self.task_node_map[at] = entry;
            proof {
                let after = self.task_node_map@;
                assert(assignment_ids(after) =~= ids);
                assert forall|k: Id| #[trigger] self@.contains_key(k) && k != task_id implies self@[k]
                    == old(self)@[k] by {
                    lemma_first_index(ids, k);
                }
                assert(self@ =~= wanted);
                if old(self).records_match() {
                    assert forall|i: int| 0 <= i < after.len() implies (#[trigger] after[i]).task@.task_id
                        == after[i].task_id@ by {
                        if i != at {
                            assert(after[i] == before[i]);
                        }
                    }
                }
            }
        } else {
            self.task_node_map.push(entry);
            proof {
                let after = self.task_node_map@;
                assert(assignment_ids(after) =~= ids.push(task_id));
                lemma_first_index_push(ids, task_id, task_id);
                assert forall|k: Id|
                    #![trigger self@.contains_key(k)]
                    #![trigger wanted.contains_key(k)]
                    self@.contains_key(k) == wanted.contains_key(k) && (self@.contains_key(k)
                        ==> self@[k] == wanted[k]) by {
                    lemma_first_index_push(ids, task_id, k);
                    lemma_first_index(ids, k);
                }
                assert(self@ =~= wanted);
                if old(self).records_match() {
                    assert forall|i: int| 0 <= i < after.len() implies (#[trigger] after[i]).task@.task_id
                        == after[i].task_id@ by {
                        if i < before.len() {
                            assert(after[i] == before[i]);
                        }
                    }
                }
            }
        }
    }

    /// The node that runs `task_id`, if the tracker knows the task.
    pub fn get_assigned_node(&self, task_id: &str) -> (node_id: Option<String>)
        ensures
            match node_id {
                Some(id) => self@.contains_key(task_id@) && id@ == self@[task_id@].node_id,
                None => !self@.contains_key(task_id@),
            },
    {
        let task: String = task_id.to_owned();
        let at = self.find(&task);
        if at < self.task_node_map.len() {
            Some(self.task_node_map[at].node_id.clone())
        } else {
            None
        }
    }

    /// Takes the task's entry out and hands back the record. Other entries
    /// stay as they are. `None` where the tracker does not know the task.
    pub fn take_task(&mut self, task_id: &str) -> (record: Option<Task>)
        requires
            old(self).well_formed(),
        ensures
            final(self).well_formed(),
            old(self).records_match() ==> final(self).records_match(),
            final(self)@ == old(self)@.remove(task_id@),
            match record {
                Some(task) => old(self)@.contains_key(task_id@) && task@ == old(
                    self,
                )@[task_id@].task,
                None => !old(self)@.contains_key(task_id@),
            },
    {
        let task: String = task_id.to_owned();
        let at = self.find(&task);
        let ghost before = self.task_node_map@;
        let ghost ids = assignment_ids(before);
        if at < self.task_node_map.len() {
            proof {
                lemma_first_index(ids, task_id@);
            }
            let entry = self.task_node_map.remove(at);
            proof {
                let after = self.task_node_map@;
                assert(assignment_ids(after) =~= ids.remove(at as int));
                lemma_first_index_remove(ids, at as int, task_id@);
                assert(self@ =~= old(self)@.remove(task_id@)) by {
                    assert forall|k: Id| k != task_id@ implies (#[trigger] self@.contains_key(k)
                        <==> old(self)@.contains_key(k)) && (self@.contains_key(k) ==> self@[k]
                        == old(self)@[k]) by {
                        lemma_first_index_remove(ids, at as int, k);
                        lemma_first_index(ids, k);
                    }
                }
                if old(self).records_match() {
                    assert forall|i: int| 0 <= i < after.len() implies (#[trigger] after[i]).task@.task_id
                        == after[i].task_id@ by {
                        let a = if i < at { i } else { i + 1 };
                        assert(after[i] == before[a]);
                    }
                }
            }
            Some(entry.task)
        } else {
            assert(self@ =~= old(self)@.remove(task_id@));
            None
        }
    }

    /// Forgets the task, record included. Other entries stay as they are.
    pub fn remove_task_assignment(&mut self, task_id: &str)
        requires
            old(self).well_formed(),
        ensures
            final(self).well_formed(),
            old(self).records_match() ==> final(self).records_match(),
            final(self)@ == old(self)@.remove(task_id@),
    {
        let _ = self.take_task(task_id);
    }

    /// The ids of the tasks that `node_id` runs, in the order in which they
    /// were first recorded.
    pub fn tasks_on_node(&self, node_id: &str) -> (task_ids: Vec<String>)
        ensures
            string_views(task_ids@) == tasks_assigned_to(self.task_node_map@, node_id@),
    {
        let node: String = node_id.to_owned();
        let mut found: Vec<String> = Vec::new();
        let mut i: usize = 0;
        assert(self.task_node_map@.take(0) =~= Seq::<Assignment>::empty());
        while i < self.task_node_map.len()
            invariant
                node@ == node_id@,
                0 <= i <= self.task_node_map.len(),
                string_views(found@) =~= tasks_assigned_to(
                    self.task_node_map@.take(i as int),
                    node_id@,
                ),
            decreases self.task_node_map.len() - i,
        {
            proof {
                let next = self.task_node_map@.take(i as int + 1);
                assert(next.drop_last() =~= self.task_node_map@.take(i as int));
                assert(next.last() == self.task_node_map@[i as int]);
            }
            if self.task_node_map[i].node_id == node {
                found.push(self.task_node_map[i].task_id.clone());
            }
            i = i + 1;
        }
        assert(self.task_node_map@.take(i as int) =~= self.task_node_map@);
        found
    }
}

/// The tasks listed for a node are those that the mapping has on it.
#[verifier::spinoff_prover]
pub proof fn lemma_tasks_assigned_to(entries: Seq<Assignment>, node_id: Id, task_id: Id)
    requires
        distinct(assignment_ids(entries)),
    ensures
        tasks_assigned_to(entries, node_id).contains(task_id) <==> assignments_map(
            entries,
        ).contains_key(task_id) && assignments_map(entries)[task_id].node_id == node_id,
    decreases entries.len(),
{
    let ids = assignment_ids(entries);
    lemma_first_index(ids, task_id);
    if entries.len() > 0 {
        let front = entries.drop_last();
        let last = entries.last();
        let front_ids = assignment_ids(front);
        assert(front_ids =~= ids.drop_last());
        assert(ids =~= front_ids.push(last.task_id@));
        assert forall|i: int, j: int| 0 <= i < j < front_ids.len() implies #[trigger] front_ids[i]
            != #[trigger] front_ids[j] by {
            assert(ids[i] != ids[j]);
        }
        lemma_tasks_assigned_to(front, node_id, task_id);
        lemma_first_index(front_ids, task_id);
        lemma_first_index_push(front_ids, last.task_id@, task_id);
        let listed = tasks_assigned_to(front, node_id);
        if occurs(front_ids, task_id) {
            let at = first_index(front_ids, task_id);
            assert(ids[at] != ids[ids.len() - 1]);
            assert(entries[at] == front[at]);
            if last.node_id@ == node_id {
                assert(listed.push(last.task_id@).contains(task_id) <==> listed.contains(task_id)) by {
                    if listed.contains(task_id) {
                        let i = choose|i: int| 0 <= i < listed.len() && listed[i] == task_id;
                        assert(listed.push(last.task_id@)[i] == task_id);
                    }
                    if listed.push(last.task_id@).contains(task_id) {
                        let i = choose|i: int|
                            0 <= i < listed.len() + 1 && listed.push(last.task_id@)[i] == task_id;
                        assert(i < listed.len());
                        assert(listed[i] == task_id);
                    }
                }
            }
        } else {
            assert(!listed.contains(task_id));
            if last.task_id@ == task_id {
                if last.node_id@ == node_id {
                    assert(listed.push(last.task_id@)[listed.len() as int] == task_id);
                }
            } else {
                if last.node_id@ == node_id {
                    if listed.push(last.task_id@).contains(task_id) {
                        let i = choose|i: int|
                            0 <= i < listed.len() + 1 && listed.push(last.task_id@)[i] == task_id;
                        assert(listed[i] == task_id);
                    }
                }
            }
        }
    }
}

/// Where every entry holds the record of its own task, the mapping files
/// every record under the id of its task.
pub proof fn lemma_records_filed(tracker: &TaskTracker)
    requires
        tracker.records_match(),
    ensures
        forall|task_id: Id| #[trigger]
            tracker@.contains_key(task_id) ==> tracker@[task_id].task.task_id == task_id,
{
    let entries = tracker.task_node_map@;
    let ids = assignment_ids(entries);
    assert forall|task_id: Id| #[trigger] tracker@.contains_key(task_id) implies tracker@[task_id].task.task_id
        == task_id by {
        lemma_first_index(ids, task_id);
        let at = first_index(ids, task_id);
        assert(ids[at] == task_id);
        assert(entries[at].task@.task_id == entries[at].task_id@);
    }
}

} // verus!
