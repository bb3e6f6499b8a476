//! Tasks: resource demand, scheduling hints and retry state.

use vstd::prelude::*;
use std::io::Write;
use crate::lookup::Id;

verus! {

/// Retry bound given to a task at creation.
pub const DEFAULT_MAX_RETRIES: u32 = 3;

/// A unit of work to be placed on a node.
#[derive(Debug)]
pub struct Task {
    pub task_id: String,
    pub priority: u8,
    pub deadline: u64,
    pub required_ram: u64,
    pub required_cpu: u64,
    pub required_bandwidth: u64,
    pub data: Vec<u8>,
    pub assigned_node_id: Option<String>,
    pub retries: u32,
    pub max_retries: u32,
}

/// What a task asks of a node.
pub struct Demand {
    pub ram: u64,
    pub cpu: u64,
    pub bandwidth: u64,
}

/// A task as specifications see it: text and payload as sequences.
pub struct TaskView {
    pub task_id: Id,
    pub priority: u8,
    pub deadline: u64,
    pub demand: Demand,
    pub data: Seq<u8>,
    pub assigned_node_id: Option<Id>,
    pub retries: u32,
    pub max_retries: u32,
}

impl TaskView {
    /// The retry budget is used up.
    pub open spec fn exceeded_retry_limit(self) -> bool {
        self.retries >= self.max_retries
    }

    /// The same task, running on no node.
    pub open spec fn unassigned(self) -> TaskView {
        TaskView { assigned_node_id: None, ..self }
    }

    /// The same task, running on `node_id`.
    pub open spec fn assigned_to(self, node_id: Id) -> TaskView {
        TaskView { assigned_node_id: Some(node_id), ..self }
    }
}

impl View for Task {
    type V = TaskView;

    open spec fn view(&self) -> TaskView {
        TaskView {
            task_id: self.task_id@,
            priority: self.priority,
            deadline: self.deadline,
            demand: self.demand(),
            data: self.data@,
            assigned_node_id: match self.assigned_node_id {
                Some(id) => Some(id@),
                None => None,
            },
            retries: self.retries,
            max_retries: self.max_retries,
        }
    }
}

/// The gzip stream that the encoder makes of `data` at the default
/// compression level.
pub uninterp spec fn gzip_encoding(data: Seq<u8>) -> Seq<u8>;

/// The fixed ten-byte header of such a stream: the gzip magic number, the
/// deflate method, no flags, no modification time, no extra flags and an
/// unknown operating system.
pub open spec fn gzip_header() -> Seq<u8> {
    seq![0x1fu8, 0x8bu8, 8u8, 0u8, 0u8, 0u8, 0u8, 0u8, 0u8, 255u8]
}

/// Calls `flate2::write::GzEncoder`: a new encoder over an empty vector at
/// `Compression::default()`, `write_all` of the data, then `finish`. The
/// contract names the stream that comes back and states its header, which
/// the encoder writes from constants and which does not depend on the
/// machine. Writing into a vector does not fail.
#[verifier::external_body]
fn gzip(data: &[u8]) -> (out: Vec<u8>)
    ensures
        out@ == gzip_encoding(data@),
        out@.len() >= 10,
        out@.take(10) == gzip_header(),
{
    let mut encoder = flate2::write::GzEncoder::new(Vec::new(), flate2::Compression::default());
    encoder.write_all(data).unwrap();
    encoder.finish().unwrap()
}

impl Clone for Task {
    /// A copy with the same view.
    fn clone(&self) -> (copy: Task)
        ensures
            copy@ == self@,
    {
        let copy = Task {
            task_id: self.task_id.clone(),
            priority: self.priority,
            deadline: self.deadline,
            required_ram: self.required_ram,
            required_cpu: self.required_cpu,
            required_bandwidth: self.required_bandwidth,
            data: self.data.clone(),
            assigned_node_id: match &self.assigned_node_id {
                Some(node_id) => Some(node_id.clone()),
                None => None,
            },
            retries: self.retries,
            max_retries: self.max_retries,
        };
        assert(copy.data@ =~= self.data@);
        copy
    }
}

impl Task {
    /// The retry counter never passes its bound.
    pub open spec fn well_formed(&self) -> bool {
        self.retries <= self.max_retries
    }

    /// The resources that the task asks for.
    pub open spec fn demand(&self) -> Demand {
        Demand {
            ram: self.required_ram,
            cpu: self.required_cpu,
            bandwidth: self.required_bandwidth,
        }
    }

    /// CPU demand dominates when it exceeds a tenth of the RAM demand.
    pub open spec fn spec_is_cpu_bound(&self) -> bool {
        self.required_cpu > self.required_ram / 10
    }

    /// The retry budget is used up.
    pub open spec fn spec_exceeded_retry_limit(&self) -> bool {
        self.retries >= self.max_retries
    }

    /// A fresh task: no retries yet, the default retry bound, not assigned,
    /// and no deadline set (zero).
    pub fn new(
        task_id: &str,
        priority: u8,
        ram: u64,
        cpu: u64,
        bandwidth: u64,
        data: Vec<u8>,
    ) -> (task: Task)
        ensures
            task.task_id@ == task_id@,
            task.priority == priority,
            task.deadline == 0,
            task.required_ram == ram,
            task.required_cpu == cpu,
            task.required_bandwidth == bandwidth,
            task.data == data,
            task.assigned_node_id is None,
            task.retries == 0,
            task.max_retries == DEFAULT_MAX_RETRIES,
            task.well_formed(),
    {
        Task {
            task_id: task_id.to_owned(),
            priority,
            deadline: 0,
            required_ram: ram,
            required_cpu: cpu,
            required_bandwidth: bandwidth,
            data,
            assigned_node_id: None,
            retries: 0,
            max_retries: DEFAULT_MAX_RETRIES,
        }
    }

    /// Compresses a payload for transfer to a node, as a gzip stream.
    pub fn compress_task_data(data: &[u8]) -> (out: Vec<u8>)
        ensures
            out@ == gzip_encoding(data@),
            out@.len() >= 10,
            out@.take(10) == gzip_header(),
    {
        gzip(data)
    }

    /// Whether CPU is the dominant demand, so that best-fit ranks nodes by
    /// free CPU.
    #[verifier::when_used_as_spec(spec_is_cpu_bound)]
    pub fn is_cpu_bound(&self) -> (b: bool)
        ensures
            b == self.spec_is_cpu_bound(),
    {
        self.required_cpu > self.required_ram / 10
    }

    /// Whether the retry budget is used up.
    #[verifier::when_used_as_spec(spec_exceeded_retry_limit)]
    pub fn exceeded_retry_limit(&self) -> (b: bool)
        ensures
            b == self.spec_exceeded_retry_limit(),
    {
        self.retries >= self.max_retries
    }
}

} // verus!
