//! A fleet scheduler: worker nodes with finite resources, tasks with resource
//! demands, and the policies that place tasks on nodes, retry failed
//! executions and move work away from failed nodes.

pub mod load_balancer;
pub mod lookup;
pub mod node;
pub mod node_controller;
pub mod node_manager;
pub mod node_sort;
pub mod requeue;
pub mod retry;
pub mod stable_sort;
pub mod status_mirror;
pub mod task;
pub mod task_queue;
pub mod task_tracker;
