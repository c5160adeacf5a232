//! Messages exchanged between the coordinator and its workers.
use vstd::prelude::*;

verus! {

/// What the coordinator tells a worker to do.
#[derive(Debug, Clone, PartialEq, Eq, Structural)]
pub enum CoordinatorCommand {
    /// Nothing to do for now.
    Wait,
    /// Compute the rows `start_row..end_row` of a `width` x `height` picture
    /// and answer with the result of task `task_id`.
    Compute { task_id: u32, width: u32, height: u32, start_row: u32, end_row: u32 },
}

/// What a worker tells the coordinator.
#[derive(Debug, Clone)]
pub enum WorkerMessage {
    /// First message of every connection.
    Hello,
    /// The iteration counts of the rows of task `task_id`, row after row.
    ComputeResult { task_id: u32, data: Vec<u32> },
}

} // verus!
