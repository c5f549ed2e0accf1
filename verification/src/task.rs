//! Interrupt tasks as they are registered with the dispatcher.

use crate::model::TaskModel;
use vstd::prelude::*;

verus! {

/// The registration of one interrupt task. Its place in the task table is
/// the interrupt source it is bound to.
///
/// The priority is fixed here and never changes. The handler is carried for
/// the firmware, which runs it when the dispatcher starts the task; the
/// dispatcher itself never looks at it.
pub struct TaskDescriptor<H> {
    /// The priority at which the task runs. A task preempts every context of
    /// lower priority.
    pub priority: u8,
    /// The resource cells that the task may claim, by their index.
    pub resources: Vec<usize>,
    /// What runs when the interrupt fires.
    pub handler: H,
}

impl<H> View for TaskDescriptor<H> {
    type V = TaskModel;

    open spec fn view(&self) -> TaskModel {
        TaskModel { priority: self.priority, resources: self.resources@ }
    }
}

/// What an interrupt task is doing.
#[derive(Clone, Copy, Debug, PartialEq, Eq, Structural)]
pub enum TaskState {
    /// The task waits for its interrupt.
    Idle,
    /// The task was started and has not completed. It runs, or a task of
    /// higher priority has preempted it.
    Running,
}

} // verus!
