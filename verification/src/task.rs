//! Task-level types: scheduling status, the per-task resource-accounting
//! fields (`need` and the held-resource list), and syscall statistics.

use vstd::prelude::*;

verus! {

/// Number of syscall slots tracked by the per-task statistics.
pub const MAX_SYSCALL_NUM: usize = 500;

/// The kind of synchronization object a resource identifier refers to.
#[derive(Copy, Clone, Debug, PartialEq, Eq, Structural)]
pub enum ResourceType {
    Mutex,
    Semaphore,
}

/// One synchronization object instance: its kind and its slot index in
/// the owning process's table for that kind. Immutable once constructed.
#[derive(Copy, Clone, Debug, PartialEq, Eq, Structural)]
pub struct Resource {
    pub type_: ResourceType,
    pub id: usize,
}

/// Scheduling status of a task. While a task is alive it cycles between
/// `Ready`, `Running` and `Blocked`; `Exited` is terminal.
#[derive(Copy, Clone, Debug, PartialEq, Eq, Structural)]
pub enum TaskStatus {
    UnInit,
    Ready,
    Running,
    Blocked,
    Exited,
}

/// Per-task syscall statistics.
#[derive(Clone, Copy)]
pub struct TaskStatistics {
    pub sys_call_stat: [u32; MAX_SYSCALL_NUM],
    pub first_run_time: usize,
}

impl TaskStatistics {
    /// All counters zero and no first-run timestamp recorded.
    pub fn zero_init() -> (stat: TaskStatistics)
        ensures
            forall|i: int| 0 <= i < MAX_SYSCALL_NUM ==> stat.sys_call_stat[i] == 0,
            stat.first_run_time == 0,
    {
        TaskStatistics { sys_call_stat: [0; MAX_SYSCALL_NUM], first_run_time: 0 }
    }
}

/// Task control block: scheduling status plus the resource-accounting
/// fields the deadlock detector reads. `need` is the single resource the
/// task is currently requesting; `resources` records one entry per unit
/// it currently owns (at most one entry per mutex, one per semaphore
/// unit acquired).
pub struct TaskControlBlock {
    pub task_status: TaskStatus,
    pub need: Option<Resource>,
    pub resources: Vec<Resource>,
    pub task_statistics: TaskStatistics,
}

impl TaskControlBlock {
    /// A fresh task: ready to run, requesting nothing, holding nothing.
    pub fn new_ready() -> (task: TaskControlBlock)
        ensures
            task.task_status is Ready,
            task.need is None,
            task.resources@ =~= Seq::<Resource>::empty(),
            task.task_statistics.first_run_time == 0,
    {
        TaskControlBlock {
            task_status: TaskStatus::Ready,
            need: None,
            resources: Vec::new(),
            task_statistics: TaskStatistics::zero_init(),
        }
    }

    /// Completes an acquisition: the requested resource, if any, moves
    /// from `need` into the held-resource list.
    pub fn confirm_getting_resource(&mut self)
        ensures
            final(self).task_status == old(self).task_status,
            final(self).need is None,
            final(self).task_statistics == old(self).task_statistics,
            (match old(self).need {
                Some(r) => final(self).resources@ == old(self).resources@.push(r),
                None => final(self).resources@ == old(self).resources@,
            }),
    {
        if let Some(res) = self.need.take() {
            self.resources.push(res);
        }
    }
}

} // verus!
