//! Synchronization and resource-accounting core of a cooperative,
//! single-core teaching kernel: spinning and blocking mutexes, counting
//! semaphores, condition variables, and a Banker's-algorithm deadlock
//! detector, modelled as a verified state machine over one process's
//! task table and synchronization-object slot tables.
//!
//! The dispatcher, timer and address-space subsystems are external
//! collaborators: their effect on the in-scope state (a task becoming
//! runnable again, a sleeping task being woken) is exposed as explicit
//! transitions, and the caller of a syscall is identified by an explicit
//! task id in place of the dispatcher's notion of the current task.
//! On this cooperative single core, kernel-internal state is guarded
//! by an exclusive-access discipline — a single-owner borrow — which
//! appears here as the statically checked exclusive borrow each
//! operation takes on the process state.

pub mod condvar;
pub mod detect;
pub mod fairness;
pub mod mutex;
pub mod process;
pub mod semaphore;
pub mod syscall;
pub mod task;

use vstd::prelude::*;

verus! {

} // verus!
