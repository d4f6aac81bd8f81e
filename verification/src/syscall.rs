//! Syscall layer over the process state. Each syscall takes the
//! process and the id of the calling task explicitly (the dispatcher's
//! notion of a current task is an external collaborator) and performs
//! one cooperative step.
//!
//! Every call returns a signed status: non-negative is success or a
//! slot id, `-1` is an invalid argument or handle, and a lock or
//! semaphore acquisition rejected by the deadlock detector returns
//! `-0xDEAD`.

use vstd::prelude::*;
use crate::condvar::Condvar;
use crate::detect::{
    deadlock_detected, detect_sems_ok, detect_tasks_ok, detection_rejects, resource_ok,
    task_entries_ok,
};
use crate::mutex::{Mutex, MutexVariant};
use crate::process::{
    held_units_task, lemma_held_units_none, lemma_held_units_update, lemma_wf_after_task_status,
    lemma_wf_same_core, Process, QueueId, MAX_HELD, MAX_OBJECTS,
};
use crate::semaphore::{Semaphore, MAX_SEM_COUNT};
use crate::task::{
    Resource, ResourceType, TaskControlBlock, TaskStatistics, TaskStatus, MAX_SYSCALL_NUM,
};

verus! {

/// Status returned by `sys_mutex_lock` and `sys_semaphore_down` when
/// the deadlock detector rejects the acquisition.
pub const DEADLOCK_RC: isize = -0xDEAD;

/// Seconds-and-microseconds split of a monotonic timestamp.
#[derive(Debug, Clone, Copy, PartialEq, Eq, Structural)]
pub struct TimeVal {
    pub sec: usize,
    pub usec: usize,
}

/// Snapshot of a task's statistics as reported to the caller.
#[derive(Clone, Copy)]
pub struct TaskInfo {
    pub status: TaskStatus,
    pub syscall_times: [u32; MAX_SYSCALL_NUM],
    pub time: usize,
}

/// Splits a microsecond timestamp (read by the external timer driver)
/// into seconds and microseconds.
pub fn sys_get_time(now_us: usize) -> (tv: TimeVal)
    ensures
        tv.sec == now_us / 1_000_000,
        tv.usec == now_us % 1_000_000,
{
    TimeVal { sec: now_us / 1_000_000, usec: now_us % 1_000_000 }
}

/// Reports the running task's statistics: its syscall counters and its
/// age in milliseconds at timestamp `now_us`.
pub fn sys_task_info(stat: TaskStatistics, now_us: usize) -> (ti: TaskInfo)
    requires
        stat.first_run_time <= now_us,
    ensures
        ti.status is Running,
        ti.syscall_times == stat.sys_call_stat,
        ti.time == (now_us - stat.first_run_time) / 1000,
{
    TaskInfo {
        status: TaskStatus::Running,
        syscall_times: stat.sys_call_stat,
        time: (now_us - stat.first_run_time) / 1000,
    }
}

/// The calling task gives up the core and re-enters the ready rotation
/// at the back.
pub fn sys_yield(process: &mut Process, tid: usize) -> (rc: isize)
    requires
        old(process).wf(),
        old(process).caller_ok(tid as int),
    ensures
        final(process).wf(),
        rc == 0,
        final(process).tasks@ == old(process).tasks@.update(
            tid as int,
            Some(
                TaskControlBlock {
                    task_status: TaskStatus::Ready,
                    ..old(process).task_at(tid as int)
                },
            ),
        ),
        final(process).pid == old(process).pid,
        final(process).mutex_list == old(process).mutex_list,
        final(process).semaphore_list == old(process).semaphore_list,
        final(process).condvar_list == old(process).condvar_list,
        final(process).deadlock_detect == old(process).deadlock_detect,
{
    let ghost pre = *process;
    let mut tk = process.tasks.remove(tid).unwrap();
    tk.task_status = TaskStatus::Ready;
    process.tasks.insert(tid, Some(tk));
    proof {
        assert(process.tasks@ =~= pre.tasks@.update(tid as int, Some(tk)));
        lemma_caller_not_queued(pre, tid);
        lemma_wf_after_task_status(pre, *process, tid);
    }
    0
}

/// The calling task leaves every rotation until the external timer
/// facility re-adds it (`add_task`) at its wake deadline — no earlier
/// than `_ms` milliseconds from now, with no exactness guarantee.
pub fn sys_sleep(process: &mut Process, tid: usize, _ms: usize) -> (rc: isize)
    requires
        old(process).wf(),
        old(process).caller_ok(tid as int),
    ensures
        final(process).wf(),
        rc == 0,
        final(process).tasks@ == old(process).tasks@.update(
            tid as int,
            Some(
                TaskControlBlock {
                    task_status: TaskStatus::Blocked,
                    ..old(process).task_at(tid as int)
                },
            ),
        ),
        final(process).pid == old(process).pid,
        final(process).mutex_list == old(process).mutex_list,
        final(process).semaphore_list == old(process).semaphore_list,
        final(process).condvar_list == old(process).condvar_list,
        final(process).deadlock_detect == old(process).deadlock_detect,
{
    let ghost pre = *process;
    let mut tk = process.tasks.remove(tid).unwrap();
    tk.task_status = TaskStatus::Blocked;
    process.tasks.insert(tid, Some(tk));
    proof {
        assert(process.tasks@ =~= pre.tasks@.update(tid as int, Some(tk)));
        lemma_caller_not_queued(pre, tid);
        lemma_wf_after_task_status(pre, *process, tid);
    }
    0
}

/// The calling task exits. Its slot remains (reclamation is the
/// process manager's business) but it never runs again.
pub fn sys_exit(process: &mut Process, tid: usize, _exit_code: i32)
    requires
        old(process).wf(),
        old(process).caller_ok(tid as int),
    ensures
        final(process).wf(),
        final(process).tasks@ == old(process).tasks@.update(
            tid as int,
            Some(
                TaskControlBlock {
                    task_status: TaskStatus::Exited,
                    ..old(process).task_at(tid as int)
                },
            ),
        ),
        final(process).pid == old(process).pid,
        final(process).mutex_list == old(process).mutex_list,
        final(process).semaphore_list == old(process).semaphore_list,
        final(process).condvar_list == old(process).condvar_list,
        final(process).deadlock_detect == old(process).deadlock_detect,
{
    let ghost pre = *process;
    let mut tk = process.tasks.remove(tid).unwrap();
    tk.task_status = TaskStatus::Exited;
    process.tasks.insert(tid, Some(tk));
    proof {
        assert(process.tasks@ =~= pre.tasks@.update(tid as int, Some(tk)));
        lemma_caller_not_queued(pre, tid);
        lemma_wf_after_task_status(pre, *process, tid);
    }
}

/// The process id of the caller.
pub fn sys_getpid(process: &Process) -> (rc: isize)
    requires
        process.wf(),
    ensures
        rc == process.pid,
{
    process.pid as isize
}

/// Priorities are not supported by this scheduler.
pub fn sys_set_priority(_prio: isize) -> (rc: isize)
    ensures
        rc == -1,
{
    -1
}

/// Spawning a fresh process image is the loader's business and is not
/// supported here.
pub fn sys_spawn(_path: usize) -> (rc: isize)
    ensures
        rc == -1,
{
    -1
}

/// Switches deadlock detection for this process: `0` disables, `1`
/// enables, anything else is an invalid argument.
pub fn sys_enable_deadlock_detect(process: &mut Process, enabled: usize) -> (rc: isize)
    requires
        old(process).wf(),
    ensures
        final(process).wf(),
        enabled == 0 ==> rc == 0 && !final(process).deadlock_detect,
        enabled == 1 ==> rc == 0 && final(process).deadlock_detect,
        enabled > 1 ==> rc == -1 && final(process).deadlock_detect == old(
            process,
        ).deadlock_detect,
        final(process).pid == old(process).pid,
        final(process).tasks == old(process).tasks,
        final(process).mutex_list == old(process).mutex_list,
        final(process).semaphore_list == old(process).semaphore_list,
        final(process).condvar_list == old(process).condvar_list,
{
    let ghost pre = *process;
    if enabled == 0 {
        process.deadlock_detect = false;
        proof {
            lemma_wf_same_core(pre, *process);
        }
        0
    } else if enabled == 1 {
        process.deadlock_detect = true;
        proof {
            lemma_wf_same_core(pre, *process);
        }
        0
    } else {
        -1
    }
}

/// Index of the lowest empty mutex slot, or the table length when
/// every slot is occupied.
fn first_free_mutex(list: &Vec<Option<MutexVariant>>) -> (id: usize)
    ensures
        id <= list@.len(),
        forall|j: int| 0 <= j < id ==> (#[trigger] list@[j]) is Some,
        id < list@.len() ==> list@[id as int] is None,
{
    let mut i: usize = 0;
    while i < list.len()
        invariant
            i <= list@.len(),
            forall|j: int| 0 <= j < i ==> (#[trigger] list@[j]) is Some,
        decreases list@.len() - i,
    {
        if list[i].is_none() {
            return i;
        }
        i = i + 1;
    }
    i
}

/// Index of the lowest empty semaphore slot, or the table length when
/// every slot is occupied.
fn first_free_sem(list: &Vec<Option<Semaphore>>) -> (id: usize)
    ensures
        id <= list@.len(),
        forall|j: int| 0 <= j < id ==> (#[trigger] list@[j]) is Some,
        id < list@.len() ==> list@[id as int] is None,
{
    let mut i: usize = 0;
    while i < list.len()
        invariant
            i <= list@.len(),
            forall|j: int| 0 <= j < i ==> (#[trigger] list@[j]) is Some,
        decreases list@.len() - i,
    {
        if list[i].is_none() {
            return i;
        }
        i = i + 1;
    }
    i
}

/// Index of the lowest empty condition-variable slot, or the table
/// length when every slot is occupied.
fn first_free_cond(list: &Vec<Option<Condvar>>) -> (id: usize)
    ensures
        id <= list@.len(),
        forall|j: int| 0 <= j < id ==> (#[trigger] list@[j]) is Some,
        id < list@.len() ==> list@[id as int] is None,
{
    let mut i: usize = 0;
    while i < list.len()
        invariant
            i <= list@.len(),
            forall|j: int| 0 <= j < i ==> (#[trigger] list@[j]) is Some,
        decreases list@.len() - i,
    {
        if list[i].is_none() {
            return i;
        }
        i = i + 1;
    }
    i
}

/// Creates a mutex of the requested strategy (`blocking` false gives
/// the spinning variant), reusing the lowest empty slot before growing
/// the table, and returns its slot id.
pub fn sys_mutex_create(process: &mut Process, blocking: bool) -> (rc: isize)
    requires
        old(process).wf(),
        old(process).mutex_list@.len() < MAX_OBJECTS,
    ensures
        final(process).wf(),
        rc >= 0,
        final(process).pid == old(process).pid,
        final(process).tasks == old(process).tasks,
        final(process).semaphore_list == old(process).semaphore_list,
        final(process).condvar_list == old(process).condvar_list,
        final(process).deadlock_detect == old(process).deadlock_detect,
        ({
            let id = rc as int;
            let pre = *old(process);
            let post = *final(process);
            &&& forall|j: int| 0 <= j < id ==> (#[trigger] pre.mutex_list@[j]) is Some
            &&& id <= pre.n_mutex()
            &&& (id < pre.n_mutex() ==> pre.mutex_list@[id] is None && post.n_mutex()
                == pre.n_mutex())
            &&& (id == pre.n_mutex() ==> post.n_mutex() == pre.n_mutex() + 1)
            &&& (forall|j: int|
                0 <= j < pre.n_mutex() && j != id ==> post.mutex_list@[j]
                    == #[trigger] pre.mutex_list@[j])
            &&& post.mutex_list@[id] is Some
            &&& !post.mutex_at(id).locked
            &&& post.mutex_at(id).queue == Seq::<usize>::empty()
            &&& post.mutex_at(id).blocking == blocking
        }),
{
    let ghost pre = *process;
    let id = first_free_mutex(&process.mutex_list);
    let m = MutexVariant::new(blocking);
    if id < process.mutex_list.len() {
        process.set_mutex(id, m);
    } else {
        process.mutex_list.push(Some(m));
    }
    proof {
        lemma_wf_after_object_create(pre, *process, id);
    }
    id as isize
}

/// Creates a counting semaphore with `res_count` initial units,
/// reusing the lowest empty slot before growing the table, and returns
/// its slot id.
pub fn sys_semaphore_create(process: &mut Process, res_count: usize) -> (rc: isize)
    requires
        old(process).wf(),
        old(process).semaphore_list@.len() < MAX_OBJECTS,
        res_count <= MAX_SEM_COUNT,
    ensures
        final(process).wf(),
        rc >= 0,
        final(process).pid == old(process).pid,
        final(process).tasks == old(process).tasks,
        final(process).mutex_list == old(process).mutex_list,
        final(process).condvar_list == old(process).condvar_list,
        final(process).deadlock_detect == old(process).deadlock_detect,
        ({
            let id = rc as int;
            let pre = *old(process);
            let post = *final(process);
            &&& forall|j: int| 0 <= j < id ==> (#[trigger] pre.semaphore_list@[j]) is Some
            &&& id <= pre.n_sem()
            &&& (id < pre.n_sem() ==> pre.semaphore_list@[id] is None && post.n_sem()
                == pre.n_sem())
            &&& (id == pre.n_sem() ==> post.n_sem() == pre.n_sem() + 1)
            &&& (forall|j: int|
                0 <= j < pre.n_sem() && j != id ==> post.semaphore_list@[j]
                    == #[trigger] pre.semaphore_list@[j])
            &&& post.semaphore_list@[id] is Some
            &&& post.sem_count_at(id) == res_count
            &&& post.sem_queue_at(id) == Seq::<usize>::empty()
        }),
{
    let ghost pre = *process;
    let id = first_free_sem(&process.semaphore_list);
    let sm = Semaphore::new(res_count);
    if id < process.semaphore_list.len() {
        process.set_sem(id, sm);
    } else {
        process.semaphore_list.push(Some(sm));
    }
    proof {
        lemma_wf_after_sem_create(pre, *process, id);
    }
    id as isize
}

/// Creates a condition variable, reusing the lowest empty slot before
/// growing the table, and returns its slot id. The argument is unused,
/// as in the syscall ABI.
pub fn sys_condvar_create(process: &mut Process, _arg: usize) -> (rc: isize)
    requires
        old(process).wf(),
        old(process).condvar_list@.len() < MAX_OBJECTS,
    ensures
        final(process).wf(),
        rc >= 0,
        final(process).pid == old(process).pid,
        final(process).tasks == old(process).tasks,
        final(process).mutex_list == old(process).mutex_list,
        final(process).semaphore_list == old(process).semaphore_list,
        final(process).deadlock_detect == old(process).deadlock_detect,
        ({
            let id = rc as int;
            let pre = *old(process);
            let post = *final(process);
            &&& forall|j: int| 0 <= j < id ==> (#[trigger] pre.condvar_list@[j]) is Some
            &&& id <= pre.n_cond()
            &&& (id < pre.n_cond() ==> pre.condvar_list@[id] is None && post.n_cond()
                == pre.n_cond())
            &&& (id == pre.n_cond() ==> post.n_cond() == pre.n_cond() + 1)
            &&& (forall|j: int|
                0 <= j < pre.n_cond() && j != id ==> post.condvar_list@[j]
                    == #[trigger] pre.condvar_list@[j])
            &&& post.condvar_list@[id] is Some
            &&& post.cond_queue_at(id) == Seq::<usize>::empty()
        }),
{
    let ghost pre = *process;
    let id = first_free_cond(&process.condvar_list);
    let cv = Condvar::new();
    if id < process.condvar_list.len() {
        process.set_cond(id, cv);
    } else {
        process.condvar_list.push(Some(cv));
    }
    proof {
        lemma_wf_after_cond_create(pre, *process, id);
    }
    id as isize
}

/// Well-formedness is preserved by installing a fresh, unlocked,
/// waiter-free mutex in slot `id` (an empty slot, or one past the
/// table end).
proof fn lemma_wf_after_object_create(pre: Process, post: Process, id: usize)
    requires
        pre.wf(),
        pre.n_mutex() < MAX_OBJECTS,
        (id as int) <= pre.n_mutex(),
        (id as int) < pre.n_mutex() ==> ((pre.mutex_list@[id as int] is None) && post.mutex_list@
            == pre.mutex_list@.update(id as int, post.mutex_list@[id as int])),
        (id as int) == pre.n_mutex() ==> post.mutex_list@ == pre.mutex_list@.push(
            post.mutex_list@[id as int],
        ),
        post.mutex_list@[id as int] is Some,
        !post.mutex_at(id as int).locked,
        post.mutex_at(id as int).queue == Seq::<usize>::empty(),
        post.pid == pre.pid,
        post.tasks == pre.tasks,
        post.semaphore_list == pre.semaphore_list,
        post.condvar_list == pre.condvar_list,
    ensures
        post.wf(),
{
    let i = id as int;
    assert forall|x: int| 0 <= x < post.n_tasks() implies #[trigger] post.task_wf(x) by {
        assert(pre.task_wf(x));
    }
    assert forall|m: int| 0 <= m < post.n_mutex() implies post.outstanding(
        Resource { type_: ResourceType::Mutex, id: m as usize },
    ) == (if (#[trigger] post.mutex_at(m)).locked {
        1nat
    } else {
        0nat
    }) by {
        let r = Resource { type_: ResourceType::Mutex, id: m as usize };
        if m < pre.n_mutex() && m != i {
            assert(pre.mutex_at(m) == post.mutex_at(m));
            assert(pre.outstanding(r) == post.outstanding(r));
        } else {
            // the new slot: no task can hold it
            assert forall|t: int|
                0 <= t < post.n_tasks() implies held_units_task(#[trigger] post.tasks@[t], r)
                == 0 by {
                broadcast use vstd::seq_lib::group_to_multiset_ensures;

                assert(pre.task_wf(t));
                match post.tasks@[t] {
                    Some(tk) => {
                        if tk.resources@.to_multiset().count(r) > 0 {
                            assert(tk.resources@.contains(r));
                            let k = choose|k: int|
                                0 <= k < tk.resources@.len() && tk.resources@[k] == r;
                            assert(pre.valid_resource(tk.resources@[k]));
                            if m == i && i < pre.n_mutex() {
                                // reused empty slot: previously no holder
                                assert(!pre.mutex_at(m).locked);
                                assert(pre.outstanding(r) == 0);
                                crate::process::lemma_held_units_single(
                                    pre.tasks@,
                                    r,
                                    t,
                                    pre.n_tasks(),
                                );
                            }
                            assert(false);
                        }
                    },
                    None => {},
                }
            }
            lemma_held_units_none(post.tasks@, r, post.n_tasks());
        }
    }
    assert forall|s: int| 0 <= s < post.n_sem() implies #[trigger] post.sem_slot_wf(s) by {
        assert(pre.sem_slot_wf(s));
    }
    assert forall|q: QueueId, i1: int|
        post.valid_qid(q) && 0 <= i1 < post.queue_at(q).len() implies #[trigger] post.queue_member_wf(
        q,
        i1,
    ) by {
        match q {
            QueueId::MutexQ(m) => {
                if m == i {
                    assert(post.queue_at(q).len() == 0);
                } else {
                    assert(pre.valid_qid(q));
                    assert(pre.queue_at(q) == post.queue_at(q));
                    assert(pre.queue_member_wf(q, i1));
                }
            },
            _ => {
                assert(pre.queue_at(q) == post.queue_at(q));
                assert(pre.queue_member_wf(q, i1));
            },
        }
    }
    assert forall|q1: QueueId, i1: int, q2: QueueId, i2: int|
        (post.valid_qid(q1) && post.valid_qid(q2) && 0 <= i1 < post.queue_at(q1).len() && 0 <= i2
            < post.queue_at(q2).len() && #[trigger] post.queue_at(q1)[i1]
            == #[trigger] post.queue_at(q2)[i2]) implies (q1 == q2 && i1 == i2) by {
        assert(post.queue_at(QueueId::MutexQ(i)).len() == 0);
        assert(pre.queue_at(q1) == post.queue_at(q1));
        assert(pre.queue_at(q2) == post.queue_at(q2));
        assert(pre.queue_at(q1)[i1] == pre.queue_at(q2)[i2]);
    }
}

/// Well-formedness is preserved by installing a fresh semaphore in
/// slot `id` (an empty slot, or one past the table end).
proof fn lemma_wf_after_sem_create(pre: Process, post: Process, id: usize)
    requires
        pre.wf(),
        pre.n_sem() < MAX_OBJECTS,
        (id as int) <= pre.n_sem(),
        (id as int) < pre.n_sem() ==> ((pre.semaphore_list@[id as int] is None)
            && post.semaphore_list@
            == pre.semaphore_list@.update(id as int, post.semaphore_list@[id as int])),
        (id as int) == pre.n_sem() ==> post.semaphore_list@ == pre.semaphore_list@.push(
            post.semaphore_list@[id as int],
        ),
        (post.semaphore_list@[id as int] matches Some(sm) && sm.wf()),
        post.sem_queue_at(id as int) == Seq::<usize>::empty(),
        post.pid == pre.pid,
        post.tasks == pre.tasks,
        post.mutex_list == pre.mutex_list,
        post.condvar_list == pre.condvar_list,
    ensures
        post.wf(),
{
    let i = id as int;
    assert forall|x: int| 0 <= x < post.n_tasks() implies #[trigger] post.task_wf(x) by {
        assert(pre.task_wf(x));
    }
    assert forall|m: int| 0 <= m < post.n_mutex() implies post.outstanding(
        Resource { type_: ResourceType::Mutex, id: m as usize },
    ) == (if (#[trigger] post.mutex_at(m)).locked {
        1nat
    } else {
        0nat
    }) by {
        let r = Resource { type_: ResourceType::Mutex, id: m as usize };
        assert(pre.mutex_at(m) == post.mutex_at(m));
        assert(pre.outstanding(r) == post.outstanding(r));
    }
    assert forall|s: int| 0 <= s < post.n_sem() implies #[trigger] post.sem_slot_wf(s) by {
        if s != i {
            assert(pre.sem_slot_wf(s));
        }
    }
    assert forall|q: QueueId, i1: int|
        post.valid_qid(q) && 0 <= i1 < post.queue_at(q).len() implies #[trigger] post.queue_member_wf(
        q,
        i1,
    ) by {
        match q {
            QueueId::SemQ(s) => {
                if s == i {
                    assert(post.queue_at(q).len() == 0);
                } else {
                    assert(pre.valid_qid(q));
                    assert(pre.queue_at(q) == post.queue_at(q));
                    assert(pre.queue_member_wf(q, i1));
                }
            },
            _ => {
                assert(pre.queue_at(q) == post.queue_at(q));
                assert(pre.queue_member_wf(q, i1));
            },
        }
    }
    assert forall|q1: QueueId, i1: int, q2: QueueId, i2: int|
        (post.valid_qid(q1) && post.valid_qid(q2) && 0 <= i1 < post.queue_at(q1).len() && 0 <= i2
            < post.queue_at(q2).len() && #[trigger] post.queue_at(q1)[i1]
            == #[trigger] post.queue_at(q2)[i2]) implies (q1 == q2 && i1 == i2) by {
        assert(post.queue_at(QueueId::SemQ(i)).len() == 0);
        assert(pre.queue_at(q1) == post.queue_at(q1));
        assert(pre.queue_at(q2) == post.queue_at(q2));
        assert(pre.queue_at(q1)[i1] == pre.queue_at(q2)[i2]);
    }
}

/// Well-formedness is preserved by installing a fresh condition
/// variable in slot `id` (an empty slot, or one past the table end).
proof fn lemma_wf_after_cond_create(pre: Process, post: Process, id: usize)
    requires
        pre.wf(),
        pre.n_cond() < MAX_OBJECTS,
        (id as int) <= pre.n_cond(),
        (id as int) < pre.n_cond() ==> ((pre.condvar_list@[id as int] is None) && post.condvar_list@
            == pre.condvar_list@.update(id as int, post.condvar_list@[id as int])),
        (id as int) == pre.n_cond() ==> post.condvar_list@ == pre.condvar_list@.push(
            post.condvar_list@[id as int],
        ),
        post.condvar_list@[id as int] is Some,
        post.cond_queue_at(id as int) == Seq::<usize>::empty(),
        post.pid == pre.pid,
        post.tasks == pre.tasks,
        post.mutex_list == pre.mutex_list,
        post.semaphore_list == pre.semaphore_list,
    ensures
        post.wf(),
{
    let i = id as int;
    assert forall|x: int| 0 <= x < post.n_tasks() implies #[trigger] post.task_wf(x) by {
        assert(pre.task_wf(x));
    }
    assert forall|m: int| 0 <= m < post.n_mutex() implies post.outstanding(
        Resource { type_: ResourceType::Mutex, id: m as usize },
    ) == (if (#[trigger] post.mutex_at(m)).locked {
        1nat
    } else {
        0nat
    }) by {
        let r = Resource { type_: ResourceType::Mutex, id: m as usize };
        assert(pre.mutex_at(m) == post.mutex_at(m));
        assert(pre.outstanding(r) == post.outstanding(r));
    }
    assert forall|s: int| 0 <= s < post.n_sem() implies #[trigger] post.sem_slot_wf(s) by {
        assert(pre.sem_slot_wf(s));
    }
    assert forall|q: QueueId, i1: int|
        post.valid_qid(q) && 0 <= i1 < post.queue_at(q).len() implies #[trigger] post.queue_member_wf(
        q,
        i1,
    ) by {
        match q {
            QueueId::CondQ(c) => {
                if c == i {
                    assert(post.queue_at(q).len() == 0);
                } else {
                    assert(pre.valid_qid(q));
                    assert(pre.queue_at(q) == post.queue_at(q));
                    assert(pre.queue_member_wf(q, i1));
                }
            },
            _ => {
                assert(pre.queue_at(q) == post.queue_at(q));
                assert(pre.queue_member_wf(q, i1));
            },
        }
    }
    assert forall|q1: QueueId, i1: int, q2: QueueId, i2: int|
        (post.valid_qid(q1) && post.valid_qid(q2) && 0 <= i1 < post.queue_at(q1).len() && 0 <= i2
            < post.queue_at(q2).len() && #[trigger] post.queue_at(q1)[i1]
            == #[trigger] post.queue_at(q2)[i2]) implies (q1 == q2 && i1 == i2) by {
        assert(post.queue_at(QueueId::CondQ(i)).len() == 0);
        assert(pre.queue_at(q1) == post.queue_at(q1));
        assert(pre.queue_at(q2) == post.queue_at(q2));
        assert(pre.queue_at(q1)[i1] == pre.queue_at(q2)[i2]);
    }
}

/// A runnable task is in no wait queue: queue members are blocked.
/// This is what lets a syscall's caller join a queue as a fresh
/// arrival in the sense of the fairness theorem's `queue_wait_step`.
pub proof fn lemma_caller_not_queued(p: Process, tid: usize)
    requires
        p.wf(),
        p.caller_ok(tid as int),
    ensures
        p.not_queued(tid),
{
    assert forall|q: QueueId, i: int|
        p.valid_qid(q) && 0 <= i < p.queue_at(q).len() implies (#[trigger] p.queue_at(q)[i])
        != tid by {
        assert(p.queue_member_wf(q, i));
    }
}


/// A syscall caller joining a wait queue is a fresh arrival in the
/// sense of the fairness theorem: it sat in no queue, so for any two
/// established waiters the enqueue is a `queue_wait_step` — and a wake
/// is one definitionally, since it removes the front. Together these
/// let `lemma_fifo_fairness` apply to the queue of any synchronization
/// object across any run of syscalls.
pub proof fn lemma_enqueue_is_wait_step(p: Process, q: QueueId, tid: usize, a: usize, b: usize)
    requires
        p.wf(),
        p.caller_ok(tid as int),
        p.valid_qid(q),
        tid != a,
        tid != b,
    ensures
        crate::fairness::queue_wait_step(p.queue_at(q), p.queue_at(q).push(tid), a, b),
{
    lemma_caller_not_queued(p, tid);
    assert(!p.queue_at(q).contains(tid)) by {
        if p.queue_at(q).contains(tid) {
            let i = choose|i: int| 0 <= i < p.queue_at(q).len() && p.queue_at(q)[i] == tid;
            assert(p.queue_at(q)[i] != tid);
        }
    }
}

/// Process well-formedness implies the snapshot sanity the detector
/// asks for.
proof fn lemma_wf_detect_ok(p: Process)
    requires
        p.wf(),
    ensures
        detect_tasks_ok(p.tasks@, p.n_mutex(), p.n_sem()),
        detect_sems_ok(p.semaphore_list@),
{
    assert forall|t: int|
        0 <= t < p.tasks@.len() implies task_entries_ok(
        #[trigger] p.tasks@[t],
        p.n_mutex(),
        p.n_sem(),
    ) by {
        assert(p.task_wf(t));
        match p.tasks@[t] {
            Some(tk) => {
                assert forall|i: int|
                    0 <= i < tk.resources@.len() implies resource_ok(
                    #[trigger] tk.resources@[i],
                    p.n_mutex(),
                    p.n_sem(),
                ) by {
                    assert(p.valid_resource(tk.resources@[i]));
                }
            },
            None => {},
        }
    }
    assert forall|x: int|
        0 <= x < p.semaphore_list@.len() implies (match #[trigger] p.semaphore_list@[x] {
        Some(sm) => sm.count <= MAX_SEM_COUNT,
        None => true,
    }) by {
        assert(p.sem_slot_wf(x));
    }
}

/// Requests the mutex in slot `mutex_id` for task `tid`.
///
/// An unusable handle is refused with `-1`. With detection enabled,
/// a request the Banker's simulation cannot clear is refused with
/// `-0xDEAD` and nothing changes. Otherwise the caller's `need` is
/// recorded and one acquisition step runs: a free mutex is granted on
/// the spot (the resource moves into the caller's held list and `need`
/// clears); a held blocking mutex appends the caller to the FIFO wait
/// queue and blocks it; a held spinning mutex leaves the caller ready
/// to yield and retry, its `need` still recorded — a retry is the same
/// call, permitted because `need` already names this mutex.
pub fn sys_mutex_lock(process: &mut Process, tid: usize, mutex_id: usize) -> (rc: isize)
    requires
        old(process).wf(),
        old(process).caller_ok(tid as int),
        old(process).task_at(tid as int).resources@.len() < MAX_HELD,
        (old(process).task_at(tid as int).need matches Some(r) ==> r == (Resource {
            type_: ResourceType::Mutex,
            id: mutex_id,
        })),
    ensures
        final(process).wf(),
        ({
            let pre = *old(process);
            let post = *final(process);
            let mid = mutex_id as int;
            let res = Resource { type_: ResourceType::Mutex, id: mutex_id };
            if !pre.mutex_handle_ok(mid) {
                rc == -1 && post == pre
            } else if pre.deadlock_detect && pre.task_at(tid as int).need is None
                && detection_rejects(
                pre.tasks@,
                pre.mutex_list@,
                pre.semaphore_list@,
                res,
                tid as int,
            ) {
                rc == DEADLOCK_RC && post == pre
            } else {
                &&& rc == 0
                &&& post.pid == pre.pid
                &&& post.deadlock_detect == pre.deadlock_detect
                &&& post.semaphore_list == pre.semaphore_list
                &&& post.condvar_list == pre.condvar_list
                &&& post.n_tasks() == pre.n_tasks()
                &&& post.n_mutex() == pre.n_mutex()
                &&& (forall|t: int|
                    0 <= t < pre.n_tasks() && t != tid ==> post.tasks@[t] == #[trigger] pre.tasks@[t])
                &&& (forall|j: int|
                    0 <= j < pre.n_mutex() && j != mid ==> post.mutex_list@[j]
                        == #[trigger] pre.mutex_list@[j])
                &&& post.alive(tid as int)
                &&& post.task_at(tid as int).task_statistics == pre.task_at(
                    tid as int,
                ).task_statistics
                &&& post.mutex_at(mid).blocking == pre.mutex_at(mid).blocking
                &&& if !pre.mutex_at(mid).locked {
                    // immediate acquisition with direct bookkeeping
                    &&& post.mutex_at(mid).locked
                    &&& post.mutex_at(mid).queue == pre.mutex_at(mid).queue
                    &&& post.task_at(tid as int).task_status == pre.task_at(tid as int).task_status
                    &&& post.task_at(tid as int).need is None
                    &&& post.task_at(tid as int).resources@ == pre.task_at(
                        tid as int,
                    ).resources@.push(res)
                } else if pre.mutex_at(mid).blocking {
                    // FIFO blocking: the caller joins the wait queue
                    &&& post.mutex_at(mid).locked
                    &&& post.mutex_at(mid).queue == pre.mutex_at(mid).queue.push(tid)
                    &&& post.task_at(tid as int).task_status is Blocked
                    &&& post.task_at(tid as int).need == Some(res)
                    &&& post.task_at(tid as int).resources@ == pre.task_at(tid as int).resources@
                } else {
                    // spinning: yield and retry, nothing else changes
                    &&& post.mutex_at(mid) == pre.mutex_at(mid)
                    &&& post.task_at(tid as int).task_status is Ready
                    &&& post.task_at(tid as int).need == Some(res)
                    &&& post.task_at(tid as int).resources@ == pre.task_at(tid as int).resources@
                }
            }
        }),
{
    let ghost pre = *process;
    let res = Resource { type_: ResourceType::Mutex, id: mutex_id };
    if mutex_id >= process.mutex_list.len() {
        return -1;
    }
    let occupied = match &process.mutex_list[mutex_id] {
        Some(_) => true,
        None => false,
    };
    if !occupied {
        return -1;
    }
    let fresh_request = match &process.tasks[tid] {
        Some(tk) => tk.need.is_none(),
        None => false,
    };
    // a retry — the recorded `need` already names this mutex — was
    // approved when the request was first recorded; only a fresh
    // request is put to the detector
    if process.deadlock_detect && fresh_request {
        proof {
            lemma_wf_detect_ok(*process);
        }
        if deadlock_detected(
            &process.tasks,
            &process.mutex_list,
            &process.semaphore_list,
            ResourceType::Mutex,
            mutex_id,
            tid,
        ) {
            return DEADLOCK_RC;
        }
    }
    let mut tk = process.tasks.remove(tid).unwrap();
    tk.need = Some(res);
    let mut m = process.mutex_list.remove(mutex_id).unwrap();
    let acquired = m.lock(tid);
    if acquired {
        tk.confirm_getting_resource();
    } else {
        let blocking = match &m {
            MutexVariant::Blocking(_) => true,
            MutexVariant::Spin(_) => false,
        };
        if blocking {
            tk.task_status = TaskStatus::Blocked;
        } else {
            tk.task_status = TaskStatus::Ready;
        }
    }
    process.mutex_list.insert(mutex_id, Some(m));
    process.tasks.insert(tid, Some(tk));
    proof {
        let t = tid as int;
        let mid = mutex_id as int;
        let post = *process;
        assert(post.tasks@ =~= pre.tasks@.update(t, Some(tk)));
        assert(post.mutex_list@ =~= pre.mutex_list@.update(mid, Some(m)));
        lemma_caller_not_queued(pre, tid);
        lemma_wf_after_mutex_lock(pre, post, tid, mutex_id);
    }
    0
}

/// Well-formedness is preserved by one mutex-acquisition step.
proof fn lemma_wf_after_mutex_lock(pre: Process, post: Process, tid: usize, mutex_id: usize)
    requires
        pre.wf(),
        pre.caller_ok(tid as int),
        pre.mutex_handle_ok(mutex_id as int),
        pre.task_at(tid as int).resources@.len() < MAX_HELD,
        pre.not_queued(tid),
        post.pid == pre.pid,
        post.semaphore_list == pre.semaphore_list,
        post.condvar_list == pre.condvar_list,
        post.n_tasks() == pre.n_tasks(),
        post.n_mutex() == pre.n_mutex(),
        forall|x: int| 0 <= x < pre.n_tasks() && x != tid ==> post.tasks@[x] == #[trigger] pre.tasks@[x],
        forall|j: int|
            0 <= j < pre.n_mutex() && j != mutex_id ==> post.mutex_list@[j] == #[trigger] pre.mutex_list@[j],
        post.alive(tid as int),
        post.mutex_at(mutex_id as int).blocking == pre.mutex_at(mutex_id as int).blocking,
        ({
            let t = tid as int;
            let mid = mutex_id as int;
            let res = Resource { type_: ResourceType::Mutex, id: mutex_id };
            if !pre.mutex_at(mid).locked {
                &&& post.mutex_at(mid).locked
                &&& post.mutex_at(mid).queue == pre.mutex_at(mid).queue
                &&& post.task_at(t).task_status == pre.task_at(t).task_status
                &&& post.task_at(t).need is None
                &&& post.task_at(t).resources@ == pre.task_at(t).resources@.push(res)
            } else if pre.mutex_at(mid).blocking {
                &&& post.mutex_at(mid).locked
                &&& post.mutex_at(mid).queue == pre.mutex_at(mid).queue.push(tid)
                &&& post.task_at(t).task_status is Blocked
                &&& post.task_at(t).need == Some(res)
                &&& post.task_at(t).resources@ == pre.task_at(t).resources@
            } else {
                &&& post.mutex_at(mid) == pre.mutex_at(mid)
                &&& post.task_at(t).task_status is Ready
                &&& post.task_at(t).need == Some(res)
                &&& post.task_at(t).resources@ == pre.task_at(t).resources@
            }
        }),
    ensures
        post.wf(),
{
    broadcast use vstd::seq_lib::group_to_multiset_ensures;

    let t = tid as int;
    let mid = mutex_id as int;
    let res = Resource { type_: ResourceType::Mutex, id: mutex_id };
    let acquired = !pre.mutex_at(mid).locked;
    let blocking = pre.mutex_at(mid).blocking;
    assert(pre.task_wf(t));
    assert forall|x: int| 0 <= x < post.n_tasks() implies #[trigger] post.task_wf(x) by {
        assert(pre.task_wf(x));
    }
    assert forall|m: int| 0 <= m < post.n_mutex() implies post.outstanding(
        Resource { type_: ResourceType::Mutex, id: m as usize },
    ) == (if (#[trigger] post.mutex_at(m)).locked {
        1nat
    } else {
        0nat
    }) by {
        let r = Resource { type_: ResourceType::Mutex, id: m as usize };
        lemma_held_units_update(pre.tasks@, post.tasks@, t, r, pre.n_tasks());
        assert(pre.outstanding(r) == (if pre.mutex_at(m).locked {
            1nat
        } else {
            0nat
        }));
        if acquired {
            if m == mid {
                assert(held_units_task(post.tasks@[t], r) == held_units_task(pre.tasks@[t], r)
                    + 1);
            } else {
                assert(held_units_task(post.tasks@[t], r) == held_units_task(pre.tasks@[t], r));
                assert(post.mutex_at(m) == pre.mutex_at(m));
            }
        } else {
            assert(held_units_task(post.tasks@[t], r) == held_units_task(pre.tasks@[t], r));
            if m != mid {
                assert(post.mutex_at(m) == pre.mutex_at(m));
            } else {
                assert(post.mutex_at(m).locked == pre.mutex_at(m).locked);
            }
        }
    }
    assert forall|x: int| 0 <= x < post.n_sem() implies #[trigger] post.sem_slot_wf(x) by {
        assert(pre.sem_slot_wf(x));
    }
    // queues: only the blocking-contention case changes one queue
    assert forall|q: QueueId, i: int|
        post.valid_qid(q) && 0 <= i < post.queue_at(q).len() implies #[trigger] post.queue_member_wf(
        q,
        i,
    ) by {
        let grew = !acquired && blocking && q == QueueId::MutexQ(mid);
        if grew && i == post.queue_at(q).len() - 1 {
            assert(post.queue_at(q)[i] == tid);
        } else {
            assert(post.queue_at(q) == pre.queue_at(q) || (grew && post.queue_at(q)
                == pre.queue_at(q).push(tid)));
            assert(pre.queue_member_wf(q, i));
            assert(pre.queue_at(q)[i] != tid);
        }
    }
    assert forall|q1: QueueId, i1: int, q2: QueueId, i2: int|
        (post.valid_qid(q1) && post.valid_qid(q2) && 0 <= i1 < post.queue_at(q1).len() && 0 <= i2
            < post.queue_at(q2).len() && #[trigger] post.queue_at(q1)[i1]
            == #[trigger] post.queue_at(q2)[i2]) implies (q1 == q2 && i1 == i2) by {
        let grew = !acquired && blocking;
        let new1 = grew && q1 == QueueId::MutexQ(mid) && i1 == post.queue_at(q1).len() - 1;
        let new2 = grew && q2 == QueueId::MutexQ(mid) && i2 == post.queue_at(q2).len() - 1;
        if new1 && new2 {
        } else if new1 {
            assert(post.queue_at(q1)[i1] == tid);
            assert(post.queue_at(q2)[i2] == pre.queue_at(q2)[i2]);
            assert(pre.queue_at(q2)[i2] != tid);
        } else if new2 {
            assert(post.queue_at(q2)[i2] == tid);
            assert(post.queue_at(q1)[i1] == pre.queue_at(q1)[i1]);
            assert(pre.queue_at(q1)[i1] != tid);
        } else {
            assert(post.queue_at(q1)[i1] == pre.queue_at(q1)[i1]);
            assert(post.queue_at(q2)[i2] == pre.queue_at(q2)[i2]);
        }
    }
}


/// First index of the entry for resource `{type_, id}` in a held
/// list, or its length when absent.
#[verifier::loop_isolation(false)]
fn find_held(resources: &Vec<Resource>, type_: ResourceType, id: usize) -> (pos: usize)
    ensures
        pos <= resources@.len(),
        pos < resources@.len() ==> resources@[pos as int] == (Resource { type_, id }) && (forall|
            k: int,
        |
            0 <= k < pos ==> resources@[k] != (Resource { type_, id })),
        pos == resources@.len() ==> !resources@.contains(Resource { type_, id }),
{
    let res = Resource { type_, id };
    let mut i: usize = 0;
    while i < resources.len()
        invariant
            i <= resources@.len(),
            forall|k: int| 0 <= k < i ==> resources@[k] != res,
        decreases resources@.len() - i,
    {
        if resources[i] == res {
            return i;
        }
        i = i + 1;
    }
    i
}

/// Removing index `k` by a swap with the last element takes exactly
/// one copy of `s[k]` out of the multiset of entries.
proof fn lemma_swap_remove_multiset(s: Seq<Resource>, k: int)
    requires
        0 <= k < s.len(),
    ensures
        s.update(k, s.last()).drop_last().to_multiset() == s.to_multiset().remove(s[k]),
{
    broadcast use vstd::seq_lib::group_to_multiset_ensures;

    let s2 = s.update(k, s.last());
    assert(s2.drop_last() =~= s2.remove(s2.len() - 1));
    if k < s.len() - 1 {
        assert(s2[s2.len() - 1] == s.last());
        assert(s2.drop_last().to_multiset() =~= s.to_multiset().remove(s[k]));
    } else {
        assert(s2 =~= s);
        assert(s2.drop_last().to_multiset() =~= s.to_multiset().remove(s[k]));
    }
}

/// Releases the mutex in slot `mutex_id` held by task `tid`.
///
/// An unusable handle is refused with `-1`. Otherwise the entry leaves
/// the caller's held list and one release step runs: with waiters
/// queued, ownership moves directly to the front waiter — it becomes
/// ready, its `need` clears, the resource enters its held list, and
/// the lock flag never shows an unlocked window; with none, the lock
/// flag clears. Releasing a mutex the caller does not hold is a kernel
/// protocol violation and is excluded by precondition.
pub fn sys_mutex_unlock(process: &mut Process, tid: usize, mutex_id: usize) -> (rc: isize)
    requires
        old(process).wf(),
        old(process).caller_ok(tid as int),
        old(process).mutex_handle_ok(mutex_id as int) ==> old(process).task_holds(
            tid as int,
            Resource { type_: ResourceType::Mutex, id: mutex_id },
        ),
    ensures
        final(process).wf(),
        ({
            let pre = *old(process);
            let post = *final(process);
            let mid = mutex_id as int;
            let res = Resource { type_: ResourceType::Mutex, id: mutex_id };
            if !pre.mutex_handle_ok(mid) {
                rc == -1 && post == pre
            } else {
                &&& rc == 0
                &&& post.pid == pre.pid
                &&& post.deadlock_detect == pre.deadlock_detect
                &&& post.semaphore_list == pre.semaphore_list
                &&& post.condvar_list == pre.condvar_list
                &&& post.n_tasks() == pre.n_tasks()
                &&& post.n_mutex() == pre.n_mutex()
                &&& (forall|j: int|
                    0 <= j < pre.n_mutex() && j != mid ==> post.mutex_list@[j]
                        == #[trigger] pre.mutex_list@[j])
                &&& post.mutex_at(mid).blocking == pre.mutex_at(mid).blocking
                &&& post.alive(tid as int)
                &&& post.task_at(tid as int).resources@.to_multiset() == pre.task_at(
                    tid as int,
                ).resources@.to_multiset().remove(res)
                &&& (exists|k: int|
                    #![auto]
                    {
                        &&& 0 <= k < pre.task_at(tid as int).resources@.len()
                        &&& pre.task_at(tid as int).resources@[k] == res
                        &&& (forall|x: int|
                            0 <= x < k ==> pre.task_at(tid as int).resources@[x] != res)
                        &&& post.task_at(tid as int).resources@ == pre.task_at(
                            tid as int,
                        ).resources@.update(k, pre.task_at(tid as int).resources@.last()).drop_last()
                    })
                &&& post.task_at(tid as int).need == pre.task_at(tid as int).need
                &&& post.task_at(tid as int).task_status == pre.task_at(tid as int).task_status
                &&& post.task_at(tid as int).task_statistics == pre.task_at(
                    tid as int,
                ).task_statistics
                &&& if pre.mutex_at(mid).queue.len() == 0 {
                    // no waiter: the lock clears
                    &&& !post.mutex_at(mid).locked
                    &&& post.mutex_at(mid).queue == pre.mutex_at(mid).queue
                    &&& (forall|x: int|
                        0 <= x < pre.n_tasks() && x != tid ==> post.tasks@[x]
                            == #[trigger] pre.tasks@[x])
                } else {
                    // direct hand-off to the longest waiter, with no
                    // unlocked window
                    let w = pre.mutex_at(mid).queue[0] as int;
                    &&& post.mutex_at(mid).locked
                    &&& post.mutex_at(mid).queue == pre.mutex_at(mid).queue.drop_first()
                    &&& w != tid
                    &&& post.alive(w)
                    &&& post.task_at(w).task_status is Ready
                    &&& post.task_at(w).need is None
                    &&& post.task_at(w).resources@ == pre.task_at(w).resources@.push(res)
                    &&& post.task_at(w).task_statistics == pre.task_at(w).task_statistics
                    &&& (forall|x: int|
                        0 <= x < pre.n_tasks() && x != tid && x != w ==> post.tasks@[x]
                            == #[trigger] pre.tasks@[x])
                }
            }
        }),
{
    let ghost pre = *process;
    let res = Resource { type_: ResourceType::Mutex, id: mutex_id };
    if mutex_id >= process.mutex_list.len() {
        return -1;
    }
    let occupied = match &process.mutex_list[mutex_id] {
        Some(_) => true,
        None => false,
    };
    if !occupied {
        return -1;
    }
    // the caller gives the resource up
    let mut tk = process.tasks.remove(tid).unwrap();
    let pos = find_held(&tk.resources, ResourceType::Mutex, mutex_id);
    let ghost pre_res = tk.resources@;
    if pos < tk.resources.len() {
        let _ = tk.resources.swap_remove(pos);
    }
    proof {
        assert(pre_res.contains(res));
        assert(pos < pre_res.len());
        lemma_swap_remove_multiset(pre_res, pos as int);
    }
    process.tasks.insert(tid, Some(tk));
    proof {
        assert(process.tasks@ =~= pre.tasks@.update(tid as int, Some(tk)));
    }
    // the mutex is held (the caller holds it), so release is legal
    proof {
        lemma_mutex_locked_of_holder(pre, tid, mutex_id);
    }
    let mut m = process.mutex_list.remove(mutex_id).unwrap();
    let woken = m.unlock();
    process.mutex_list.insert(mutex_id, Some(m));
    proof {
        assert(process.mutex_list@ =~= pre.mutex_list@.update(mutex_id as int, Some(m)));
    }
    let ghost mid_state = *process;
    match woken {
        Some(w) => {
            proof {
                assert(pre.queue_member_wf(QueueId::MutexQ(mutex_id as int), 0));
                lemma_caller_not_queued(pre, tid);
            }
            let mut wt = process.tasks.remove(w).unwrap();
            wt.confirm_getting_resource();
            wt.task_status = TaskStatus::Ready;
            process.tasks.insert(w, Some(wt));
            proof {
                assert(process.tasks@ =~= mid_state.tasks@.update(w as int, Some(wt)));
            }
        },
        None => {},
    }
    proof {
        lemma_caller_not_queued(pre, tid);
        lemma_wf_after_mutex_unlock(pre, *process, tid, mutex_id);
    }
    0
}

/// A task that holds a mutex implies the mutex is locked.
proof fn lemma_mutex_locked_of_holder(p: Process, tid: usize, mutex_id: usize)
    requires
        p.wf(),
        0 <= (mutex_id as int) < p.n_mutex(),
        p.task_holds(tid as int, Resource { type_: ResourceType::Mutex, id: mutex_id }),
    ensures
        p.mutex_at(mutex_id as int).locked,
{
    broadcast use vstd::seq_lib::group_to_multiset_ensures;

    let res = Resource { type_: ResourceType::Mutex, id: mutex_id };
    let t = tid as int;
    assert(p.task_at(t).resources@.to_multiset().count(res) > 0);
    assert(held_units_task(p.tasks@[t], res) >= 1);
    crate::process::lemma_held_units_single(p.tasks@, res, t, p.n_tasks());
    assert(p.outstanding(res) >= 1);
    assert(p.outstanding(res) == (if p.mutex_at(mutex_id as int).locked {
        1nat
    } else {
        0nat
    }));
}

/// Well-formedness is preserved by one mutex-release step.
proof fn lemma_wf_after_mutex_unlock(pre: Process, post: Process, tid: usize, mutex_id: usize)
    requires
        pre.wf(),
        pre.caller_ok(tid as int),
        pre.mutex_handle_ok(mutex_id as int),
        pre.task_holds(tid as int, Resource { type_: ResourceType::Mutex, id: mutex_id }),
        pre.not_queued(tid),
        post.pid == pre.pid,
        post.semaphore_list == pre.semaphore_list,
        post.condvar_list == pre.condvar_list,
        post.n_tasks() == pre.n_tasks(),
        post.n_mutex() == pre.n_mutex(),
        forall|j: int|
            0 <= j < pre.n_mutex() && j != mutex_id ==> post.mutex_list@[j] == #[trigger] pre.mutex_list@[j],
        post.mutex_at(mutex_id as int).blocking == pre.mutex_at(mutex_id as int).blocking,
        post.alive(tid as int),
        post.task_at(tid as int).resources@.to_multiset() == pre.task_at(
            tid as int,
        ).resources@.to_multiset().remove(Resource { type_: ResourceType::Mutex, id: mutex_id }),
        forall|i: int|
            0 <= i < post.task_at(tid as int).resources@.len() ==> pre.task_at(
                tid as int,
            ).resources@.contains(#[trigger] post.task_at(tid as int).resources@[i]),
        post.task_at(tid as int).resources@.len() == pre.task_at(tid as int).resources@.len() - 1,
        post.task_at(tid as int).need == pre.task_at(tid as int).need,
        post.task_at(tid as int).task_status == pre.task_at(tid as int).task_status,
        ({
            let mid = mutex_id as int;
            let res = Resource { type_: ResourceType::Mutex, id: mutex_id };
            if pre.mutex_at(mid).queue.len() == 0 {
                &&& !post.mutex_at(mid).locked
                &&& post.mutex_at(mid).queue == pre.mutex_at(mid).queue
                &&& (forall|x: int|
                    0 <= x < pre.n_tasks() && x != tid ==> post.tasks@[x] == #[trigger] pre.tasks@[x])
            } else {
                let w = pre.mutex_at(mid).queue[0] as int;
                &&& post.mutex_at(mid).locked
                &&& post.mutex_at(mid).queue == pre.mutex_at(mid).queue.drop_first()
                &&& w != tid
                &&& post.alive(w)
                &&& post.task_at(w).task_status is Ready
                &&& post.task_at(w).need is None
                &&& post.task_at(w).resources@ == pre.task_at(w).resources@.push(res)
                &&& (forall|x: int|
                    0 <= x < pre.n_tasks() && x != tid && x != w ==> post.tasks@[x]
                        == #[trigger] pre.tasks@[x])
            }
        }),
    ensures
        post.wf(),
{
    broadcast use vstd::seq_lib::group_to_multiset_ensures;

    let t = tid as int;
    let mid = mutex_id as int;
    let res = Resource { type_: ResourceType::Mutex, id: mutex_id };
    let handoff = pre.mutex_at(mid).queue.len() > 0;
    let w = pre.mutex_at(mid).queue[0] as int;
    let qm = QueueId::MutexQ(mid);
    assert(pre.task_wf(t));
    if handoff {
        assert(pre.queue_member_wf(qm, 0));
        assert(pre.task_at(w).need == Some(res));
    }
    assert forall|x: int| 0 <= x < post.n_tasks() implies #[trigger] post.task_wf(x) by {
        assert(pre.task_wf(x));
        if x == t {
            assert forall|i: int|
                0 <= i < post.task_at(t).resources@.len() implies post.valid_resource(
                #[trigger] post.task_at(t).resources@[i],
            ) by {
                let r2 = post.task_at(t).resources@[i];
                assert(pre.task_at(t).resources@.contains(r2));
                let k2 = choose|k2: int|
                    0 <= k2 < pre.task_at(t).resources@.len() && pre.task_at(t).resources@[k2]
                        == r2;
                assert(pre.valid_resource(pre.task_at(t).resources@[k2]));
            }
        }
    }
    assert forall|m: int| 0 <= m < post.n_mutex() implies post.outstanding(
        Resource { type_: ResourceType::Mutex, id: m as usize },
    ) == (if (#[trigger] post.mutex_at(m)).locked {
        1nat
    } else {
        0nat
    }) by {
        let r = Resource { type_: ResourceType::Mutex, id: m as usize };
        assert(pre.outstanding(r) == (if pre.mutex_at(m).locked {
            1nat
        } else {
            0nat
        }));
        if handoff {
            let mid1 = pre.tasks@.update(t, post.tasks@[t]);
            lemma_held_units_update(pre.tasks@, mid1, t, r, pre.n_tasks());
            lemma_held_units_update(mid1, post.tasks@, w, r, pre.n_tasks());
            assert(mid1[w] == pre.tasks@[w]);
            if m == mid {
                assert(held_units_task(post.tasks@[t], r) + 1 == held_units_task(
                    pre.tasks@[t],
                    r,
                ));
                assert(held_units_task(post.tasks@[w], r) == held_units_task(pre.tasks@[w], r)
                    + 1);
            } else {
                assert(held_units_task(post.tasks@[t], r) == held_units_task(pre.tasks@[t], r));
                assert(held_units_task(post.tasks@[w], r) == held_units_task(pre.tasks@[w], r));
                assert(post.mutex_at(m) == pre.mutex_at(m));
            }
        } else {
            lemma_held_units_update(pre.tasks@, post.tasks@, t, r, pre.n_tasks());
            if m == mid {
                assert(held_units_task(post.tasks@[t], r) + 1 == held_units_task(
                    pre.tasks@[t],
                    r,
                ));
            } else {
                assert(held_units_task(post.tasks@[t], r) == held_units_task(pre.tasks@[t], r));
                assert(post.mutex_at(m) == pre.mutex_at(m));
            }
        }
    }
    assert forall|x: int| 0 <= x < post.n_sem() implies #[trigger] post.sem_slot_wf(x) by {
        assert(pre.sem_slot_wf(x));
    }
    assert forall|q: QueueId, i: int|
        post.valid_qid(q) && 0 <= i < post.queue_at(q).len() implies #[trigger] post.queue_member_wf(
        q,
        i,
    ) by {
        if handoff && q == qm {
            assert(post.queue_at(q) == pre.queue_at(q).drop_first());
            assert(post.queue_at(q)[i] == pre.queue_at(q)[i + 1]);
            assert(pre.queue_member_wf(q, i + 1));
            let member = pre.queue_at(q)[i + 1] as int;
            assert(member != t);
            assert(member != w) by {
                if member == w {
                    assert(pre.queue_at(qm)[i + 1] == pre.queue_at(qm)[0]);
                }
            }
        } else {
            assert(post.queue_at(q) == pre.queue_at(q));
            assert(pre.queue_member_wf(q, i));
            let member = pre.queue_at(q)[i] as int;
            assert(member != t);
            if handoff {
                assert(member != w) by {
                    if member == w {
                        assert(pre.queue_at(q)[i] == pre.queue_at(qm)[0]);
                    }
                }
            }
        }
    }
    assert forall|q1: QueueId, i1: int, q2: QueueId, i2: int|
        (post.valid_qid(q1) && post.valid_qid(q2) && 0 <= i1 < post.queue_at(q1).len() && 0 <= i2
            < post.queue_at(q2).len() && #[trigger] post.queue_at(q1)[i1]
            == #[trigger] post.queue_at(q2)[i2]) implies (q1 == q2 && i1 == i2) by {
        let p1 = if handoff && q1 == qm {
            i1 + 1
        } else {
            i1
        };
        let p2 = if handoff && q2 == qm {
            i2 + 1
        } else {
            i2
        };
        assert(post.queue_at(q1)[i1] == pre.queue_at(q1)[p1]);
        assert(post.queue_at(q2)[i2] == pre.queue_at(q2)[p2]);
    }
}


/// A wait queue holds pairwise-distinct live tasks, so it can never be
/// longer than the task table.
proof fn lemma_queue_len_bound(p: Process, q: QueueId)
    requires
        p.wf(),
        p.valid_qid(q),
    ensures
        p.queue_at(q).len() <= p.n_tasks(),
{
    assert forall|i: int, j: int|
        0 <= i < j < p.queue_at(q).len() implies p.queue_at(q)[i] != p.queue_at(q)[j] by {
        if p.queue_at(q)[i] == p.queue_at(q)[j] {
            assert(false);
        }
    }
    assert forall|i: int|
        0 <= i < p.queue_at(q).len() implies (#[trigger] p.queue_at(q)[i]) < p.n_tasks() by {
        assert(p.queue_member_wf(q, i));
    }
    crate::process::lemma_distinct_bounded(p.queue_at(q), p.n_tasks());
}

/// Requests one unit of the semaphore in slot `sem_id` for task
/// `tid`.
///
/// An unusable handle is refused with `-1`. With detection enabled, a
/// request the Banker's simulation cannot clear is refused with
/// `-0xDEAD` and nothing changes. Otherwise the count drops by one: a
/// positive prior count grants a unit on the spot (recorded in the
/// caller's held list); otherwise the caller records its `need`, joins
/// the FIFO wait queue and blocks. Either way the conserved budget —
/// outstanding grants plus available units — is unchanged.
pub fn sys_semaphore_down(process: &mut Process, tid: usize, sem_id: usize) -> (rc: isize)
    requires
        old(process).wf(),
        old(process).caller_ok(tid as int),
        old(process).task_at(tid as int).resources@.len() < MAX_HELD,
        (old(process).task_at(tid as int).need matches Some(r) ==> r == (Resource {
            type_: ResourceType::Semaphore,
            id: sem_id,
        })),
    ensures
        final(process).wf(),
        ({
            let pre = *old(process);
            let post = *final(process);
            let sid = sem_id as int;
            let res = Resource { type_: ResourceType::Semaphore, id: sem_id };
            if !pre.sem_handle_ok(sid) {
                rc == -1 && post == pre
            } else if pre.deadlock_detect && pre.task_at(tid as int).need is None
                && detection_rejects(
                pre.tasks@,
                pre.mutex_list@,
                pre.semaphore_list@,
                res,
                tid as int,
            ) {
                rc == DEADLOCK_RC && post == pre
            } else {
                &&& rc == 0
                &&& post.pid == pre.pid
                &&& post.deadlock_detect == pre.deadlock_detect
                &&& post.mutex_list == pre.mutex_list
                &&& post.condvar_list == pre.condvar_list
                &&& post.n_tasks() == pre.n_tasks()
                &&& post.n_sem() == pre.n_sem()
                &&& (forall|t: int|
                    0 <= t < pre.n_tasks() && t != tid ==> post.tasks@[t] == #[trigger] pre.tasks@[t])
                &&& (forall|j: int|
                    0 <= j < pre.n_sem() && j != sid ==> post.semaphore_list@[j]
                        == #[trigger] pre.semaphore_list@[j])
                &&& post.alive(tid as int)
                &&& post.task_at(tid as int).task_statistics == pre.task_at(
                    tid as int,
                ).task_statistics
                &&& post.sem_count_at(sid) == pre.sem_count_at(sid) - 1
                &&& post.sem_budget(sid) == pre.sem_budget(sid)
                &&& if pre.sem_count_at(sid) > 0 {
                    // a unit is available: granted on the spot
                    &&& post.sem_queue_at(sid) == pre.sem_queue_at(sid)
                    &&& post.task_at(tid as int).task_status == pre.task_at(tid as int).task_status
                    &&& post.task_at(tid as int).need is None
                    &&& post.task_at(tid as int).resources@ == pre.task_at(
                        tid as int,
                    ).resources@.push(res)
                } else {
                    // no unit: queue FIFO and block
                    &&& post.sem_queue_at(sid) == pre.sem_queue_at(sid).push(tid)
                    &&& post.task_at(tid as int).task_status is Blocked
                    &&& post.task_at(tid as int).need == Some(res)
                    &&& post.task_at(tid as int).resources@ == pre.task_at(tid as int).resources@
                }
            }
        }),
{
    let ghost pre = *process;
    let res = Resource { type_: ResourceType::Semaphore, id: sem_id };
    if sem_id >= process.semaphore_list.len() {
        return -1;
    }
    let occupied = match &process.semaphore_list[sem_id] {
        Some(_) => true,
        None => false,
    };
    if !occupied {
        return -1;
    }
    let fresh_request = match &process.tasks[tid] {
        Some(tk) => tk.need.is_none(),
        None => false,
    };
    // a retry — the recorded `need` already names this semaphore —
    // was approved when the request was first recorded; only a fresh
    // request is put to the detector
    if process.deadlock_detect && fresh_request {
        proof {
            lemma_wf_detect_ok(*process);
        }
        if deadlock_detected(
            &process.tasks,
            &process.mutex_list,
            &process.semaphore_list,
            ResourceType::Semaphore,
            sem_id,
            tid,
        ) {
            return DEADLOCK_RC;
        }
    }
    proof {
        assert(pre.sem_slot_wf(sem_id as int));
        lemma_queue_len_bound(pre, QueueId::SemQ(sem_id as int));
    }
    let mut tk = process.tasks.remove(tid).unwrap();
    tk.need = Some(res);
    let mut sm = process.semaphore_list.remove(sem_id).unwrap();
    let acquired = sm.down(tid);
    if acquired {
        tk.confirm_getting_resource();
    } else {
        tk.task_status = TaskStatus::Blocked;
    }
    process.semaphore_list.insert(sem_id, Some(sm));
    process.tasks.insert(tid, Some(tk));
    proof {
        let t = tid as int;
        let sid = sem_id as int;
        let post = *process;
        assert(post.tasks@ =~= pre.tasks@.update(t, Some(tk)));
        assert(post.semaphore_list@ =~= pre.semaphore_list@.update(sid, Some(sm)));
        lemma_caller_not_queued(pre, tid);
        lemma_wf_after_sem_down(pre, post, tid, sem_id);
        broadcast use vstd::seq_lib::group_to_multiset_ensures;

        lemma_held_units_update(pre.tasks@, post.tasks@, t, res, pre.n_tasks());
    }
    0
}

/// Well-formedness is preserved by one semaphore-acquisition step.
proof fn lemma_wf_after_sem_down(pre: Process, post: Process, tid: usize, sem_id: usize)
    requires
        pre.wf(),
        pre.caller_ok(tid as int),
        pre.sem_handle_ok(sem_id as int),
        pre.task_at(tid as int).resources@.len() < MAX_HELD,
        pre.not_queued(tid),
        post.pid == pre.pid,
        post.mutex_list == pre.mutex_list,
        post.condvar_list == pre.condvar_list,
        post.n_tasks() == pre.n_tasks(),
        post.n_sem() == pre.n_sem(),
        forall|x: int| 0 <= x < pre.n_tasks() && x != tid ==> post.tasks@[x] == #[trigger] pre.tasks@[x],
        forall|j: int|
            0 <= j < pre.n_sem() && j != sem_id ==> post.semaphore_list@[j] == #[trigger] pre.semaphore_list@[j],
        post.alive(tid as int),
        post.semaphore_list@[sem_id as int] matches Some(sm2) && sm2.wf(),
        post.sem_count_at(sem_id as int) == pre.sem_count_at(sem_id as int) - 1,
        ({
            let t = tid as int;
            let sid = sem_id as int;
            let res = Resource { type_: ResourceType::Semaphore, id: sem_id };
            if pre.sem_count_at(sid) > 0 {
                &&& post.sem_queue_at(sid) == pre.sem_queue_at(sid)
                &&& post.task_at(t).task_status == pre.task_at(t).task_status
                &&& post.task_at(t).need is None
                &&& post.task_at(t).resources@ == pre.task_at(t).resources@.push(res)
            } else {
                &&& post.sem_queue_at(sid) == pre.sem_queue_at(sid).push(tid)
                &&& post.task_at(t).task_status is Blocked
                &&& post.task_at(t).need == Some(res)
                &&& post.task_at(t).resources@ == pre.task_at(t).resources@
            }
        }),
    ensures
        post.wf(),
{
    broadcast use vstd::seq_lib::group_to_multiset_ensures;

    let t = tid as int;
    let sid = sem_id as int;
    let res = Resource { type_: ResourceType::Semaphore, id: sem_id };
    let acquired = pre.sem_count_at(sid) > 0;
    let qs = QueueId::SemQ(sid);
    assert(pre.task_wf(t));
    assert forall|x: int| 0 <= x < post.n_tasks() implies #[trigger] post.task_wf(x) by {
        assert(pre.task_wf(x));
    }
    assert forall|m: int| 0 <= m < post.n_mutex() implies post.outstanding(
        Resource { type_: ResourceType::Mutex, id: m as usize },
    ) == (if (#[trigger] post.mutex_at(m)).locked {
        1nat
    } else {
        0nat
    }) by {
        let r = Resource { type_: ResourceType::Mutex, id: m as usize };
        lemma_held_units_update(pre.tasks@, post.tasks@, t, r, pre.n_tasks());
        assert(held_units_task(post.tasks@[t], r) == held_units_task(pre.tasks@[t], r));
        assert(post.mutex_at(m) == pre.mutex_at(m));
        assert(pre.outstanding(r) == (if pre.mutex_at(m).locked {
            1nat
        } else {
            0nat
        }));
    }
    assert forall|x: int| 0 <= x < post.n_sem() implies #[trigger] post.sem_slot_wf(x) by {
        if x != sid {
            assert(pre.sem_slot_wf(x));
        }
    }
    assert forall|q: QueueId, i: int|
        post.valid_qid(q) && 0 <= i < post.queue_at(q).len() implies #[trigger] post.queue_member_wf(
        q,
        i,
    ) by {
        let grew = !acquired && q == qs;
        if grew && i == post.queue_at(q).len() - 1 {
            assert(post.queue_at(q)[i] == tid);
        } else {
            assert(post.queue_at(q) == pre.queue_at(q) || (grew && post.queue_at(q)
                == pre.queue_at(q).push(tid)));
            assert(pre.queue_member_wf(q, i));
            assert(pre.queue_at(q)[i] != tid);
        }
    }
    assert forall|q1: QueueId, i1: int, q2: QueueId, i2: int|
        (post.valid_qid(q1) && post.valid_qid(q2) && 0 <= i1 < post.queue_at(q1).len() && 0 <= i2
            < post.queue_at(q2).len() && #[trigger] post.queue_at(q1)[i1]
            == #[trigger] post.queue_at(q2)[i2]) implies (q1 == q2 && i1 == i2) by {
        let grew = !acquired;
        let new1 = grew && q1 == qs && i1 == post.queue_at(q1).len() - 1;
        let new2 = grew && q2 == qs && i2 == post.queue_at(q2).len() - 1;
        if new1 && new2 {
        } else if new1 {
            assert(post.queue_at(q1)[i1] == tid);
            assert(post.queue_at(q2)[i2] == pre.queue_at(q2)[i2]);
            assert(pre.queue_at(q2)[i2] != tid);
        } else if new2 {
            assert(post.queue_at(q2)[i2] == tid);
            assert(post.queue_at(q1)[i1] == pre.queue_at(q1)[i1]);
            assert(pre.queue_at(q1)[i1] != tid);
        } else {
            assert(post.queue_at(q1)[i1] == pre.queue_at(q1)[i1]);
            assert(post.queue_at(q2)[i2] == pre.queue_at(q2)[i2]);
        }
    }
}


/// Releases one unit of the semaphore in slot `sem_id` on behalf of
/// task `tid`.
///
/// An unusable handle is refused with `-1`. One recorded grant of this
/// semaphore, if the caller has one, leaves its held list (a task may
/// also `up` a semaphore it never downed — a producer). The count
/// rises by one; if any task is waiting, the freed unit is handed
/// directly to the front waiter, which becomes ready with the grant
/// recorded — there is no window in which the unit is available to a
/// non-queued task. The conserved budget — outstanding grants plus
/// available units — rises by one exactly when the caller returned a
/// unit it had not recorded.
pub fn sys_semaphore_up(process: &mut Process, tid: usize, sem_id: usize) -> (rc: isize)
    requires
        old(process).wf(),
        old(process).caller_ok(tid as int),
        old(process).sem_handle_ok(sem_id as int) ==> old(process).sem_count_at(sem_id as int)
            < MAX_SEM_COUNT,
    ensures
        final(process).wf(),
        ({
            let pre = *old(process);
            let post = *final(process);
            let sid = sem_id as int;
            let res = Resource { type_: ResourceType::Semaphore, id: sem_id };
            if !pre.sem_handle_ok(sid) {
                rc == -1 && post == pre
            } else {
                let held0 = pre.task_at(tid as int).resources@;
                &&& rc == 0
                &&& post.pid == pre.pid
                &&& post.deadlock_detect == pre.deadlock_detect
                &&& post.mutex_list == pre.mutex_list
                &&& post.condvar_list == pre.condvar_list
                &&& post.n_tasks() == pre.n_tasks()
                &&& post.n_sem() == pre.n_sem()
                &&& (forall|j: int|
                    0 <= j < pre.n_sem() && j != sid ==> post.semaphore_list@[j]
                        == #[trigger] pre.semaphore_list@[j])
                &&& post.alive(tid as int)
                &&& post.task_at(tid as int).need == pre.task_at(tid as int).need
                &&& post.task_at(tid as int).task_status == pre.task_at(tid as int).task_status
                &&& post.task_at(tid as int).task_statistics == pre.task_at(
                    tid as int,
                ).task_statistics
                &&& (if held0.contains(res) {
                    &&& post.task_at(tid as int).resources@.to_multiset()
                        == held0.to_multiset().remove(res)
                    &&& (exists|k: int|
                        #![auto]
                        {
                            &&& 0 <= k < held0.len()
                            &&& held0[k] == res
                            &&& (forall|x: int| 0 <= x < k ==> held0[x] != res)
                            &&& post.task_at(tid as int).resources@ == held0.update(
                                k,
                                held0.last(),
                            ).drop_last()
                        })
                    &&& post.sem_budget(sid) == pre.sem_budget(sid)
                } else {
                    &&& post.task_at(tid as int).resources@ == held0
                    &&& post.sem_budget(sid) == pre.sem_budget(sid) + 1
                })
                &&& post.sem_count_at(sid) == pre.sem_count_at(sid) + 1
                &&& if pre.sem_queue_at(sid).len() == 0 {
                    // no waiter: the unit stays available
                    &&& post.sem_queue_at(sid) == pre.sem_queue_at(sid)
                    &&& (forall|x: int|
                        0 <= x < pre.n_tasks() && x != tid ==> post.tasks@[x]
                            == #[trigger] pre.tasks@[x])
                } else {
                    // direct hand-off to the longest waiter
                    let w = pre.sem_queue_at(sid)[0] as int;
                    &&& post.sem_queue_at(sid) == pre.sem_queue_at(sid).drop_first()
                    &&& w != tid
                    &&& post.alive(w)
                    &&& post.task_at(w).task_status is Ready
                    &&& post.task_at(w).need is None
                    &&& post.task_at(w).resources@ == pre.task_at(w).resources@.push(res)
                    &&& post.task_at(w).task_statistics == pre.task_at(w).task_statistics
                    &&& (forall|x: int|
                        0 <= x < pre.n_tasks() && x != tid && x != w ==> post.tasks@[x]
                            == #[trigger] pre.tasks@[x])
                }
            }
        }),
{
    let ghost pre = *process;
    let res = Resource { type_: ResourceType::Semaphore, id: sem_id };
    if sem_id >= process.semaphore_list.len() {
        return -1;
    }
    let occupied = match &process.semaphore_list[sem_id] {
        Some(_) => true,
        None => false,
    };
    if !occupied {
        return -1;
    }
    // the caller returns its recorded grant, if it has one
    let mut tk = process.tasks.remove(tid).unwrap();
    let pos = find_held(&tk.resources, ResourceType::Semaphore, sem_id);
    let ghost pre_res = tk.resources@;
    if pos < tk.resources.len() {
        let _ = tk.resources.swap_remove(pos);
        proof {
            lemma_swap_remove_multiset(pre_res, pos as int);
        }
    }
    process.tasks.insert(tid, Some(tk));
    proof {
        assert(process.tasks@ =~= pre.tasks@.update(tid as int, Some(tk)));
        assert(pre.sem_slot_wf(sem_id as int));
    }
    let mut sm = process.semaphore_list.remove(sem_id).unwrap();
    let woken = sm.up();
    process.semaphore_list.insert(sem_id, Some(sm));
    proof {
        assert(process.semaphore_list@ =~= pre.semaphore_list@.update(sem_id as int, Some(sm)));
    }
    let ghost mid_state = *process;
    match woken {
        Some(w) => {
            proof {
                assert(pre.queue_member_wf(QueueId::SemQ(sem_id as int), 0));
                lemma_caller_not_queued(pre, tid);
            }
            let mut wt = process.tasks.remove(w).unwrap();
            wt.confirm_getting_resource();
            wt.task_status = TaskStatus::Ready;
            process.tasks.insert(w, Some(wt));
            proof {
                assert(process.tasks@ =~= mid_state.tasks@.update(w as int, Some(wt)));
            }
        },
        None => {},
    }
    proof {
        lemma_caller_not_queued(pre, tid);
        lemma_wf_after_sem_up(pre, *process, tid, sem_id);
        broadcast use vstd::seq_lib::group_to_multiset_ensures;

        let t = tid as int;
        let sid = sem_id as int;
        let post = *process;
        if pre.sem_queue_at(sid).len() == 0 {
            lemma_held_units_update(pre.tasks@, post.tasks@, t, res, pre.n_tasks());
        } else {
            let w = pre.sem_queue_at(sid)[0] as int;
            let mid1 = pre.tasks@.update(t, post.tasks@[t]);
            lemma_held_units_update(pre.tasks@, mid1, t, res, pre.n_tasks());
            lemma_held_units_update(mid1, post.tasks@, w, res, pre.n_tasks());
            assert(mid1[w] == pre.tasks@[w]);
        }
    }
    0
}

/// Well-formedness is preserved by one semaphore-release step.
proof fn lemma_wf_after_sem_up(pre: Process, post: Process, tid: usize, sem_id: usize)
    requires
        pre.wf(),
        pre.caller_ok(tid as int),
        pre.sem_handle_ok(sem_id as int),
        pre.sem_count_at(sem_id as int) < MAX_SEM_COUNT,
        pre.not_queued(tid),
        post.pid == pre.pid,
        post.mutex_list == pre.mutex_list,
        post.condvar_list == pre.condvar_list,
        post.n_tasks() == pre.n_tasks(),
        post.n_sem() == pre.n_sem(),
        forall|j: int|
            0 <= j < pre.n_sem() && j != sem_id ==> post.semaphore_list@[j] == #[trigger] pre.semaphore_list@[j],
        post.alive(tid as int),
        post.semaphore_list@[sem_id as int] matches Some(sm2) && sm2.wf(),
        post.task_at(tid as int).need == pre.task_at(tid as int).need,
        post.task_at(tid as int).task_status == pre.task_at(tid as int).task_status,
        post.task_at(tid as int).resources@.len() <= pre.task_at(tid as int).resources@.len(),
        forall|i: int|
            0 <= i < post.task_at(tid as int).resources@.len() ==> pre.task_at(
                tid as int,
            ).resources@.contains(#[trigger] post.task_at(tid as int).resources@[i]),
        (post.task_at(tid as int).resources@ == pre.task_at(tid as int).resources@
            || post.task_at(tid as int).resources@.to_multiset() == pre.task_at(
            tid as int,
        ).resources@.to_multiset().remove(Resource { type_: ResourceType::Semaphore, id: sem_id })),
        ({
            let sid = sem_id as int;
            let res = Resource { type_: ResourceType::Semaphore, id: sem_id };
            if pre.sem_queue_at(sid).len() == 0 {
                &&& post.sem_queue_at(sid) == pre.sem_queue_at(sid)
                &&& (forall|x: int|
                    0 <= x < pre.n_tasks() && x != tid ==> post.tasks@[x] == #[trigger] pre.tasks@[x])
            } else {
                let w = pre.sem_queue_at(sid)[0] as int;
                &&& post.sem_queue_at(sid) == pre.sem_queue_at(sid).drop_first()
                &&& w != tid
                &&& post.alive(w)
                &&& post.task_at(w).task_status is Ready
                &&& post.task_at(w).need is None
                &&& post.task_at(w).resources@ == pre.task_at(w).resources@.push(res)
                &&& (forall|x: int|
                    0 <= x < pre.n_tasks() && x != tid && x != w ==> post.tasks@[x]
                        == #[trigger] pre.tasks@[x])
            }
        }),
    ensures
        post.wf(),
{
    broadcast use vstd::seq_lib::group_to_multiset_ensures;

    let t = tid as int;
    let sid = sem_id as int;
    let res = Resource { type_: ResourceType::Semaphore, id: sem_id };
    let handoff = pre.sem_queue_at(sid).len() > 0;
    let w = pre.sem_queue_at(sid)[0] as int;
    let qs = QueueId::SemQ(sid);
    assert(pre.task_wf(t));
    if handoff {
        assert(pre.queue_member_wf(qs, 0));
        assert(pre.task_at(w).need == Some(res));
    }
    assert forall|x: int| 0 <= x < post.n_tasks() implies #[trigger] post.task_wf(x) by {
        assert(pre.task_wf(x));
        if x == t {
            assert forall|i: int|
                0 <= i < post.task_at(t).resources@.len() implies post.valid_resource(
                #[trigger] post.task_at(t).resources@[i],
            ) by {
                let r2 = post.task_at(t).resources@[i];
                assert(pre.task_at(t).resources@.contains(r2));
                let k2 = choose|k2: int|
                    0 <= k2 < pre.task_at(t).resources@.len() && pre.task_at(t).resources@[k2]
                        == r2;
                assert(pre.valid_resource(pre.task_at(t).resources@[k2]));
            }
        }
    }
    assert forall|m: int| 0 <= m < post.n_mutex() implies post.outstanding(
        Resource { type_: ResourceType::Mutex, id: m as usize },
    ) == (if (#[trigger] post.mutex_at(m)).locked {
        1nat
    } else {
        0nat
    }) by {
        let r = Resource { type_: ResourceType::Mutex, id: m as usize };
        assert(pre.outstanding(r) == (if pre.mutex_at(m).locked {
            1nat
        } else {
            0nat
        }));
        assert(post.mutex_at(m) == pre.mutex_at(m));
        assert(held_units_task(post.tasks@[t], r) == held_units_task(pre.tasks@[t], r));
        if handoff {
            let mid1 = pre.tasks@.update(t, post.tasks@[t]);
            lemma_held_units_update(pre.tasks@, mid1, t, r, pre.n_tasks());
            lemma_held_units_update(mid1, post.tasks@, w, r, pre.n_tasks());
            assert(mid1[w] == pre.tasks@[w]);
            assert(held_units_task(post.tasks@[w], r) == held_units_task(pre.tasks@[w], r));
        } else {
            lemma_held_units_update(pre.tasks@, post.tasks@, t, r, pre.n_tasks());
        }
    }
    assert forall|x: int| 0 <= x < post.n_sem() implies #[trigger] post.sem_slot_wf(x) by {
        if x != sid {
            assert(pre.sem_slot_wf(x));
        }
    }
    assert forall|q: QueueId, i: int|
        post.valid_qid(q) && 0 <= i < post.queue_at(q).len() implies #[trigger] post.queue_member_wf(
        q,
        i,
    ) by {
        if handoff && q == qs {
            assert(post.queue_at(q) == pre.queue_at(q).drop_first());
            assert(post.queue_at(q)[i] == pre.queue_at(q)[i + 1]);
            assert(pre.queue_member_wf(q, i + 1));
            let member = pre.queue_at(q)[i + 1] as int;
            assert(member != t);
            assert(member != w) by {
                if member == w {
                    assert(pre.queue_at(qs)[i + 1] == pre.queue_at(qs)[0]);
                }
            }
        } else {
            assert(post.queue_at(q) == pre.queue_at(q));
            assert(pre.queue_member_wf(q, i));
            let member = pre.queue_at(q)[i] as int;
            assert(member != t);
            if handoff {
                assert(member != w) by {
                    if member == w {
                        assert(pre.queue_at(q)[i] == pre.queue_at(qs)[0]);
                    }
                }
            }
        }
    }
    assert forall|q1: QueueId, i1: int, q2: QueueId, i2: int|
        (post.valid_qid(q1) && post.valid_qid(q2) && 0 <= i1 < post.queue_at(q1).len() && 0 <= i2
            < post.queue_at(q2).len() && #[trigger] post.queue_at(q1)[i1]
            == #[trigger] post.queue_at(q2)[i2]) implies (q1 == q2 && i1 == i2) by {
        let p1 = if handoff && q1 == qs {
            i1 + 1
        } else {
            i1
        };
        let p2 = if handoff && q2 == qs {
            i2 + 1
        } else {
            i2
        };
        assert(post.queue_at(q1)[i1] == pre.queue_at(q1)[p1]);
        assert(post.queue_at(q2)[i2] == pre.queue_at(q2)[p2]);
    }
}


/// Wakes the longest-waiting task on the condition variable in slot
/// `condvar_id`, if any: it becomes runnable, and nothing else — no
/// lock is granted, and its recorded `need` (the mutex it will
/// re-acquire) is untouched. Signalling with no waiters is a no-op;
/// signals are not buffered. An unusable handle is refused with `-1`.
pub fn sys_condvar_signal(process: &mut Process, condvar_id: usize) -> (rc: isize)
    requires
        old(process).wf(),
    ensures
        final(process).wf(),
        ({
            let pre = *old(process);
            let post = *final(process);
            let cid = condvar_id as int;
            if !pre.cond_handle_ok(cid) {
                rc == -1 && post == pre
            } else {
                &&& rc == 0
                &&& post.pid == pre.pid
                &&& post.deadlock_detect == pre.deadlock_detect
                &&& post.mutex_list == pre.mutex_list
                &&& post.semaphore_list == pre.semaphore_list
                &&& post.n_tasks() == pre.n_tasks()
                &&& post.n_cond() == pre.n_cond()
                &&& (forall|j: int|
                    0 <= j < pre.n_cond() && j != cid ==> post.condvar_list@[j]
                        == #[trigger] pre.condvar_list@[j])
                &&& if pre.cond_queue_at(cid).len() == 0 {
                    // no waiter: a no-op
                    post.cond_queue_at(cid) == pre.cond_queue_at(cid) && post.tasks == pre.tasks
                } else {
                    let w = pre.cond_queue_at(cid)[0] as int;
                    &&& post.cond_queue_at(cid) == pre.cond_queue_at(cid).drop_first()
                    &&& post.alive(w)
                    &&& post.task_at(w).task_status is Ready
                    &&& post.task_at(w).need == pre.task_at(w).need
                    &&& post.task_at(w).resources@ == pre.task_at(w).resources@
                    &&& post.task_at(w).task_statistics == pre.task_at(w).task_statistics
                    &&& (forall|x: int|
                        0 <= x < pre.n_tasks() && x != w ==> post.tasks@[x]
                            == #[trigger] pre.tasks@[x])
                }
            }
        }),
{
    let ghost pre = *process;
    if condvar_id >= process.condvar_list.len() {
        return -1;
    }
    let occupied = match &process.condvar_list[condvar_id] {
        Some(_) => true,
        None => false,
    };
    if !occupied {
        return -1;
    }
    let mut cv = process.condvar_list.remove(condvar_id).unwrap();
    let woken = cv.signal();
    process.condvar_list.insert(condvar_id, Some(cv));
    proof {
        assert(process.condvar_list@ =~= pre.condvar_list@.update(condvar_id as int, Some(cv)));
    }
    let ghost mid_state = *process;
    match woken {
        Some(w) => {
            proof {
                assert(pre.queue_member_wf(QueueId::CondQ(condvar_id as int), 0));
            }
            let mut wt = process.tasks.remove(w).unwrap();
            wt.task_status = TaskStatus::Ready;
            process.tasks.insert(w, Some(wt));
            proof {
                assert(process.tasks@ =~= mid_state.tasks@.update(w as int, Some(wt)));
            }
        },
        None => {},
    }
    proof {
        lemma_wf_after_cond_signal(pre, *process, condvar_id);
    }
    0
}

/// Well-formedness is preserved by one signal step.
proof fn lemma_wf_after_cond_signal(pre: Process, post: Process, condvar_id: usize)
    requires
        pre.wf(),
        pre.cond_handle_ok(condvar_id as int),
        post.pid == pre.pid,
        post.mutex_list == pre.mutex_list,
        post.semaphore_list == pre.semaphore_list,
        post.n_tasks() == pre.n_tasks(),
        post.n_cond() == pre.n_cond(),
        forall|j: int|
            0 <= j < pre.n_cond() && j != condvar_id ==> post.condvar_list@[j] == #[trigger] pre.condvar_list@[j],
        ({
            let cid = condvar_id as int;
            if pre.cond_queue_at(cid).len() == 0 {
                post.cond_queue_at(cid) == pre.cond_queue_at(cid) && post.tasks == pre.tasks
            } else {
                let w = pre.cond_queue_at(cid)[0] as int;
                &&& post.cond_queue_at(cid) == pre.cond_queue_at(cid).drop_first()
                &&& post.alive(w)
                &&& post.task_at(w).task_status is Ready
                &&& post.task_at(w).need == pre.task_at(w).need
                &&& post.task_at(w).resources@ == pre.task_at(w).resources@
                &&& (forall|x: int|
                    0 <= x < pre.n_tasks() && x != w ==> post.tasks@[x] == #[trigger] pre.tasks@[x])
            }
        }),
    ensures
        post.wf(),
{
    let cid = condvar_id as int;
    let qc = QueueId::CondQ(cid);
    if pre.cond_queue_at(cid).len() == 0 {
        assert forall|x: int| 0 <= x < post.n_tasks() implies #[trigger] post.task_wf(x) by {
            assert(pre.task_wf(x));
        }
        assert forall|m: int| 0 <= m < post.n_mutex() implies post.outstanding(
            Resource { type_: ResourceType::Mutex, id: m as usize },
        ) == (if (#[trigger] post.mutex_at(m)).locked {
            1nat
        } else {
            0nat
        }) by {
            let r = Resource { type_: ResourceType::Mutex, id: m as usize };
            assert(pre.outstanding(r) == (if pre.mutex_at(m).locked {
                1nat
            } else {
                0nat
            }));
            assert(post.mutex_at(m) == pre.mutex_at(m));
        }
        assert forall|x: int| 0 <= x < post.n_sem() implies #[trigger] post.sem_slot_wf(x) by {
            assert(pre.sem_slot_wf(x));
        }
        assert forall|q: QueueId, i: int|
            post.valid_qid(q) && 0 <= i < post.queue_at(q).len() implies #[trigger] post.queue_member_wf(
            q,
            i,
        ) by {
            assert(post.queue_at(q) == pre.queue_at(q));
            assert(pre.queue_member_wf(q, i));
        }
        assert forall|q1: QueueId, i1: int, q2: QueueId, i2: int|
            (post.valid_qid(q1) && post.valid_qid(q2) && 0 <= i1 < post.queue_at(q1).len() && 0
                <= i2 < post.queue_at(q2).len() && #[trigger] post.queue_at(q1)[i1]
                == #[trigger] post.queue_at(q2)[i2]) implies (q1 == q2 && i1 == i2) by {
            assert(post.queue_at(q1) == pre.queue_at(q1));
            assert(post.queue_at(q2) == pre.queue_at(q2));
            assert(pre.queue_at(q1)[i1] == pre.queue_at(q2)[i2]);
        }
    } else {
        let w = pre.cond_queue_at(cid)[0] as int;
        assert(pre.queue_member_wf(qc, 0));
        assert forall|x: int| 0 <= x < post.n_tasks() implies #[trigger] post.task_wf(x) by {
            assert(pre.task_wf(x));
        }
        assert forall|m: int| 0 <= m < post.n_mutex() implies post.outstanding(
            Resource { type_: ResourceType::Mutex, id: m as usize },
        ) == (if (#[trigger] post.mutex_at(m)).locked {
            1nat
        } else {
            0nat
        }) by {
            let r = Resource { type_: ResourceType::Mutex, id: m as usize };
            assert(pre.outstanding(r) == (if pre.mutex_at(m).locked {
                1nat
            } else {
                0nat
            }));
            assert(post.mutex_at(m) == pre.mutex_at(m));
            lemma_held_units_update(pre.tasks@, post.tasks@, w, r, pre.n_tasks());
            assert(held_units_task(post.tasks@[w], r) == held_units_task(pre.tasks@[w], r));
        }
        assert forall|x: int| 0 <= x < post.n_sem() implies #[trigger] post.sem_slot_wf(x) by {
            assert(pre.sem_slot_wf(x));
        }
        assert forall|q: QueueId, i: int|
            post.valid_qid(q) && 0 <= i < post.queue_at(q).len() implies #[trigger] post.queue_member_wf(
            q,
            i,
        ) by {
            if q == qc {
                assert(post.queue_at(q)[i] == pre.queue_at(q)[i + 1]);
                assert(pre.queue_member_wf(q, i + 1));
                let member = pre.queue_at(q)[i + 1] as int;
                assert(member != w) by {
                    if member == w {
                        assert(pre.queue_at(qc)[i + 1] == pre.queue_at(qc)[0]);
                    }
                }
            } else {
                assert(post.queue_at(q) == pre.queue_at(q));
                assert(pre.queue_member_wf(q, i));
                let member = pre.queue_at(q)[i] as int;
                assert(member != w) by {
                    if member == w {
                        assert(pre.queue_at(q)[i] == pre.queue_at(qc)[0]);
                    }
                }
            }
        }
        assert forall|q1: QueueId, i1: int, q2: QueueId, i2: int|
            (post.valid_qid(q1) && post.valid_qid(q2) && 0 <= i1 < post.queue_at(q1).len() && 0
                <= i2 < post.queue_at(q2).len() && #[trigger] post.queue_at(q1)[i1]
                == #[trigger] post.queue_at(q2)[i2]) implies (q1 == q2 && i1 == i2) by {
            let p1 = if q1 == qc {
                i1 + 1
            } else {
                i1
            };
            let p2 = if q2 == qc {
                i2 + 1
            } else {
                i2
            };
            assert(post.queue_at(q1)[i1] == pre.queue_at(q1)[p1]);
            assert(post.queue_at(q2)[i2] == pre.queue_at(q2)[p2]);
        }
    }
}


/// Blocks task `tid` on the condition variable in slot `condvar_id`,
/// releasing the mutex in slot `mutex_id` that it must currently
/// hold.
///
/// Either handle being unusable is refused with `-1`. Otherwise the
/// mutex entry leaves the caller's held list and the mutex is released
/// exactly as by `sys_mutex_unlock` (direct hand-off to its front
/// waiter when one is queued); the caller records the mutex as its
/// `need` — it must re-acquire it after waking (Mesa-style, the wakeup
/// grants no lock) — joins the condition variable's FIFO queue and
/// blocks.
pub fn sys_condvar_wait(process: &mut Process, tid: usize, condvar_id: usize, mutex_id: usize) -> (rc:
    isize)
    requires
        old(process).wf(),
        old(process).caller_ok(tid as int),
        old(process).task_at(tid as int).need is None,
        (old(process).cond_handle_ok(condvar_id as int) && old(process).mutex_handle_ok(
            mutex_id as int,
        )) ==> old(process).task_holds(
            tid as int,
            Resource { type_: ResourceType::Mutex, id: mutex_id },
        ),
    ensures
        final(process).wf(),
        ({
            let pre = *old(process);
            let post = *final(process);
            let cid = condvar_id as int;
            let mid = mutex_id as int;
            let res = Resource { type_: ResourceType::Mutex, id: mutex_id };
            if !(pre.cond_handle_ok(cid) && pre.mutex_handle_ok(mid)) {
                rc == -1 && post == pre
            } else {
                &&& rc == 0
                &&& post.pid == pre.pid
                &&& post.deadlock_detect == pre.deadlock_detect
                &&& post.semaphore_list == pre.semaphore_list
                &&& post.n_tasks() == pre.n_tasks()
                &&& post.n_mutex() == pre.n_mutex()
                &&& post.n_cond() == pre.n_cond()
                &&& (forall|j: int|
                    0 <= j < pre.n_mutex() && j != mid ==> post.mutex_list@[j]
                        == #[trigger] pre.mutex_list@[j])
                &&& (forall|j: int|
                    0 <= j < pre.n_cond() && j != cid ==> post.condvar_list@[j]
                        == #[trigger] pre.condvar_list@[j])
                &&& post.mutex_at(mid).blocking == pre.mutex_at(mid).blocking
                &&& post.cond_queue_at(cid) == pre.cond_queue_at(cid).push(tid)
                &&& post.alive(tid as int)
                &&& post.task_at(tid as int).resources@.to_multiset() == pre.task_at(
                    tid as int,
                ).resources@.to_multiset().remove(res)
                &&& (exists|k: int|
                    #![auto]
                    {
                        &&& 0 <= k < pre.task_at(tid as int).resources@.len()
                        &&& pre.task_at(tid as int).resources@[k] == res
                        &&& (forall|x: int|
                            0 <= x < k ==> pre.task_at(tid as int).resources@[x] != res)
                        &&& post.task_at(tid as int).resources@ == pre.task_at(
                            tid as int,
                        ).resources@.update(k, pre.task_at(tid as int).resources@.last()).drop_last()
                    })
                &&& post.task_at(tid as int).need == Some(res)
                &&& post.task_at(tid as int).task_status is Blocked
                &&& post.task_at(tid as int).task_statistics == pre.task_at(
                    tid as int,
                ).task_statistics
                &&& if pre.mutex_at(mid).queue.len() == 0 {
                    // no lock contender: the lock clears
                    &&& !post.mutex_at(mid).locked
                    &&& post.mutex_at(mid).queue == pre.mutex_at(mid).queue
                    &&& (forall|x: int|
                        0 <= x < pre.n_tasks() && x != tid ==> post.tasks@[x]
                            == #[trigger] pre.tasks@[x])
                } else {
                    // direct hand-off to the mutex's front waiter
                    let w = pre.mutex_at(mid).queue[0] as int;
                    &&& post.mutex_at(mid).locked
                    &&& post.mutex_at(mid).queue == pre.mutex_at(mid).queue.drop_first()
                    &&& w != tid
                    &&& post.alive(w)
                    &&& post.task_at(w).task_status is Ready
                    &&& post.task_at(w).need is None
                    &&& post.task_at(w).resources@ == pre.task_at(w).resources@.push(res)
                    &&& (forall|x: int|
                        0 <= x < pre.n_tasks() && x != tid && x != w ==> post.tasks@[x]
                            == #[trigger] pre.tasks@[x])
                }
            }
        }),
{
    let ghost pre = *process;
    let res = Resource { type_: ResourceType::Mutex, id: mutex_id };
    if condvar_id >= process.condvar_list.len() {
        return -1;
    }
    let cv_occupied = match &process.condvar_list[condvar_id] {
        Some(_) => true,
        None => false,
    };
    if !cv_occupied {
        return -1;
    }
    if mutex_id >= process.mutex_list.len() {
        return -1;
    }
    let occupied = match &process.mutex_list[mutex_id] {
        Some(_) => true,
        None => false,
    };
    if !occupied {
        return -1;
    }
    // the caller gives the mutex up and records it as what it will
    // need again on waking
    let mut tk = process.tasks.remove(tid).unwrap();
    let pos = find_held(&tk.resources, ResourceType::Mutex, mutex_id);
    let ghost pre_res = tk.resources@;
    if pos < tk.resources.len() {
        let _ = tk.resources.swap_remove(pos);
    }
    proof {
        assert(pre_res.contains(res));
        assert(pos < pre_res.len());
        lemma_swap_remove_multiset(pre_res, pos as int);
    }
    tk.need = Some(res);
    tk.task_status = TaskStatus::Blocked;
    process.tasks.insert(tid, Some(tk));
    proof {
        assert(process.tasks@ =~= pre.tasks@.update(tid as int, Some(tk)));
        lemma_mutex_locked_of_holder(pre, tid, mutex_id);
    }
    let mut m = process.mutex_list.remove(mutex_id).unwrap();
    let woken = m.unlock();
    process.mutex_list.insert(mutex_id, Some(m));
    proof {
        assert(process.mutex_list@ =~= pre.mutex_list@.update(mutex_id as int, Some(m)));
    }
    let ghost mid_state = *process;
    match woken {
        Some(w) => {
            proof {
                assert(pre.queue_member_wf(QueueId::MutexQ(mutex_id as int), 0));
                lemma_caller_not_queued(pre, tid);
            }
            let mut wt = process.tasks.remove(w).unwrap();
            wt.confirm_getting_resource();
            wt.task_status = TaskStatus::Ready;
            process.tasks.insert(w, Some(wt));
            proof {
                assert(process.tasks@ =~= mid_state.tasks@.update(w as int, Some(wt)));
            }
        },
        None => {},
    }
    let ghost mid2 = *process;
    let mut cv = process.condvar_list.remove(condvar_id).unwrap();
    cv.wait_enqueue(tid);
    process.condvar_list.insert(condvar_id, Some(cv));
    proof {
        assert(process.condvar_list@ =~= mid2.condvar_list@.update(condvar_id as int, Some(cv)));
        lemma_caller_not_queued(pre, tid);
        lemma_wf_after_cond_wait(pre, *process, tid, condvar_id, mutex_id);
    }
    0
}

/// Well-formedness is preserved by one wait step: the caller releases
/// its mutex (with hand-off), joins the condition variable's queue and
/// blocks.
proof fn lemma_wf_after_cond_wait(
    pre: Process,
    post: Process,
    tid: usize,
    condvar_id: usize,
    mutex_id: usize,
)
    requires
        pre.wf(),
        pre.caller_ok(tid as int),
        pre.cond_handle_ok(condvar_id as int),
        pre.mutex_handle_ok(mutex_id as int),
        pre.task_holds(tid as int, Resource { type_: ResourceType::Mutex, id: mutex_id }),
        pre.not_queued(tid),
        post.pid == pre.pid,
        post.semaphore_list == pre.semaphore_list,
        post.n_tasks() == pre.n_tasks(),
        post.n_mutex() == pre.n_mutex(),
        post.n_cond() == pre.n_cond(),
        forall|j: int|
            0 <= j < pre.n_mutex() && j != mutex_id ==> post.mutex_list@[j] == #[trigger] pre.mutex_list@[j],
        forall|j: int|
            0 <= j < pre.n_cond() && j != condvar_id ==> post.condvar_list@[j] == #[trigger] pre.condvar_list@[j],
        post.cond_queue_at(condvar_id as int) == pre.cond_queue_at(condvar_id as int).push(tid),
        post.alive(tid as int),
        post.task_at(tid as int).resources@.to_multiset() == pre.task_at(
            tid as int,
        ).resources@.to_multiset().remove(Resource { type_: ResourceType::Mutex, id: mutex_id }),
        forall|i: int|
            0 <= i < post.task_at(tid as int).resources@.len() ==> pre.task_at(
                tid as int,
            ).resources@.contains(#[trigger] post.task_at(tid as int).resources@[i]),
        post.task_at(tid as int).resources@.len() == pre.task_at(tid as int).resources@.len() - 1,
        post.task_at(tid as int).need == Some(Resource { type_: ResourceType::Mutex, id: mutex_id }),
        post.task_at(tid as int).task_status is Blocked,
        ({
            let mid = mutex_id as int;
            let res = Resource { type_: ResourceType::Mutex, id: mutex_id };
            if pre.mutex_at(mid).queue.len() == 0 {
                &&& !post.mutex_at(mid).locked
                &&& post.mutex_at(mid).queue == pre.mutex_at(mid).queue
                &&& (forall|x: int|
                    0 <= x < pre.n_tasks() && x != tid ==> post.tasks@[x] == #[trigger] pre.tasks@[x])
            } else {
                let w = pre.mutex_at(mid).queue[0] as int;
                &&& post.mutex_at(mid).locked
                &&& post.mutex_at(mid).queue == pre.mutex_at(mid).queue.drop_first()
                &&& w != tid
                &&& post.alive(w)
                &&& post.task_at(w).task_status is Ready
                &&& post.task_at(w).need is None
                &&& post.task_at(w).resources@ == pre.task_at(w).resources@.push(res)
                &&& (forall|x: int|
                    0 <= x < pre.n_tasks() && x != tid && x != w ==> post.tasks@[x]
                        == #[trigger] pre.tasks@[x])
            }
        }),
    ensures
        post.wf(),
{
    broadcast use vstd::seq_lib::group_to_multiset_ensures;

    let t = tid as int;
    let mid = mutex_id as int;
    let cid = condvar_id as int;
    let res = Resource { type_: ResourceType::Mutex, id: mutex_id };
    let handoff = pre.mutex_at(mid).queue.len() > 0;
    let w = pre.mutex_at(mid).queue[0] as int;
    let qm = QueueId::MutexQ(mid);
    let qc = QueueId::CondQ(cid);
    assert(pre.task_wf(t));
    if handoff {
        assert(pre.queue_member_wf(qm, 0));
        assert(pre.task_at(w).need == Some(res));
    }
    assert forall|x: int| 0 <= x < post.n_tasks() implies #[trigger] post.task_wf(x) by {
        assert(pre.task_wf(x));
        if x == t {
            assert forall|i: int|
                0 <= i < post.task_at(t).resources@.len() implies post.valid_resource(
                #[trigger] post.task_at(t).resources@[i],
            ) by {
                let r2 = post.task_at(t).resources@[i];
                assert(pre.task_at(t).resources@.contains(r2));
                let k2 = choose|k2: int|
                    0 <= k2 < pre.task_at(t).resources@.len() && pre.task_at(t).resources@[k2]
                        == r2;
                assert(pre.valid_resource(pre.task_at(t).resources@[k2]));
            }
        }
    }
    assert forall|m: int| 0 <= m < post.n_mutex() implies post.outstanding(
        Resource { type_: ResourceType::Mutex, id: m as usize },
    ) == (if (#[trigger] post.mutex_at(m)).locked {
        1nat
    } else {
        0nat
    }) by {
        let r = Resource { type_: ResourceType::Mutex, id: m as usize };
        assert(pre.outstanding(r) == (if pre.mutex_at(m).locked {
            1nat
        } else {
            0nat
        }));
        if handoff {
            let mid1 = pre.tasks@.update(t, post.tasks@[t]);
            lemma_held_units_update(pre.tasks@, mid1, t, r, pre.n_tasks());
            lemma_held_units_update(mid1, post.tasks@, w, r, pre.n_tasks());
            assert(mid1[w] == pre.tasks@[w]);
            if m == mid {
                assert(held_units_task(post.tasks@[t], r) + 1 == held_units_task(
                    pre.tasks@[t],
                    r,
                ));
                assert(held_units_task(post.tasks@[w], r) == held_units_task(pre.tasks@[w], r)
                    + 1);
            } else {
                assert(held_units_task(post.tasks@[t], r) == held_units_task(pre.tasks@[t], r));
                assert(held_units_task(post.tasks@[w], r) == held_units_task(pre.tasks@[w], r));
                assert(post.mutex_at(m) == pre.mutex_at(m));
            }
        } else {
            lemma_held_units_update(pre.tasks@, post.tasks@, t, r, pre.n_tasks());
            if m == mid {
                assert(held_units_task(post.tasks@[t], r) + 1 == held_units_task(
                    pre.tasks@[t],
                    r,
                ));
            } else {
                assert(held_units_task(post.tasks@[t], r) == held_units_task(pre.tasks@[t], r));
                assert(post.mutex_at(m) == pre.mutex_at(m));
            }
        }
    }
    assert forall|x: int| 0 <= x < post.n_sem() implies #[trigger] post.sem_slot_wf(x) by {
        assert(pre.sem_slot_wf(x));
    }
    assert forall|q: QueueId, i: int|
        post.valid_qid(q) && 0 <= i < post.queue_at(q).len() implies #[trigger] post.queue_member_wf(
        q,
        i,
    ) by {
        if q == qc && i == post.queue_at(q).len() - 1 {
            assert(post.queue_at(q)[i] == tid);
            assert(post.task_at(t).resources@.len() < MAX_HELD);
        } else if handoff && q == qm {
            assert(post.queue_at(q)[i] == pre.queue_at(q)[i + 1]);
            assert(pre.queue_member_wf(q, i + 1));
            let member = pre.queue_at(q)[i + 1] as int;
            assert(member != t);
            assert(member != w) by {
                if member == w {
                    assert(pre.queue_at(qm)[i + 1] == pre.queue_at(qm)[0]);
                }
            }
        } else {
            assert(post.queue_at(q)[i] == pre.queue_at(q)[i]);
            assert(pre.queue_member_wf(q, i));
            let member = pre.queue_at(q)[i] as int;
            assert(member != t);
            if handoff {
                assert(member != w) by {
                    if member == w {
                        assert(pre.queue_at(q)[i] == pre.queue_at(qm)[0]);
                    }
                }
            }
        }
    }
    assert forall|q1: QueueId, i1: int, q2: QueueId, i2: int|
        (post.valid_qid(q1) && post.valid_qid(q2) && 0 <= i1 < post.queue_at(q1).len() && 0 <= i2
            < post.queue_at(q2).len() && #[trigger] post.queue_at(q1)[i1]
            == #[trigger] post.queue_at(q2)[i2]) implies (q1 == q2 && i1 == i2) by {
        let new1 = q1 == qc && i1 == post.queue_at(q1).len() - 1;
        let new2 = q2 == qc && i2 == post.queue_at(q2).len() - 1;
        if new1 && new2 {
        } else if new1 {
            let p2 = if handoff && q2 == qm {
                i2 + 1
            } else {
                i2
            };
            assert(post.queue_at(q1)[i1] == tid);
            assert(post.queue_at(q2)[i2] == pre.queue_at(q2)[p2]);
            assert(pre.queue_at(q2)[p2] != tid);
        } else if new2 {
            let p1 = if handoff && q1 == qm {
                i1 + 1
            } else {
                i1
            };
            assert(post.queue_at(q2)[i2] == tid);
            assert(post.queue_at(q1)[i1] == pre.queue_at(q1)[p1]);
            assert(pre.queue_at(q1)[p1] != tid);
        } else {
            let p1 = if handoff && q1 == qm {
                i1 + 1
            } else {
                i1
            };
            let p2 = if handoff && q2 == qm {
                i2 + 1
            } else {
                i2
            };
            assert(post.queue_at(q1)[i1] == pre.queue_at(q1)[p1]);
            assert(post.queue_at(q2)[i2] == pre.queue_at(q2)[p2]);
        }
    }
}

} // verus!
