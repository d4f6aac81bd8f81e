//! Process state: the task table and the slot tables of synchronization
//! objects, together with the well-formedness invariant every syscall
//! preserves — most importantly mutual exclusion (a mutex is held by at
//! most one task) and the integrity of the FIFO wait queues (members
//! are alive, blocked, record the matching `need`, and no task sits in
//! two queues or twice in one).

use vstd::prelude::*;
use vstd::seq_lib::*;
use vstd::set_lib::*;
use crate::condvar::Condvar;
use crate::mutex::{Mutex, MutexVariant, MutexView};
use crate::semaphore::Semaphore;
use crate::task::{Resource, ResourceType, TaskControlBlock, TaskStatus};

verus! {

/// Largest number of task slots a process may have.
pub const MAX_TASKS: usize = 0x10000;

/// Largest number of slots any one synchronization-object table may
/// have.
pub const MAX_OBJECTS: usize = 0x10000;

/// Largest number of entries one task's held-resource list may have.
pub const MAX_HELD: usize = 0x10000;

/// Names one wait queue among all synchronization objects of a
/// process. Used only in specifications.
pub enum QueueId {
    MutexQ(int),
    SemQ(int),
    CondQ(int),
}

/// Units of resource `r` held by one (possibly absent) task: the number
/// of entries for `r` in its held-resource list.
pub open spec fn held_units_task(ot: Option<TaskControlBlock>, r: Resource) -> nat {
    match ot {
        Some(t) => t.resources@.to_multiset().count(r),
        None => 0,
    }
}

/// Units of resource `r` held by the first `n` tasks together.
pub open spec fn held_units_upto(tasks: Seq<Option<TaskControlBlock>>, r: Resource, n: int) -> nat
    decreases n,
{
    if n <= 0 {
        0
    } else {
        held_units_upto(tasks, r, n - 1) + held_units_task(tasks[n - 1], r)
    }
}

/// Process state: all threads of the process, the three
/// synchronization-object slot tables, and the deadlock-detection
/// toggle.
pub struct Process {
    pub pid: usize,
    pub tasks: Vec<Option<TaskControlBlock>>,
    pub mutex_list: Vec<Option<MutexVariant>>,
    pub semaphore_list: Vec<Option<Semaphore>>,
    pub condvar_list: Vec<Option<Condvar>>,
    pub deadlock_detect: bool,
}

impl Process {
    pub open spec fn n_tasks(self) -> int {
        self.tasks@.len() as int
    }

    pub open spec fn n_mutex(self) -> int {
        self.mutex_list@.len() as int
    }

    pub open spec fn n_sem(self) -> int {
        self.semaphore_list@.len() as int
    }

    pub open spec fn n_cond(self) -> int {
        self.condvar_list@.len() as int
    }

    /// Task slot `t` exists and holds a live task.
    pub open spec fn alive(self, t: int) -> bool {
        0 <= t < self.n_tasks() && self.tasks@[t] is Some
    }

    /// The task in slot `t` (meaningful when `alive(t)`).
    pub open spec fn task_at(self, t: int) -> TaskControlBlock {
        self.tasks@[t]->0
    }

    /// The abstract state of the mutex in slot `m`; an empty slot reads
    /// as an absent, unlocked object with no waiters.
    pub open spec fn mutex_at(self, m: int) -> MutexView {
        match self.mutex_list@[m] {
            Some(mx) => mx.model(),
            None => MutexView { locked: false, queue: Seq::empty(), blocking: false },
        }
    }

    /// Available-unit count of the semaphore in slot `s` (0 for an
    /// empty slot).
    pub open spec fn sem_count_at(self, s: int) -> int {
        match self.semaphore_list@[s] {
            Some(sm) => sm.count as int,
            None => 0,
        }
    }

    /// Wait queue of the semaphore in slot `s` (empty for an empty
    /// slot).
    pub open spec fn sem_queue_at(self, s: int) -> Seq<usize> {
        match self.semaphore_list@[s] {
            Some(sm) => sm.wait_queue@,
            None => Seq::empty(),
        }
    }

    /// Wait queue of the condition variable in slot `c` (empty for an
    /// empty slot).
    pub open spec fn cond_queue_at(self, c: int) -> Seq<usize> {
        match self.condvar_list@[c] {
            Some(cv) => cv.wait_queue@,
            None => Seq::empty(),
        }
    }

    /// `q` names a queue whose slot index is in range.
    pub open spec fn valid_qid(self, q: QueueId) -> bool {
        match q {
            QueueId::MutexQ(m) => 0 <= m < self.n_mutex(),
            QueueId::SemQ(s) => 0 <= s < self.n_sem(),
            QueueId::CondQ(c) => 0 <= c < self.n_cond(),
        }
    }

    /// The wait queue named by `q`.
    pub open spec fn queue_at(self, q: QueueId) -> Seq<usize> {
        match q {
            QueueId::MutexQ(m) => self.mutex_at(m).queue,
            QueueId::SemQ(s) => self.sem_queue_at(s),
            QueueId::CondQ(c) => self.cond_queue_at(c),
        }
    }

    /// Resource identifier `r` refers to a slot index in range of its
    /// table.
    pub open spec fn valid_resource(self, r: Resource) -> bool {
        match r.type_ {
            ResourceType::Mutex => r.id < self.n_mutex(),
            ResourceType::Semaphore => r.id < self.n_sem(),
        }
    }

    /// Units of `r` held across all tasks of the process.
    pub open spec fn outstanding(self, r: Resource) -> nat {
        held_units_upto(self.tasks@, r, self.n_tasks())
    }

    /// Task `t` holds at least one unit of `r`.
    pub open spec fn task_holds(self, t: int, r: Resource) -> bool {
        self.alive(t) && self.task_at(t).resources@.contains(r)
    }

    /// Per-task well-formedness: bounded held list, and every recorded
    /// resource refers to an existing slot index.
    pub open spec fn task_wf(self, t: int) -> bool {
        match self.tasks@[t] {
            None => true,
            Some(tk) => {
                &&& tk.resources@.len() <= MAX_HELD
                &&& forall|i: int|
                    0 <= i < tk.resources@.len() ==> self.valid_resource(#[trigger] tk.resources@[i])
                &&& (tk.need matches Some(r) ==> self.valid_resource(r))
            },
        }
    }

    /// The semaphore in slot `s`, if present, is internally consistent.
    pub open spec fn sem_slot_wf(self, s: int) -> bool {
        match self.semaphore_list@[s] {
            Some(sm) => sm.wf(),
            None => true,
        }
    }

    /// Member `i` of queue `q` is a live, blocked task whose recorded
    /// `need` is the resource the queue belongs to, with room left in
    /// its held list for the grant that will wake it.
    pub open spec fn queue_member_wf(self, q: QueueId, i: int) -> bool {
        let tid = self.queue_at(q)[i] as int;
        &&& self.alive(tid)
        &&& self.task_at(tid).task_status is Blocked
        &&& self.task_at(tid).resources@.len() < MAX_HELD
        &&& (match q {
            QueueId::MutexQ(m) => self.task_at(tid).need == Some(
                Resource { type_: ResourceType::Mutex, id: m as usize },
            ),
            QueueId::SemQ(s) => self.task_at(tid).need == Some(
                Resource { type_: ResourceType::Semaphore, id: s as usize },
            ),
            QueueId::CondQ(_) => true,
        })
    }

    /// Task `tid` sits in no wait queue.
    pub open spec fn not_queued(self, tid: usize) -> bool {
        forall|q: QueueId, i: int|
            self.valid_qid(q) && 0 <= i < self.queue_at(q).len() ==> (#[trigger] self.queue_at(
                q,
            )[i]) != tid
    }

    /// Well-formedness invariant, established by `new` and preserved by
    /// every syscall. Its centerpiece: for each mutex slot, the total
    /// number of held entries across all tasks is 1 exactly when the
    /// mutex is locked — mutual exclusion — and wait queues hold
    /// pairwise-distinct, blocked, live tasks with the matching `need`.
    pub open spec fn wf(self) -> bool {
        &&& self.tasks@.len() <= MAX_TASKS
        &&& self.mutex_list@.len() <= MAX_OBJECTS
        &&& self.semaphore_list@.len() <= MAX_OBJECTS
        &&& self.condvar_list@.len() <= MAX_OBJECTS
        &&& self.pid <= 0x7FFF_FFFF
        &&& forall|t: int| 0 <= t < self.n_tasks() ==> #[trigger] self.task_wf(t)
        &&& forall|m: int|
            0 <= m < self.n_mutex() ==> self.outstanding(
                Resource { type_: ResourceType::Mutex, id: m as usize },
            ) == (if (#[trigger] self.mutex_at(m)).locked {
                1nat
            } else {
                0nat
            })
        &&& forall|s: int| 0 <= s < self.n_sem() ==> #[trigger] self.sem_slot_wf(s)
        &&& forall|q: QueueId, i: int|
            self.valid_qid(q) && 0 <= i < self.queue_at(q).len() ==> #[trigger] self.queue_member_wf(
                q,
                i,
            )
        &&& forall|q1: QueueId, i1: int, q2: QueueId, i2: int|
            (self.valid_qid(q1) && self.valid_qid(q2) && 0 <= i1 < self.queue_at(q1).len() && 0
                <= i2 < self.queue_at(q2).len() && #[trigger] self.queue_at(q1)[i1]
                == #[trigger] self.queue_at(q2)[i2]) ==> (q1 == q2 && i1 == i2)
    }

    /// `m` is a usable mutex handle: in range and occupied.
    pub open spec fn mutex_handle_ok(self, m: int) -> bool {
        0 <= m < self.n_mutex() && self.mutex_list@[m] is Some
    }

    /// `s` is a usable semaphore handle: in range and occupied.
    pub open spec fn sem_handle_ok(self, s: int) -> bool {
        0 <= s < self.n_sem() && self.semaphore_list@[s] is Some
    }

    /// `c` is a usable condition-variable handle: in range and
    /// occupied.
    pub open spec fn cond_handle_ok(self, c: int) -> bool {
        0 <= c < self.n_cond() && self.condvar_list@[c] is Some
    }

    /// Conserved quantity of semaphore `s`: units recorded as granted
    /// across all tasks plus units still available. `up` raises it by
    /// at most one; `down` never changes it — so outstanding grants
    /// can never exceed the initial count plus the number of `up`
    /// calls.
    pub open spec fn sem_budget(self, s: int) -> int {
        self.outstanding(Resource { type_: ResourceType::Semaphore, id: s as usize }) + (if self.sem_count_at(s) > 0 {
            self.sem_count_at(s)
        } else {
            0int
        })
    }

    /// The caller of a syscall: a live task that is currently runnable
    /// (so, by well-formedness, in no wait queue).
    pub open spec fn caller_ok(self, t: int) -> bool {
        &&& self.alive(t)
        &&& (self.task_at(t).task_status is Running || self.task_at(t).task_status is Ready)
    }

    /// A fresh process: `num_tasks` ready tasks holding and requesting
    /// nothing, empty object tables, detection off.
    pub fn new(pid: usize, num_tasks: usize) -> (p: Process)
        requires
            pid <= 0x7FFF_FFFF,
            num_tasks <= MAX_TASKS,
        ensures
            p.wf(),
            p.pid == pid,
            p.n_tasks() == num_tasks,
            forall|t: int|
                0 <= t < num_tasks ==> p.alive(t) && (#[trigger] p.task_at(
                    t,
                )).task_status is Ready && p.task_at(t).need is None && p.task_at(t).resources@
                    =~= Seq::<Resource>::empty(),
            p.n_mutex() == 0,
            p.n_sem() == 0,
            p.n_cond() == 0,
            !p.deadlock_detect,
    {
        let mut tasks: Vec<Option<TaskControlBlock>> = Vec::new();
        let mut i: usize = 0;
        while i < num_tasks
            invariant
                i <= num_tasks,
                tasks@.len() == i,
                forall|t: int|
                    0 <= t < i ==> ((#[trigger] tasks@[t]) matches Some(tk) && tk.task_status
                        is Ready && tk.need is None && tk.resources@.len() == 0),
            decreases num_tasks - i,
        {
            tasks.push(Some(TaskControlBlock::new_ready()));
            i = i + 1;
        }
        let p = Process {
            pid,
            tasks,
            mutex_list: Vec::new(),
            semaphore_list: Vec::new(),
            condvar_list: Vec::new(),
            deadlock_detect: false,
        };
        proof {
            assert forall|t: int| 0 <= t < p.n_tasks() implies #[trigger] p.task_wf(t) by {}
            assert forall|m: int| 0 <= m < p.n_mutex() implies p.outstanding(
                Resource { type_: ResourceType::Mutex, id: m as usize },
            ) == (if (#[trigger] p.mutex_at(m)).locked {
                1nat
            } else {
                0nat
            }) by {}
        }
        p
    }
}

impl Process {
    /// Replaces mutex slot `m`, leaving every other field and slot
    /// untouched.
    pub(crate) fn set_mutex(&mut self, m: usize, mx: MutexVariant)
        requires
            (m as int) < old(self).n_mutex(),
        ensures
            final(self).mutex_list@ == old(self).mutex_list@.update(m as int, Some(mx)),
            final(self).pid == old(self).pid,
            final(self).tasks == old(self).tasks,
            final(self).semaphore_list == old(self).semaphore_list,
            final(self).condvar_list == old(self).condvar_list,
            final(self).deadlock_detect == old(self).deadlock_detect,
    {
        let ghost pre = self.mutex_list@;
        let _ = self.mutex_list.remove(m);
        self.mutex_list.insert(m, Some(mx));
        proof {
            assert(self.mutex_list@ =~= pre.update(m as int, Some(mx)));
        }
    }

    /// Replaces semaphore slot `s`, leaving every other field and slot
    /// untouched.
    pub(crate) fn set_sem(&mut self, s: usize, sm: Semaphore)
        requires
            (s as int) < old(self).n_sem(),
        ensures
            final(self).semaphore_list@ == old(self).semaphore_list@.update(s as int, Some(sm)),
            final(self).pid == old(self).pid,
            final(self).tasks == old(self).tasks,
            final(self).mutex_list == old(self).mutex_list,
            final(self).condvar_list == old(self).condvar_list,
            final(self).deadlock_detect == old(self).deadlock_detect,
    {
        let ghost pre = self.semaphore_list@;
        let _ = self.semaphore_list.remove(s);
        self.semaphore_list.insert(s, Some(sm));
        proof {
            assert(self.semaphore_list@ =~= pre.update(s as int, Some(sm)));
        }
    }

    /// Replaces condition-variable slot `c`, leaving every other field
    /// and slot untouched.
    pub(crate) fn set_cond(&mut self, c: usize, cv: Condvar)
        requires
            (c as int) < old(self).n_cond(),
        ensures
            final(self).condvar_list@ == old(self).condvar_list@.update(c as int, Some(cv)),
            final(self).pid == old(self).pid,
            final(self).tasks == old(self).tasks,
            final(self).mutex_list == old(self).mutex_list,
            final(self).semaphore_list == old(self).semaphore_list,
            final(self).deadlock_detect == old(self).deadlock_detect,
    {
        let ghost pre = self.condvar_list@;
        let _ = self.condvar_list.remove(c);
        self.condvar_list.insert(c, Some(cv));
        proof {
            assert(self.condvar_list@ =~= pre.update(c as int, Some(cv)));
        }
    }
}

/// Scheduler hook: makes a blocked task runnable again. Models the
/// dispatcher's `add_task` as used by the external timer facility; the
/// wake paths of the synchronization primitives perform the same
/// transition themselves. The task must not sit in a wait queue — a
/// queued task is woken only by the matching release operation.
pub fn add_task(process: &mut Process, tid: usize)
    requires
        old(process).wf(),
        old(process).alive(tid as int),
        old(process).task_at(tid as int).task_status is Blocked,
        old(process).not_queued(tid),
    ensures
        final(process).wf(),
        final(process).tasks@ == old(process).tasks@.update(
            tid as int,
            Some(
                TaskControlBlock {
                    task_status: TaskStatus::Ready,
                    ..old(process).task_at(tid as int)
                },
            ),
        ),
        final(process).pid == old(process).pid,
        final(process).mutex_list == old(process).mutex_list,
        final(process).semaphore_list == old(process).semaphore_list,
        final(process).condvar_list == old(process).condvar_list,
        final(process).deadlock_detect == old(process).deadlock_detect,
{
    let ghost pre = *process;
    let mut tk = process.tasks.remove(tid).unwrap();
    tk.task_status = TaskStatus::Ready;
    process.tasks.insert(tid, Some(tk));
    proof {
        assert(process.tasks@ =~= pre.tasks@.update(tid as int, Some(tk)));
        lemma_wf_after_task_status(pre, *process, tid);
    }
}

/// Well-formedness is preserved when a single task changes only its
/// scheduling status, the new status is not `Blocked`, and the task is
/// in no wait queue.
pub(crate) proof fn lemma_wf_after_task_status(pre: Process, post: Process, tid: usize)
    requires
        pre.wf(),
        pre.alive(tid as int),
        pre.not_queued(tid),
        post.tasks@ == pre.tasks@.update(
            tid as int,
            Some(
                TaskControlBlock {
                    task_status: post.task_at(tid as int).task_status,
                    ..pre.task_at(tid as int)
                },
            ),
        ),
        post.pid == pre.pid,
        post.mutex_list == pre.mutex_list,
        post.semaphore_list == pre.semaphore_list,
        post.condvar_list == pre.condvar_list,
    ensures
        post.wf(),
{
    let t = tid as int;
    assert forall|x: int| 0 <= x < post.n_tasks() implies #[trigger] post.task_wf(x) by {
        assert(pre.task_wf(x));
    }
    assert forall|m: int| 0 <= m < post.n_mutex() implies post.outstanding(
        Resource { type_: ResourceType::Mutex, id: m as usize },
    ) == (if (#[trigger] post.mutex_at(m)).locked {
        1nat
    } else {
        0nat
    }) by {
        let r = Resource { type_: ResourceType::Mutex, id: m as usize };
        assert(pre.mutex_at(m) == post.mutex_at(m));
        lemma_held_units_update(pre.tasks@, post.tasks@, t, r, pre.n_tasks());
        assert(held_units_task(post.tasks@[t], r) == held_units_task(pre.tasks@[t], r));
    }
    assert forall|s: int| 0 <= s < post.n_sem() implies #[trigger] post.sem_slot_wf(s) by {
        assert(pre.sem_slot_wf(s));
    }
    assert forall|q: QueueId, i: int|
        post.valid_qid(q) && 0 <= i < post.queue_at(q).len() implies #[trigger] post.queue_member_wf(
        q,
        i,
    ) by {
        assert(pre.queue_at(q) == post.queue_at(q));
        assert(pre.queue_member_wf(q, i));
        assert(pre.queue_at(q)[i] != tid);
    }
    assert forall|q1: QueueId, i1: int, q2: QueueId, i2: int|
        (post.valid_qid(q1) && post.valid_qid(q2) && 0 <= i1 < post.queue_at(q1).len() && 0 <= i2
            < post.queue_at(q2).len() && #[trigger] post.queue_at(q1)[i1]
            == #[trigger] post.queue_at(q2)[i2]) implies (q1 == q2 && i1 == i2) by {
        assert(pre.queue_at(q1) == post.queue_at(q1));
        assert(pre.queue_at(q2) == post.queue_at(q2));
        assert(pre.queue_at(q1)[i1] == pre.queue_at(q2)[i2]);
    }
}

/// A sequence of pairwise-distinct values all below `n` has at most `n`
/// elements.
pub proof fn lemma_distinct_bounded(q: Seq<usize>, n: int)
    requires
        forall|i: int, j: int| 0 <= i < j < q.len() ==> q[i] != q[j],
        forall|i: int| 0 <= i < q.len() ==> (#[trigger] q[i]) < n,
        n >= 0,
    ensures
        q.len() <= n,
{
    let qi = q.map_values(|x: usize| x as int);
    assert(qi.no_duplicates()) by {
        assert forall|i: int, j: int|
            (0 <= i < qi.len() && 0 <= j < qi.len() && i != j) implies qi[i] != qi[j] by {
            if i < j {
                assert(q[i] != q[j]);
            } else {
                assert(q[j] != q[i]);
            }
        }
    }
    qi.unique_seq_to_set();
    assert(qi.to_set().subset_of(set_int_range(0, n))) by {
        assert forall|x: int| qi.to_set().contains(x) implies set_int_range(0, n).contains(x) by {
            let i = choose|i: int| 0 <= i < qi.len() && qi[i] == x;
            assert(q[i] < n);
        }
    }
    lemma_int_range(0, n);
    lemma_len_subset(qi.to_set(), set_int_range(0, n));
}

/// Changing one task's slot changes the total held units of `r` by the
/// difference at that slot.
pub proof fn lemma_held_units_update(
    tasks1: Seq<Option<TaskControlBlock>>,
    tasks2: Seq<Option<TaskControlBlock>>,
    t: int,
    r: Resource,
    n: int,
)
    requires
        0 <= t < tasks1.len(),
        tasks2.len() == tasks1.len(),
        n <= tasks1.len(),
        forall|i: int| 0 <= i < tasks1.len() && i != t ==> tasks2[i] == tasks1[i],
    ensures
        t < n ==> held_units_upto(tasks2, r, n) + held_units_task(tasks1[t], r) == held_units_upto(
            tasks1,
            r,
            n,
        ) + held_units_task(tasks2[t], r),
        t >= n ==> held_units_upto(tasks2, r, n) == held_units_upto(tasks1, r, n),
    decreases n,
{
    if n > 0 {
        lemma_held_units_update(tasks1, tasks2, t, r, n - 1);
    }
}

/// Number of release steps in a sequence of semaphore operations
/// (`true` marks a release).
pub open spec fn count_ups(steps: Seq<bool>) -> nat
    decreases steps.len(),
{
    if steps.len() == 0 {
        0
    } else {
        count_ups(steps.drop_last()) + (if steps.last() {
            1nat
        } else {
            0nat
        })
    }
}

/// Semaphore conservation over whole call sequences. `sys_semaphore_down`
/// leaves `sem_budget` — outstanding grants plus available units —
/// unchanged, and `sys_semaphore_up` raises it by at most one; so along
/// any sequence of operations whose budgets are `budgets[0], ...,
/// budgets[n]` and whose release steps are marked in `steps`, the final
/// budget is bounded by the initial one plus the number of releases.
/// Outstanding grants therefore never exceed the initial count plus the
/// number of `up` calls.
pub proof fn lemma_semaphore_conservation(budgets: Seq<int>, steps: Seq<bool>)
    requires
        budgets.len() == steps.len() + 1,
        forall|k: int|
            0 <= k < steps.len() ==> budgets[k + 1] <= budgets[k] + (if #[trigger] steps[k] {
                1int
            } else {
                0int
            }),
    ensures
        budgets.last() <= budgets[0] + count_ups(steps),
    decreases steps.len(),
{
    if steps.len() > 0 {
        let n = steps.len() as int;
        lemma_semaphore_conservation(budgets.drop_last(), steps.drop_last());
        assert(budgets[n] <= budgets[n - 1] + (if steps[n - 1] {
            1int
        } else {
            0int
        }));
    }
}

/// Well-formedness does not depend on the deadlock-detection toggle.
pub(crate) proof fn lemma_wf_same_core(pre: Process, post: Process)
    requires
        pre.wf(),
        post.pid == pre.pid,
        post.tasks == pre.tasks,
        post.mutex_list == pre.mutex_list,
        post.semaphore_list == pre.semaphore_list,
        post.condvar_list == pre.condvar_list,
    ensures
        post.wf(),
{
    assert forall|x: int| 0 <= x < post.n_tasks() implies #[trigger] post.task_wf(x) by {
        assert(pre.task_wf(x));
    }
    assert forall|m: int| 0 <= m < post.n_mutex() implies post.outstanding(
        Resource { type_: ResourceType::Mutex, id: m as usize },
    ) == (if (#[trigger] post.mutex_at(m)).locked {
        1nat
    } else {
        0nat
    }) by {
        assert(pre.mutex_at(m) == post.mutex_at(m));
    }
    assert forall|s: int| 0 <= s < post.n_sem() implies #[trigger] post.sem_slot_wf(s) by {
        assert(pre.sem_slot_wf(s));
    }
    assert forall|q: QueueId, i: int|
        post.valid_qid(q) && 0 <= i < post.queue_at(q).len() implies #[trigger] post.queue_member_wf(
        q,
        i,
    ) by {
        assert(pre.queue_at(q) == post.queue_at(q));
        assert(pre.queue_member_wf(q, i));
    }
    assert forall|q1: QueueId, i1: int, q2: QueueId, i2: int|
        (post.valid_qid(q1) && post.valid_qid(q2) && 0 <= i1 < post.queue_at(q1).len() && 0 <= i2
            < post.queue_at(q2).len() && #[trigger] post.queue_at(q1)[i1]
            == #[trigger] post.queue_at(q2)[i2]) implies (q1 == q2 && i1 == i2) by {
        assert(pre.queue_at(q1) == post.queue_at(q1));
        assert(pre.queue_at(q2) == post.queue_at(q2));
        assert(pre.queue_at(q1)[i1] == pre.queue_at(q2)[i2]);
    }
}

/// A resource no task holds has no outstanding units.
pub proof fn lemma_held_units_none(tasks: Seq<Option<TaskControlBlock>>, r: Resource, n: int)
    requires
        forall|t: int| 0 <= t < n ==> held_units_task(#[trigger] tasks[t], r) == 0,
    ensures
        held_units_upto(tasks, r, n) == 0,
    decreases n,
{
    if n > 0 {
        lemma_held_units_none(tasks, r, n - 1);
    }
}

/// The total held units of `r` are at least what any single task
/// holds.
pub proof fn lemma_held_units_single(
    tasks: Seq<Option<TaskControlBlock>>,
    r: Resource,
    t: int,
    n: int,
)
    requires
        0 <= t < n <= tasks.len(),
    ensures
        held_units_upto(tasks, r, n) >= held_units_task(tasks[t], r),
    decreases n,
{
    if t < n - 1 {
        lemma_held_units_single(tasks, r, t, n - 1);
    }
}

/// The total held units of `r` are at least what any two distinct
/// tasks hold together.
pub proof fn lemma_held_units_pair(
    tasks: Seq<Option<TaskControlBlock>>,
    r: Resource,
    t1: int,
    t2: int,
    n: int,
)
    requires
        0 <= t1 < t2 < n <= tasks.len(),
    ensures
        held_units_upto(tasks, r, n) >= held_units_task(tasks[t1], r) + held_units_task(
            tasks[t2],
            r,
        ),
    decreases n,
{
    if t2 < n - 1 {
        lemma_held_units_pair(tasks, r, t1, t2, n - 1);
    } else {
        lemma_held_units_single(tasks, r, t1, n - 1);
    }
}

/// Mutual exclusion: in a well-formed process, two tasks that each
/// hold a unit of the same mutex are the same task — at any instant at
/// most one task's held set contains a given mutex.
pub proof fn lemma_mutual_exclusion(p: Process, m: int, t1: int, t2: int)
    requires
        p.wf(),
        0 <= m < p.n_mutex(),
        p.task_holds(t1, Resource { type_: ResourceType::Mutex, id: m as usize }),
        p.task_holds(t2, Resource { type_: ResourceType::Mutex, id: m as usize }),
    ensures
        t1 == t2,
{
    let r = Resource { type_: ResourceType::Mutex, id: m as usize };
    broadcast use vstd::seq_lib::group_to_multiset_ensures;

    assert(held_units_task(p.tasks@[t1], r) >= 1) by {
        assert(p.task_at(t1).resources@.to_multiset().count(r) > 0);
    }
    assert(held_units_task(p.tasks@[t2], r) >= 1) by {
        assert(p.task_at(t2).resources@.to_multiset().count(r) > 0);
    }
    if t1 != t2 {
        if t1 < t2 {
            lemma_held_units_pair(p.tasks@, r, t1, t2, p.n_tasks());
        } else {
            lemma_held_units_pair(p.tasks@, r, t2, t1, p.n_tasks());
        }
        assert(p.outstanding(r) >= 2);
        let mv = p.mutex_at(m);
        assert(p.outstanding(r) <= 1);
    }
}

} // verus!
