//! Banker's-algorithm deadlock detector.
//!
//! Mutexes and semaphores are treated uniformly as resources with unit
//! capacity 1 or N by concatenating their slot-index spaces: a mutex's
//! flat index is its slot id, a semaphore's is the mutex-table length
//! plus its slot id. From a snapshot of the task table the detector
//! builds the `allocation` and `need` matrices and the available-work
//! vector, injects the hypothetical unit being requested by the
//! caller, and runs the standard finish-simulation: repeatedly retire
//! any unfinished task whose whole need row fits under the work vector,
//! returning its allocation to the pool. A request is rejected exactly
//! when some task can never be retired.
//!
//! The reference predicate `can_finish_all` quantifies over the choice
//! of task at every step, so the verdict it defines is scan-order
//! independent; `lemma_finish_order_independent` shows that retiring
//! any eligible task first preserves it, which is why the greedy
//! implementation below meets the predicate exactly.

use vstd::prelude::*;
use vstd::set_lib::set_int_range;
use crate::mutex::{Mutex, MutexVariant};
use crate::process::{MAX_HELD, MAX_OBJECTS, MAX_TASKS};
use crate::semaphore::{Semaphore, MAX_SEM_COUNT};
use crate::task::{Resource, ResourceType, TaskControlBlock};

verus! {

/// Flat resource index: mutex slots first, then semaphore slots.
pub open spec fn flat_index(r: Resource, n_m: int) -> int {
    match r.type_ {
        ResourceType::Mutex => r.id as int,
        ResourceType::Semaphore => n_m + r.id as int,
    }
}

/// `r` refers to an existing slot of its table.
pub open spec fn resource_ok(r: Resource, n_m: int, n_s: int) -> bool {
    match r.type_ {
        ResourceType::Mutex => (r.id as int) < n_m,
        ResourceType::Semaphore => (r.id as int) < n_s,
    }
}

/// Number of entries of `held` whose flat index is `j`.
pub open spec fn count_res(held: Seq<Resource>, j: int, n_m: int) -> nat
    decreases held.len(),
{
    if held.len() == 0 {
        0
    } else {
        count_res(held.drop_last(), j, n_m) + (if flat_index(held.last(), n_m) == j {
            1nat
        } else {
            0nat
        })
    }
}

/// Units of flat resource `j` allocated to one (possibly absent) task.
pub open spec fn task_alloc_entry(ot: Option<TaskControlBlock>, j: int, n_m: int) -> nat {
    match ot {
        Some(t) => count_res(t.resources@, j, n_m),
        None => 0,
    }
}

/// Units of flat resource `j` requested by one (possibly absent) task
/// through its recorded `need`.
pub open spec fn task_need_entry(ot: Option<TaskControlBlock>, j: int, n_m: int) -> nat {
    match ot {
        Some(t) => match t.need {
            Some(r) => if flat_index(r, n_m) == j {
                1nat
            } else {
                0nat
            },
            None => 0,
        },
        None => 0,
    }
}

/// The allocation matrix: row per task slot, column per flat resource.
pub open spec fn alloc_matrix(tasks: Seq<Option<TaskControlBlock>>, n_m: int, total: int) -> Seq<
    Seq<nat>,
> {
    Seq::new(tasks.len(), |t: int| Seq::new(total as nat, |j: int| task_alloc_entry(tasks[t], j, n_m)))
}

/// The need matrix with the caller's hypothetical request for `req`
/// injected into row `tid`.
pub open spec fn need_matrix(
    tasks: Seq<Option<TaskControlBlock>>,
    n_m: int,
    total: int,
    req: Resource,
    tid: int,
) -> Seq<Seq<nat>> {
    Seq::new(
        tasks.len(),
        |t: int|
            Seq::new(
                total as nat,
                |j: int|
                    task_need_entry(tasks[t], j, n_m) + (if t == tid && flat_index(req, n_m) == j {
                        1nat
                    } else {
                        0nat
                    }),
            ),
    )
}

/// Units of a mutex slot currently available: one exactly when the
/// slot holds an unlocked mutex.
pub open spec fn mutex_avail(om: Option<MutexVariant>) -> nat {
    match om {
        Some(m) => if m.model().locked {
            0nat
        } else {
            1nat
        },
        None => 0,
    }
}

/// Units of a semaphore slot currently available: its count, clamped
/// below at zero.
pub open spec fn sem_avail(os: Option<Semaphore>) -> nat {
    match os {
        Some(s) => if s.count > 0 {
            s.count as nat
        } else {
            0nat
        },
        None => 0,
    }
}

/// The available-work vector over the concatenated index space.
pub open spec fn work_vector(
    mutexes: Seq<Option<MutexVariant>>,
    sems: Seq<Option<Semaphore>>,
) -> Seq<nat> {
    Seq::new(
        (mutexes.len() + sems.len()) as nat,
        |j: int|
            if j < mutexes.len() {
                mutex_avail(mutexes[j])
            } else {
                sem_avail(sems[j - mutexes.len()])
            },
    )
}

/// Pointwise comparison of equal-length rows.
pub open spec fn row_le(a: Seq<nat>, b: Seq<nat>) -> bool {
    a.len() == b.len() && forall|j: int| 0 <= j < a.len() ==> a[j] <= b[j]
}

/// Pointwise sum of rows, with the length of the first.
pub open spec fn row_add(a: Seq<nat>, b: Seq<nat>) -> Seq<nat> {
    Seq::new(a.len(), |j: int| a[j] + b[j])
}

/// The finish-simulation can retire every task in `remaining`: either
/// none are left, or some remaining task's need row fits under the
/// work vector and, with its allocation returned to the pool, the rest
/// can be retired too. The choice of task is existential, so this
/// verdict does not depend on any scan order.
pub open spec fn can_finish_all(
    alloc: Seq<Seq<nat>>,
    need: Seq<Seq<nat>>,
    work: Seq<nat>,
    remaining: Set<int>,
) -> bool
    decreases remaining.len(),
    when remaining.finite()
{
    if remaining.len() == 0 {
        true
    } else {
        exists|t: int|
            #![auto]
            remaining.contains(t) && row_le(need[t], work) && can_finish_all(
                alloc,
                need,
                row_add(work, alloc[t]),
                remaining.remove(t),
            )
    }
}

/// A row that fits under `work` still fits once more units are added.
proof fn lemma_row_le_mono(a: Seq<nat>, work: Seq<nat>, extra: Seq<nat>)
    requires
        row_le(a, work),
        extra.len() == work.len(),
    ensures
        row_le(a, row_add(work, extra)),
{
}

/// Tie-break independence of the finish-simulation: if every remaining
/// task can be retired from `work`, then retiring any eligible task
/// `t` first — returning its allocation to the pool — still lets every
/// other remaining task be retired. Hence the verdict of the
/// simulation is deterministic regardless of the order in which
/// eligible tasks are scanned.
pub proof fn lemma_finish_order_independent(
    alloc: Seq<Seq<nat>>,
    need: Seq<Seq<nat>>,
    work: Seq<nat>,
    remaining: Set<int>,
    t: int,
)
    requires
        remaining.finite(),
        remaining.contains(t),
        need.len() == alloc.len(),
        forall|u: int| remaining.contains(u) ==> 0 <= u < alloc.len(),
        forall|u: int| 0 <= u < alloc.len() ==> (#[trigger] alloc[u]).len() == work.len(),
        forall|u: int| 0 <= u < alloc.len() ==> (#[trigger] need[u]).len() == work.len(),
        row_le(need[t], work),
        can_finish_all(alloc, need, work, remaining),
    ensures
        can_finish_all(alloc, need, row_add(work, alloc[t]), remaining.remove(t)),
    decreases remaining.len(),
{
    broadcast use vstd::set::group_set_axioms;

    let w_t = row_add(work, alloc[t]);
    let rem_t = remaining.remove(t);
    let u = choose|u: int|
        #![auto]
        remaining.contains(u) && row_le(need[u], work) && can_finish_all(
            alloc,
            need,
            row_add(work, alloc[u]),
            remaining.remove(u),
        );
    if u == t {
        assert(can_finish_all(alloc, need, w_t, rem_t));
    } else {
        let w_u = row_add(work, alloc[u]);
        let rem_u = remaining.remove(u);
        assert(rem_u.contains(t));
        lemma_row_le_mono(need[t], work, alloc[u]);
        assert(w_u.len() == work.len());
        lemma_finish_order_independent(alloc, need, w_u, rem_u, t);
        // the two retirement orders yield the same pool and the same set
        assert(row_add(w_u, alloc[t]) =~= row_add(w_t, alloc[u]));
        assert(rem_u.remove(t) =~= rem_t.remove(u));
        lemma_row_le_mono(need[u], work, alloc[t]);
        assert(rem_t.contains(u));
        assert(rem_t.len() != 0);
        assert(can_finish_all(alloc, need, row_add(w_t, alloc[u]), rem_t.remove(u)));
        assert(can_finish_all(alloc, need, w_t, rem_t));
    }
}

/// A row of 64-bit counters as a row of the mathematical model.
pub open spec fn row_nat(s: Seq<u64>) -> Seq<nat> {
    s.map_values(|x: u64| x as nat)
}

/// Per-task snapshot sanity, as guaranteed by process
/// well-formedness: a bounded held list whose entries, and the
/// recorded `need`, refer to existing slots.
pub open spec fn task_entries_ok(ot: Option<TaskControlBlock>, n_m: int, n_s: int) -> bool {
    match ot {
        Some(tk) => {
            &&& tk.resources@.len() <= MAX_HELD
            &&& forall|i: int|
                0 <= i < tk.resources@.len() ==> resource_ok(#[trigger] tk.resources@[i], n_m, n_s)
            &&& (tk.need matches Some(r) ==> resource_ok(r, n_m, n_s))
        },
        None => true,
    }
}

/// Every task slot of the snapshot is sane.
pub open spec fn detect_tasks_ok(tasks: Seq<Option<TaskControlBlock>>, n_m: int, n_s: int) -> bool {
    forall|t: int| 0 <= t < tasks.len() ==> task_entries_ok(#[trigger] tasks[t], n_m, n_s)
}

/// Every semaphore count of the snapshot is under its cap.
pub open spec fn detect_sems_ok(sems: Seq<Option<Semaphore>>) -> bool {
    forall|s: int|
        0 <= s < sems.len() ==> (match #[trigger] sems[s] {
            Some(sm) => sm.count <= MAX_SEM_COUNT,
            None => true,
        })
}

/// Flat index of `r` over the concatenated slot spaces.
fn flat_id(r: &Resource, n_m: usize, n_s: usize) -> (j: usize)
    requires
        resource_ok(*r, n_m as int, n_s as int),
        n_m <= MAX_OBJECTS,
        n_s <= MAX_OBJECTS,
    ensures
        j as int == flat_index(*r, n_m as int),
        j < n_m + n_s,
{
    match r.type_ {
        ResourceType::Mutex => r.id,
        ResourceType::Semaphore => n_m + r.id,
    }
}

/// Builds one allocation row: entry `j` counts the task's held entries
/// with flat index `j`.
#[verifier::loop_isolation(false)]
fn build_alloc_row(ot: &Option<TaskControlBlock>, n_m: usize, n_s: usize) -> (row: Vec<u64>)
    requires
        task_entries_ok(*ot, n_m as int, n_s as int),
        n_m <= MAX_OBJECTS,
        n_s <= MAX_OBJECTS,
    ensures
        row@.len() == n_m + n_s,
        forall|j: int|
            0 <= j < row@.len() ==> (#[trigger] row@[j]) as nat == task_alloc_entry(
                *ot,
                j,
                n_m as int,
            ),
        forall|j: int| 0 <= j < row@.len() ==> (#[trigger] row@[j]) <= MAX_HELD,
{
    let total = n_m + n_s;
    let mut row: Vec<u64> = vec![0u64; total];
    match ot {
        None => row,
        Some(tk) => {
            let mut i: usize = 0;
            while i < tk.resources.len()
                invariant
                    i <= tk.resources@.len(),
                    row@.len() == total,
                    forall|j: int|
                        0 <= j < total ==> (#[trigger] row@[j]) as nat == count_res(
                            tk.resources@.take(i as int),
                            j,
                            n_m as int,
                        ),
                    forall|j: int| 0 <= j < total ==> (#[trigger] row@[j]) <= i,
                decreases tk.resources@.len() - i,
            {
                let j = flat_id(&tk.resources[i], n_m, n_s);
                let cur = row[j];
                row.set(j, cur + 1);
                proof {
                    assert(tk.resources@.take(i + 1).drop_last() =~= tk.resources@.take(i as int));
                    assert(tk.resources@.take(i + 1).last() == tk.resources@[i as int]);
                }
                i = i + 1;
            }
            proof {
                assert(tk.resources@.take(tk.resources@.len() as int) =~= tk.resources@);
            }
            row
        },
    }
}

/// Builds one need row: the task's recorded request, plus — when
/// `inject` is set — the caller's hypothetical unit of `req`.
fn build_need_row(
    ot: &Option<TaskControlBlock>,
    n_m: usize,
    n_s: usize,
    inject: bool,
    req: &Resource,
) -> (row: Vec<u64>)
    requires
        task_entries_ok(*ot, n_m as int, n_s as int),
        resource_ok(*req, n_m as int, n_s as int),
        n_m <= MAX_OBJECTS,
        n_s <= MAX_OBJECTS,
    ensures
        row@.len() == n_m + n_s,
        forall|j: int|
            0 <= j < row@.len() ==> (#[trigger] row@[j]) as nat == task_need_entry(*ot, j, n_m as int)
                + (if inject && flat_index(*req, n_m as int) == j {
                1nat
            } else {
                0nat
            }),
        forall|j: int| 0 <= j < row@.len() ==> (#[trigger] row@[j]) <= 2,
{
    let total = n_m + n_s;
    let mut row: Vec<u64> = vec![0u64; total];
    match ot {
        None => {},
        Some(tk) => {
            match &tk.need {
                Some(r) => {
                    let j = flat_id(r, n_m, n_s);
                    let cur = row[j];
                    row.set(j, cur + 1);
                },
                None => {},
            }
        },
    }
    if inject {
        let j = flat_id(req, n_m, n_s);
        let cur = row[j];
        row.set(j, cur + 1);
    }
    row
}

/// Builds the available-work vector from the object tables.
#[verifier::loop_isolation(false)]
fn build_work(
    mutex_list: &Vec<Option<MutexVariant>>,
    semaphore_list: &Vec<Option<Semaphore>>,
) -> (work: Vec<u64>)
    requires
        mutex_list@.len() <= MAX_OBJECTS,
        semaphore_list@.len() <= MAX_OBJECTS,
        detect_sems_ok(semaphore_list@),
    ensures
        work@.len() == mutex_list@.len() + semaphore_list@.len(),
        forall|j: int|
            0 <= j < work@.len() ==> (#[trigger] work@[j]) as nat == work_vector(
                mutex_list@,
                semaphore_list@,
            )[j],
        forall|j: int| 0 <= j < work@.len() ==> (#[trigger] work@[j]) <= MAX_SEM_COUNT,
{
    let n_m = mutex_list.len();
    let n_s = semaphore_list.len();
    let total = n_m + n_s;
    let mut work: Vec<u64> = vec![0u64; total];
    let mut i: usize = 0;
    while i < n_m
        invariant
            i <= n_m,
            work@.len() == total,
            forall|j: int|
                0 <= j < i ==> (#[trigger] work@[j]) as nat == mutex_avail(mutex_list@[j]),
            forall|j: int| i <= j < total ==> (#[trigger] work@[j]) == 0,
            forall|j: int| 0 <= j < total ==> (#[trigger] work@[j]) <= 1,
        decreases n_m - i,
    {
        match &mutex_list[i] {
            Some(m) => {
                if !m.is_locked() {
                    work.set(i, 1);
                }
            },
            None => {},
        }
        i = i + 1;
    }
    let mut s: usize = 0;
    while s < n_s
        invariant
            s <= n_s,
            work@.len() == total,
            forall|j: int|
                0 <= j < n_m ==> (#[trigger] work@[j]) as nat == mutex_avail(mutex_list@[j]),
            forall|j: int|
                n_m <= j < n_m + s ==> (#[trigger] work@[j]) as nat == sem_avail(
                    semaphore_list@[j - n_m],
                ),
            forall|j: int| n_m + s <= j < total ==> (#[trigger] work@[j]) == 0,
            forall|j: int| 0 <= j < total ==> (#[trigger] work@[j]) <= MAX_SEM_COUNT,
        decreases n_s - s,
    {
        match &semaphore_list[s] {
            Some(sm) => {
                if sm.count > 0 {
                    work.set(n_m + s, sm.count as u64);
                }
            },
            None => {},
        }
        s = s + 1;
    }
    work
}

/// Pointwise row comparison on the 64-bit counters.
#[verifier::loop_isolation(false)]
fn row_le_exec(a: &Vec<u64>, b: &Vec<u64>) -> (r: bool)
    requires
        a@.len() == b@.len(),
    ensures
        r == row_le(row_nat(a@), row_nat(b@)),
{
    let mut j: usize = 0;
    while j < a.len()
        invariant
            j <= a@.len(),
            forall|k: int| 0 <= k < j ==> (#[trigger] a@[k]) <= b@[k],
        decreases a@.len() - j,
    {
        if a[j] > b[j] {
            assert(row_nat(a@)[j as int] > row_nat(b@)[j as int]);
            return false;
        }
        j = j + 1;
    }
    true
}

/// Adds `row` into `work`, pointwise.
#[verifier::loop_isolation(false)]
fn add_row_exec(work: &mut Vec<u64>, row: &Vec<u64>)
    requires
        old(work)@.len() == row@.len(),
        forall|j: int| 0 <= j < row@.len() ==> (#[trigger] old(work)@[j]) + row@[j] <= u64::MAX,
    ensures
        final(work)@.len() == old(work)@.len(),
        forall|j: int|
            0 <= j < row@.len() ==> (#[trigger] final(work)@[j]) == old(work)@[j] + row@[j],
{
    let mut j: usize = 0;
    while j < row.len()
        invariant
            j <= row@.len(),
            work@.len() == row@.len(),
            forall|k: int| j <= k < row@.len() ==> (#[trigger] work@[k]) == old(work)@[k],
            forall|k: int| 0 <= k < j ==> (#[trigger] work@[k]) == old(work)@[k] + row@[k],
        decreases row@.len() - j,
    {
        let cur = work[j];
        work.set(j, cur + row[j]);
        j = j + 1;
    }
}

/// Scans for any unfinished task whose need row fits under the work
/// vector; returns the table length when none qualifies.
#[verifier::loop_isolation(false)]
fn find_candidate(finish: &Vec<bool>, need: &Vec<Vec<u64>>, work: &Vec<u64>) -> (res: usize)
    requires
        finish@.len() == need@.len(),
        forall|t: int| 0 <= t < need@.len() ==> (#[trigger] need@[t])@.len() == work@.len(),
    ensures
        res <= finish@.len(),
        res < finish@.len() ==> !finish@[res as int] && row_le(
            row_nat(need@[res as int]@),
            row_nat(work@),
        ),
        res == finish@.len() ==> forall|t: int|
            0 <= t < finish@.len() ==> (#[trigger] finish@[t]) || !row_le(
                row_nat(need@[t]@),
                row_nat(work@),
            ),
{
    let mut t: usize = 0;
    while t < finish.len()
        invariant
            t <= finish@.len(),
            forall|x: int|
                0 <= x < t ==> (#[trigger] finish@[x]) || !row_le(row_nat(need@[x]@), row_nat(work@)),
        decreases finish@.len() - t,
    {
        if !finish[t] {
            if row_le_exec(&need[t], work) {
                return t;
            }
        }
        t = t + 1;
    }
    t
}

/// When no remaining task's need row fits under the work vector, the
/// simulation is stuck: not every task can be retired.
proof fn lemma_no_candidate_stuck(
    alloc: Seq<Seq<nat>>,
    need: Seq<Seq<nat>>,
    work: Seq<nat>,
    remaining: Set<int>,
)
    requires
        remaining.finite(),
        remaining.len() > 0,
        forall|t: int| remaining.contains(t) ==> !row_le(#[trigger] need[t], work),
    ensures
        !can_finish_all(alloc, need, work, remaining),
{
}


/// The detector's verdict on a snapshot: the caller `tid` asks for one
/// unit of `req`; rejection means the finish-simulation cannot retire
/// every task.
pub open spec fn detection_rejects(
    tasks: Seq<Option<TaskControlBlock>>,
    mutexes: Seq<Option<MutexVariant>>,
    sems: Seq<Option<Semaphore>>,
    req: Resource,
    tid: int,
) -> bool {
    !can_finish_all(
        alloc_matrix(tasks, mutexes.len() as int, (mutexes.len() + sems.len()) as int),
        need_matrix(tasks, mutexes.len() as int, (mutexes.len() + sems.len()) as int, req, tid),
        work_vector(mutexes, sems),
        set_int_range(0, tasks.len() as int),
    )
}

/// Runs the Banker's finish-simulation on a snapshot of the task and
/// object tables, with the caller's request for one unit of the
/// resource `{type_, id}` injected, and reports whether granting it
/// could leave some task unable to ever finish. The snapshot itself is
/// never modified.
#[verifier::loop_isolation(false)]
pub fn deadlock_detected(
    tasks: &Vec<Option<TaskControlBlock>>,
    mutex_list: &Vec<Option<MutexVariant>>,
    semaphore_list: &Vec<Option<Semaphore>>,
    type_: ResourceType,
    id: usize,
    tid: usize,
) -> (detected: bool)
    requires
        tasks@.len() <= MAX_TASKS,
        mutex_list@.len() <= MAX_OBJECTS,
        semaphore_list@.len() <= MAX_OBJECTS,
        detect_tasks_ok(tasks@, mutex_list@.len() as int, semaphore_list@.len() as int),
        detect_sems_ok(semaphore_list@),
        resource_ok(
            Resource { type_, id },
            mutex_list@.len() as int,
            semaphore_list@.len() as int,
        ),
        (tid as int) < tasks@.len(),
    ensures
        detected == detection_rejects(
            tasks@,
            mutex_list@,
            semaphore_list@,
            Resource { type_, id },
            tid as int,
        ),
{
    broadcast use vstd::set::group_set_axioms;

    let n_m = mutex_list.len();
    let n_s = semaphore_list.len();
    let total = n_m + n_s;
    let n = tasks.len();
    let req = Resource { type_, id };
    let ghost gm = n_m as int;
    let ghost am = alloc_matrix(tasks@, gm, total as int);
    let ghost nm = need_matrix(tasks@, gm, total as int, req, tid as int);
    let ghost full = set_int_range(0, n as int);

    // allocation and need matrices, one row per task slot
    let mut alloc: Vec<Vec<u64>> = Vec::new();
    let mut need: Vec<Vec<u64>> = Vec::new();
    let mut t: usize = 0;
    while t < n
        invariant
            t <= n,
            alloc@.len() == t,
            need@.len() == t,
            forall|x: int| 0 <= x < t ==> (#[trigger] alloc@[x])@.len() == total,
            forall|x: int| 0 <= x < t ==> (#[trigger] need@[x])@.len() == total,
            forall|x: int, j: int|
                0 <= x < t && 0 <= j < total ==> (#[trigger] alloc@[x]@[j]) as nat == am[x][j],
            forall|x: int, j: int|
                0 <= x < t && 0 <= j < total ==> (#[trigger] need@[x]@[j]) as nat == nm[x][j],
            forall|x: int, j: int|
                0 <= x < t && 0 <= j < total ==> (#[trigger] alloc@[x]@[j]) <= MAX_HELD,
        decreases n - t,
    {
        let arow = build_alloc_row(&tasks[t], n_m, n_s);
        let nrow = build_need_row(&tasks[t], n_m, n_s, t == tid, &req);
        alloc.push(arow);
        need.push(nrow);
        t = t + 1;
    }

    // available work
    let mut work: Vec<u64> = build_work(mutex_list, semaphore_list);
    let ghost w0 = row_nat(work@);

    let mut finish: Vec<bool> = vec![false; n];
    let mut n_finished: usize = 0;
    let ghost mut u_set = full;
    proof {
        vstd::set_lib::lemma_int_range(0, n as int);
        assert(row_nat(work@) =~= w0);
        assert(w0 =~= work_vector(mutex_list@, semaphore_list@));
    }

    let mut progress: bool = true;
    while progress
        invariant
            finish@.len() == n,
            work@.len() == total,
            u_set.finite(),
            u_set.len() <= n,
            n_finished == n - u_set.len(),
            forall|x: int| #[trigger] u_set.contains(x) ==> 0 <= x < n && !finish@[x],
            forall|x: int| 0 <= x < n && !(#[trigger] finish@[x]) ==> u_set.contains(x),
            forall|j: int|
                0 <= j < total ==> (#[trigger] work@[j]) <= MAX_SEM_COUNT + (n - u_set.len())
                    * MAX_HELD,
            can_finish_all(am, nm, w0, full) == can_finish_all(am, nm, row_nat(work@), u_set),
            !progress ==> (can_finish_all(am, nm, w0, full) <==> u_set.len() == 0),
        decreases u_set.len() + (if progress { 1int } else { 0int }),
    {
        let found = find_candidate(&finish, &need, &work);
        if found < n {
            let ghost gt = found as int;
            let ghost w_cur = row_nat(work@);
            proof {
                assert(u_set.contains(gt));
                assert(row_nat(need@[gt]@) =~= nm[gt]);
                assert(row_le(nm[gt], w_cur));
                assert forall|u: int| 0 <= u < am.len() implies (#[trigger] am[u]).len()
                    == w_cur.len() by {}
                assert forall|u: int| 0 <= u < am.len() implies (#[trigger] nm[u]).len()
                    == w_cur.len() by {}
                if can_finish_all(am, nm, w0, full) {
                    lemma_finish_order_independent(am, nm, w_cur, u_set, gt);
                }
            }
            finish.set(found, true);
            n_finished = n_finished + 1;
            add_row_exec(&mut work, &alloc[found]);
            proof {
                let u_old = u_set;
                u_set = u_set.remove(gt);
                assert(row_nat(work@) =~= row_add(w_cur, am[gt]));
                if can_finish_all(am, nm, row_nat(work@), u_set) {
                    // retiring the candidate was a legal first step, so
                    // the pre-step simulation succeeds as well
                    assert(can_finish_all(am, nm, row_add(w_cur, am[gt]), u_old.remove(gt)));
                    assert(u_old.len() != 0);
                    assert(can_finish_all(am, nm, w_cur, u_old));
                }
            }
        } else {
            progress = false;
            proof {
                if u_set.len() > 0 {
                    assert forall|x: int| u_set.contains(x) implies !row_le(
                        #[trigger] nm[x],
                        row_nat(work@),
                    ) by {
                        assert(!finish@[x]);
                        assert(row_nat(need@[x]@) =~= nm[x]);
                    }
                    lemma_no_candidate_stuck(am, nm, row_nat(work@), u_set);
                } else {
                    assert(can_finish_all(am, nm, row_nat(work@), u_set));
                }
            }
        }
    }
    n_finished < n
}

} // verus!
