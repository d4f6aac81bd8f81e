use os::detect::deadlock_detected;
use os::process::Process;
use os::syscall::{
    sys_enable_deadlock_detect, sys_mutex_create, sys_mutex_lock, sys_mutex_unlock,
    sys_semaphore_create, sys_semaphore_down, DEADLOCK_RC,
};
use os::task::{ResourceType, TaskStatus};

fn status(p: &Process, tid: usize) -> TaskStatus {
    p.tasks[tid].as_ref().unwrap().task_status
}

#[test]
fn canonical_cross_request_is_rejected() {
    // two tasks, two mutexes: task 0 holds A and waits for B; task 1
    // holds B and asks for A — the cycle is refused outright
    let mut p = Process::new(1, 2);
    assert_eq!(sys_mutex_create(&mut p, true), 0);
    assert_eq!(sys_mutex_create(&mut p, true), 1);
    assert_eq!(sys_enable_deadlock_detect(&mut p, 1), 0);
    assert_eq!(sys_mutex_lock(&mut p, 0, 0), 0);
    assert_eq!(sys_mutex_lock(&mut p, 1, 1), 0);
    // no cycle yet: task 1 has no pending request, so this blocks
    assert_eq!(sys_mutex_lock(&mut p, 0, 1), 0);
    assert_eq!(status(&p, 0), TaskStatus::Blocked);
    // now the request that would close the cycle is rejected
    assert_eq!(sys_mutex_lock(&mut p, 1, 0), DEADLOCK_RC);
    assert_eq!(DEADLOCK_RC, -0xDEAD);
    // the rejection changed nothing: asking again gives the same answer
    assert_eq!(sys_mutex_lock(&mut p, 1, 0), DEADLOCK_RC);
    assert_eq!(status(&p, 1), TaskStatus::Ready);
    // the rejected caller can recover: release B, then the sole
    // remaining waiter chain unwinds
    assert_eq!(sys_mutex_unlock(&mut p, 1, 1), 0);
    assert_eq!(status(&p, 0), TaskStatus::Ready);
}

#[test]
fn single_mutex_contention_is_never_rejected() {
    // one mutex, two tasks: plain contention has no cycle, so the
    // detector lets the second task block normally
    let mut p = Process::new(1, 2);
    assert_eq!(sys_mutex_create(&mut p, true), 0);
    assert_eq!(sys_enable_deadlock_detect(&mut p, 1), 0);
    assert_eq!(sys_mutex_lock(&mut p, 0, 0), 0);
    let rc = sys_mutex_lock(&mut p, 1, 0);
    assert_eq!(rc, 0);
    assert_eq!(status(&p, 1), TaskStatus::Blocked);
}

#[test]
fn detection_disabled_skips_the_check() {
    let mut p = Process::new(1, 2);
    assert_eq!(sys_mutex_create(&mut p, true), 0);
    assert_eq!(sys_mutex_create(&mut p, true), 1);
    assert_eq!(sys_mutex_lock(&mut p, 0, 0), 0);
    assert_eq!(sys_mutex_lock(&mut p, 1, 1), 0);
    assert_eq!(sys_mutex_lock(&mut p, 0, 1), 0);
    // with detection off the cycle-closing request simply blocks
    assert_eq!(sys_mutex_lock(&mut p, 1, 0), 0);
    assert_eq!(status(&p, 1), TaskStatus::Blocked);
}

#[test]
fn semaphore_self_deadlock_is_rejected() {
    // a task that drained the semaphore and asks for one more unit,
    // with nobody able to release: rejected
    let mut p = Process::new(1, 1);
    assert_eq!(sys_semaphore_create(&mut p, 1), 0);
    assert_eq!(sys_enable_deadlock_detect(&mut p, 1), 0);
    assert_eq!(sys_semaphore_down(&mut p, 0, 0), 0);
    assert_eq!(sys_semaphore_down(&mut p, 0, 0), DEADLOCK_RC);
}

#[test]
fn semaphore_with_available_units_is_accepted() {
    let mut p = Process::new(1, 2);
    assert_eq!(sys_semaphore_create(&mut p, 2), 0);
    assert_eq!(sys_enable_deadlock_detect(&mut p, 1), 0);
    assert_eq!(sys_semaphore_down(&mut p, 0, 0), 0);
    assert_eq!(sys_semaphore_down(&mut p, 1, 0), 0);
}

#[test]
fn detector_reads_a_snapshot_deterministically() {
    // the verdict is a function of the snapshot: repeated runs agree
    // and leave the tables untouched
    let mut p = Process::new(1, 3);
    assert_eq!(sys_mutex_create(&mut p, true), 0);
    assert_eq!(sys_mutex_create(&mut p, false), 1);
    assert_eq!(sys_semaphore_create(&mut p, 1), 0);
    assert_eq!(sys_mutex_lock(&mut p, 0, 0), 0);
    assert_eq!(sys_mutex_lock(&mut p, 1, 0), 0);
    let first = deadlock_detected(
        &p.tasks,
        &p.mutex_list,
        &p.semaphore_list,
        ResourceType::Mutex,
        0,
        2,
    );
    let second = deadlock_detected(
        &p.tasks,
        &p.mutex_list,
        &p.semaphore_list,
        ResourceType::Mutex,
        0,
        2,
    );
    assert_eq!(first, second);
    // task 0 can still finish and release, so no deadlock
    assert!(!first);
    let sem_ok = deadlock_detected(
        &p.tasks,
        &p.mutex_list,
        &p.semaphore_list,
        ResourceType::Semaphore,
        0,
        2,
    );
    assert!(!sem_ok);
}

#[test]
fn spin_retry_under_detection_is_not_rejected() {
    // a spinning contender's retry re-enters the lock call with its
    // request already recorded; the detector judged it when it was
    // first made and must not double-count it
    let mut p = Process::new(1, 2);
    assert_eq!(sys_mutex_create(&mut p, false), 0);
    assert_eq!(sys_enable_deadlock_detect(&mut p, 1), 0);
    assert_eq!(sys_mutex_lock(&mut p, 0, 0), 0);
    assert_eq!(sys_mutex_lock(&mut p, 1, 0), 0);
    assert_eq!(status(&p, 1), TaskStatus::Ready);
    // still held: the retry spins on, it is not refused
    assert_eq!(sys_mutex_lock(&mut p, 1, 0), 0);
    assert_eq!(status(&p, 1), TaskStatus::Ready);
    assert_eq!(sys_mutex_unlock(&mut p, 0, 0), 0);
    assert_eq!(sys_mutex_lock(&mut p, 1, 0), 0);
    assert!(p.tasks[1].as_ref().unwrap().resources.len() == 1);
}
