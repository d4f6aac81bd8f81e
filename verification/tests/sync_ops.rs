use os::mutex::{Mutex, MutexVariant};
use os::process::{add_task, Process};
use os::syscall::{
    sys_condvar_create, sys_condvar_signal, sys_condvar_wait, sys_enable_deadlock_detect,
    sys_get_time, sys_getpid, sys_mutex_create, sys_mutex_lock, sys_mutex_unlock,
    sys_semaphore_create, sys_semaphore_down, sys_semaphore_up, sys_set_priority, sys_sleep,
    sys_spawn, sys_task_info, sys_yield, TimeVal,
};
use os::task::{Resource, ResourceType, TaskStatistics, TaskStatus};

fn held(p: &Process, tid: usize, type_: ResourceType, id: usize) -> usize {
    p.tasks[tid]
        .as_ref()
        .unwrap()
        .resources
        .iter()
        .filter(|r| r.type_ == type_ && r.id == id)
        .count()
}

fn status(p: &Process, tid: usize) -> TaskStatus {
    p.tasks[tid].as_ref().unwrap().task_status
}

fn mutex_locked(p: &Process, id: usize) -> bool {
    p.mutex_list[id].as_ref().unwrap().is_locked()
}

#[test]
fn mutex_create_assigns_sequential_ids() {
    let mut p = Process::new(7, 2);
    assert_eq!(sys_mutex_create(&mut p, true), 0);
    assert_eq!(sys_mutex_create(&mut p, false), 1);
    assert!(!mutex_locked(&p, 0));
    assert!(!mutex_locked(&p, 1));
}

#[test]
fn mutex_create_reuses_lowest_empty_slot() {
    let mut p = Process::new(1, 1);
    assert_eq!(sys_mutex_create(&mut p, true), 0);
    assert_eq!(sys_mutex_create(&mut p, true), 1);
    // clear the first slot, as the thread teardown path would
    p.mutex_list[0] = None;
    assert_eq!(sys_mutex_create(&mut p, false), 0);
    assert_eq!(sys_mutex_create(&mut p, false), 2);
}

#[test]
fn blocking_mutex_immediate_acquisition() {
    let mut p = Process::new(1, 2);
    assert_eq!(sys_mutex_create(&mut p, true), 0);
    assert_eq!(sys_mutex_lock(&mut p, 0, 0), 0);
    assert!(mutex_locked(&p, 0));
    assert_eq!(held(&p, 0, ResourceType::Mutex, 0), 1);
    assert!(p.tasks[0].as_ref().unwrap().need.is_none());
}

#[test]
fn blocking_mutex_contender_blocks_fifo() {
    let mut p = Process::new(1, 3);
    assert_eq!(sys_mutex_create(&mut p, true), 0);
    assert_eq!(sys_mutex_lock(&mut p, 0, 0), 0);
    assert_eq!(sys_mutex_lock(&mut p, 1, 0), 0);
    assert_eq!(sys_mutex_lock(&mut p, 2, 0), 0);
    assert_eq!(status(&p, 1), TaskStatus::Blocked);
    assert_eq!(status(&p, 2), TaskStatus::Blocked);
    match p.mutex_list[0].as_ref().unwrap() {
        MutexVariant::Blocking(mb) => {
            let q: Vec<usize> = mb.inner.wait_queue.iter().copied().collect();
            assert_eq!(q, vec![1, 2]);
        },
        MutexVariant::Spin(_) => panic!("expected the blocking variant"),
    }
}

#[test]
fn unlock_hands_off_to_longest_waiter_without_unlocked_window() {
    // the end-to-end scenario: A locks, B blocks, A unlocks, B owns it
    let mut p = Process::new(1, 2);
    assert_eq!(sys_mutex_create(&mut p, true), 0);
    assert_eq!(sys_mutex_lock(&mut p, 0, 0), 0);
    assert_eq!(sys_mutex_lock(&mut p, 1, 0), 0);
    assert_eq!(status(&p, 1), TaskStatus::Blocked);
    assert_eq!(sys_mutex_unlock(&mut p, 0, 0), 0);
    // ownership moved directly: the lock flag never cleared
    assert!(mutex_locked(&p, 0));
    assert_eq!(held(&p, 0, ResourceType::Mutex, 0), 0);
    assert_eq!(held(&p, 1, ResourceType::Mutex, 0), 1);
    assert_eq!(status(&p, 1), TaskStatus::Ready);
    assert!(p.tasks[1].as_ref().unwrap().need.is_none());
}

#[test]
fn unlock_with_no_waiter_clears_the_lock() {
    let mut p = Process::new(1, 1);
    assert_eq!(sys_mutex_create(&mut p, true), 0);
    assert_eq!(sys_mutex_lock(&mut p, 0, 0), 0);
    assert_eq!(sys_mutex_unlock(&mut p, 0, 0), 0);
    assert!(!mutex_locked(&p, 0));
    assert_eq!(held(&p, 0, ResourceType::Mutex, 0), 0);
}

#[test]
fn fifo_two_handoffs_in_arrival_order() {
    let mut p = Process::new(1, 3);
    assert_eq!(sys_mutex_create(&mut p, true), 0);
    assert_eq!(sys_mutex_lock(&mut p, 0, 0), 0);
    assert_eq!(sys_mutex_lock(&mut p, 1, 0), 0);
    assert_eq!(sys_mutex_lock(&mut p, 2, 0), 0);
    assert_eq!(sys_mutex_unlock(&mut p, 0, 0), 0);
    // task 1 arrived first and is served first
    assert_eq!(held(&p, 1, ResourceType::Mutex, 0), 1);
    assert_eq!(status(&p, 2), TaskStatus::Blocked);
    assert_eq!(sys_mutex_unlock(&mut p, 1, 0), 0);
    assert_eq!(held(&p, 2, ResourceType::Mutex, 0), 1);
    assert_eq!(status(&p, 2), TaskStatus::Ready);
}

#[test]
fn spin_mutex_contender_stays_ready_and_retries() {
    let mut p = Process::new(1, 2);
    assert_eq!(sys_mutex_create(&mut p, false), 0);
    assert_eq!(sys_mutex_lock(&mut p, 0, 0), 0);
    assert_eq!(sys_mutex_lock(&mut p, 1, 0), 0);
    // spinning, not queued: ready to yield and retry
    assert_eq!(status(&p, 1), TaskStatus::Ready);
    assert_eq!(held(&p, 1, ResourceType::Mutex, 0), 0);
    assert_eq!(
        p.tasks[1].as_ref().unwrap().need,
        Some(Resource { type_: ResourceType::Mutex, id: 0 })
    );
    assert_eq!(sys_mutex_unlock(&mut p, 0, 0), 0);
    assert!(!mutex_locked(&p, 0));
    // the retry succeeds
    assert_eq!(sys_mutex_lock(&mut p, 1, 0), 0);
    assert!(mutex_locked(&p, 0));
    assert_eq!(held(&p, 1, ResourceType::Mutex, 0), 1);
}

#[test]
fn invalid_handles_are_refused() {
    let mut p = Process::new(1, 1);
    assert_eq!(sys_mutex_lock(&mut p, 0, 3), -1);
    assert_eq!(sys_mutex_unlock(&mut p, 0, 3), -1);
    assert_eq!(sys_semaphore_up(&mut p, 0, 0), -1);
    assert_eq!(sys_semaphore_down(&mut p, 0, 0), -1);
    assert_eq!(sys_condvar_signal(&mut p, 0), -1);
    assert_eq!(sys_condvar_wait(&mut p, 0, 0, 0), -1);
    p.mutex_list.push(None);
    assert_eq!(sys_mutex_lock(&mut p, 0, 0), -1);
}

#[test]
fn semaphore_down_and_blocking() {
    let mut p = Process::new(1, 3);
    assert_eq!(sys_semaphore_create(&mut p, 1), 0);
    assert_eq!(sys_semaphore_down(&mut p, 0, 0), 0);
    assert_eq!(held(&p, 0, ResourceType::Semaphore, 0), 1);
    assert_eq!(p.semaphore_list[0].as_ref().unwrap().count, 0);
    assert_eq!(sys_semaphore_down(&mut p, 1, 0), 0);
    assert_eq!(status(&p, 1), TaskStatus::Blocked);
    assert_eq!(p.semaphore_list[0].as_ref().unwrap().count, -1);
}

#[test]
fn semaphore_up_hands_unit_to_front_waiter() {
    let mut p = Process::new(1, 3);
    assert_eq!(sys_semaphore_create(&mut p, 0), 0);
    assert_eq!(sys_semaphore_down(&mut p, 1, 0), 0);
    assert_eq!(sys_semaphore_down(&mut p, 2, 0), 0);
    assert_eq!(status(&p, 1), TaskStatus::Blocked);
    // task 0 produces a unit it never held
    assert_eq!(sys_semaphore_up(&mut p, 0, 0), 0);
    assert_eq!(status(&p, 1), TaskStatus::Ready);
    assert_eq!(held(&p, 1, ResourceType::Semaphore, 0), 1);
    assert_eq!(status(&p, 2), TaskStatus::Blocked);
    assert_eq!(p.semaphore_list[0].as_ref().unwrap().count, -1);
}

#[test]
fn semaphore_conservation_over_a_sequence() {
    // outstanding grants never exceed initial count plus up calls
    let mut p = Process::new(1, 4);
    assert_eq!(sys_semaphore_create(&mut p, 2), 0);
    let initial: isize = 2;
    let mut ups: isize = 0;
    let steps: [(&str, usize); 7] = [
        ("down", 0),
        ("down", 1),
        ("down", 2),
        ("up", 0),
        ("up", 3),
        ("down", 3),
        ("up", 1),
    ];
    for (op, t) in steps {
        if op == "down" {
            assert_eq!(sys_semaphore_down(&mut p, t, 0), 0);
        } else {
            assert_eq!(sys_semaphore_up(&mut p, t, 0), 0);
            ups += 1;
        }
        let outstanding: usize = (0..4).map(|t| held(&p, t, ResourceType::Semaphore, 0)).sum();
        assert!(outstanding as isize <= initial + ups);
    }
}

#[test]
fn condvar_signal_without_waiters_is_noop() {
    let mut p = Process::new(1, 1);
    assert_eq!(sys_condvar_create(&mut p, 0), 0);
    assert_eq!(sys_condvar_signal(&mut p, 0), 0);
    assert_eq!(status(&p, 0), TaskStatus::Ready);
}

#[test]
fn condvar_wait_releases_mutex_and_signal_wakes_mesa_style() {
    let mut p = Process::new(1, 2);
    assert_eq!(sys_mutex_create(&mut p, true), 0);
    assert_eq!(sys_condvar_create(&mut p, 0), 0);
    assert_eq!(sys_mutex_lock(&mut p, 0, 0), 0);
    assert_eq!(sys_condvar_wait(&mut p, 0, 0, 0), 0);
    // the mutex was released on wait
    assert!(!mutex_locked(&p, 0));
    assert_eq!(status(&p, 0), TaskStatus::Blocked);
    // another task takes the mutex and signals
    assert_eq!(sys_mutex_lock(&mut p, 1, 0), 0);
    assert_eq!(sys_condvar_signal(&mut p, 0), 0);
    // woken, but granted no lock: it must re-acquire the mutex itself
    assert_eq!(status(&p, 0), TaskStatus::Ready);
    assert_eq!(held(&p, 0, ResourceType::Mutex, 0), 0);
    assert_eq!(sys_mutex_lock(&mut p, 0, 0), 0);
    assert_eq!(status(&p, 0), TaskStatus::Blocked);
    assert_eq!(sys_mutex_unlock(&mut p, 1, 0), 0);
    assert_eq!(held(&p, 0, ResourceType::Mutex, 0), 1);
    assert_eq!(status(&p, 0), TaskStatus::Ready);
}

#[test]
fn condvar_wait_hands_mutex_to_queued_contender() {
    let mut p = Process::new(1, 2);
    assert_eq!(sys_mutex_create(&mut p, true), 0);
    assert_eq!(sys_condvar_create(&mut p, 0), 0);
    assert_eq!(sys_mutex_lock(&mut p, 0, 0), 0);
    assert_eq!(sys_mutex_lock(&mut p, 1, 0), 0);
    assert_eq!(status(&p, 1), TaskStatus::Blocked);
    // waiting releases the mutex straight into the contender's hands
    assert_eq!(sys_condvar_wait(&mut p, 0, 0, 0), 0);
    assert!(mutex_locked(&p, 0));
    assert_eq!(held(&p, 1, ResourceType::Mutex, 0), 1);
    assert_eq!(status(&p, 1), TaskStatus::Ready);
}

#[test]
fn enable_deadlock_detect_validates_argument() {
    let mut p = Process::new(1, 1);
    assert_eq!(sys_enable_deadlock_detect(&mut p, 1), 0);
    assert!(p.deadlock_detect);
    assert_eq!(sys_enable_deadlock_detect(&mut p, 0), 0);
    assert!(!p.deadlock_detect);
    assert_eq!(sys_enable_deadlock_detect(&mut p, 2), -1);
    assert!(!p.deadlock_detect);
}

#[test]
fn scheduler_model_yield_sleep_wake_exit() {
    let mut p = Process::new(5, 2);
    assert_eq!(sys_getpid(&p), 5);
    assert_eq!(sys_yield(&mut p, 0), 0);
    assert_eq!(status(&p, 0), TaskStatus::Ready);
    assert_eq!(sys_sleep(&mut p, 0, 50), 0);
    assert_eq!(status(&p, 0), TaskStatus::Blocked);
    add_task(&mut p, 0);
    assert_eq!(status(&p, 0), TaskStatus::Ready);
    os::syscall::sys_exit(&mut p, 1, 0);
    assert_eq!(status(&p, 1), TaskStatus::Exited);
    assert_eq!(sys_set_priority(3), -1);
    assert_eq!(sys_spawn(0), -1);
}

#[test]
fn get_time_splits_microseconds() {
    let tv = sys_get_time(3_456_789);
    assert_eq!(tv, TimeVal { sec: 3, usec: 456_789 });
    let tv0 = sys_get_time(0);
    assert_eq!(tv0, TimeVal { sec: 0, usec: 0 });
}

#[test]
fn task_info_reports_age_in_milliseconds() {
    let mut stat = TaskStatistics::zero_init();
    assert_eq!(stat.first_run_time, 0);
    assert!(stat.sys_call_stat.iter().all(|&c| c == 0));
    stat.first_run_time = 1_000;
    let ti = sys_task_info(stat, 31_000);
    assert_eq!(ti.status, TaskStatus::Running);
    assert_eq!(ti.time, 30);
    assert!(ti.syscall_times.iter().all(|&c| c == 0));
}

#[test]
fn semaphore_and_condvar_create_reuse_slots() {
    let mut p = Process::new(1, 1);
    assert_eq!(sys_semaphore_create(&mut p, 3), 0);
    assert_eq!(sys_semaphore_create(&mut p, 0), 1);
    p.semaphore_list[0] = None;
    assert_eq!(sys_semaphore_create(&mut p, 5), 0);
    assert_eq!(p.semaphore_list[0].as_ref().unwrap().count, 5);
    assert_eq!(sys_condvar_create(&mut p, 0), 0);
    assert_eq!(sys_condvar_create(&mut p, 0), 1);
    p.condvar_list[0] = None;
    assert_eq!(sys_condvar_create(&mut p, 0), 0);
}
