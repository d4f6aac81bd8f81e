//! Counting semaphore with a FIFO wait queue.
//!
//! `count` tracks available units; while it is negative its magnitude
//! equals the number of queued waiters. A release with waiters present
//! hands the freed unit directly to the front waiter, so no other task
//! can intercept it.

use vstd::prelude::*;
use std::collections::VecDeque;

verus! {

/// Largest value `count` may take. Bounding it keeps the release
/// operation and the deadlock detector's 64-bit available-work
/// accounting free of overflow.
pub const MAX_SEM_COUNT: isize = 0x4000_0000;

/// Counting semaphore: available units plus the FIFO queue of task ids
/// blocked on an acquisition.
pub struct Semaphore {
    pub count: isize,
    pub wait_queue: VecDeque<usize>,
}

impl Semaphore {
    /// Internal consistency: the wait queue is exactly as long as the
    /// deficit of units, and the count never exceeds its cap.
    pub open spec fn wf(&self) -> bool {
        &&& self.count <= MAX_SEM_COUNT
        &&& self.wait_queue@.len() == (if self.count < 0 {
            -(self.count as int)
        } else {
            0int
        })
    }

    /// A fresh semaphore holding `res_count` available units.
    pub fn new(res_count: usize) -> (sem: Semaphore)
        requires
            res_count <= MAX_SEM_COUNT,
        ensures
            sem.wf(),
            sem.count == res_count,
            sem.wait_queue@ == Seq::<usize>::empty(),
    {
        Semaphore { count: res_count as isize, wait_queue: VecDeque::new() }
    }

    /// One acquisition attempt by task `tid`: the available count drops
    /// by one; if it goes negative the caller joins the wait queue and
    /// must block.
    pub fn down(&mut self, tid: usize) -> (acquired: bool)
        requires
            old(self).wf(),
            old(self).count > isize::MIN,
        ensures
            final(self).wf(),
            final(self).count == old(self).count - 1,
            acquired == (old(self).count > 0),
            acquired ==> final(self).wait_queue@ == old(self).wait_queue@,
            !acquired ==> final(self).wait_queue@ == old(self).wait_queue@.push(tid),
    {
        self.count = self.count - 1;
        if self.count < 0 {
            self.wait_queue.push_back(tid);
            false
        } else {
            true
        }
    }

    /// One release: the available count rises by one; if any task is
    /// waiting, the front waiter receives the freed unit directly.
    pub fn up(&mut self) -> (woken: Option<usize>)
        requires
            old(self).wf(),
            old(self).count < MAX_SEM_COUNT,
        ensures
            final(self).wf(),
            final(self).count == old(self).count + 1,
            (match woken {
                Some(tid) => {
                    &&& old(self).count < 0
                    &&& old(self).wait_queue@.len() > 0
                    &&& tid == old(self).wait_queue@[0]
                    &&& final(self).wait_queue@ == old(self).wait_queue@.drop_first()
                },
                None => {
                    &&& old(self).count >= 0
                    &&& final(self).wait_queue@ == old(self).wait_queue@
                },
            }),
    {
        self.count = self.count + 1;
        if self.count <= 0 {
            match self.wait_queue.pop_front() {
                Some(tid) => Some(tid),
                None => None,
            }
        } else {
            None
        }
    }
}

} // verus!
