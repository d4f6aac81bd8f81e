//! Monitor-style condition variable: a FIFO wait queue and nothing
//! else. The associated mutex is supplied by the caller at each wait,
//! never stored; signalling with no waiters is a no-op (signals are not
//! buffered), and a woken task is only made runnable — it re-acquires
//! the mutex itself (Mesa-style semantics).

use vstd::prelude::*;
use std::collections::VecDeque;

verus! {

/// Condition variable: just the FIFO queue of waiting task ids.
pub struct Condvar {
    pub wait_queue: VecDeque<usize>,
}

impl Condvar {
    /// A fresh condition variable with no waiters.
    pub fn new() -> (cv: Condvar)
        ensures
            cv.wait_queue@ == Seq::<usize>::empty(),
    {
        Condvar { wait_queue: VecDeque::new() }
    }

    /// Appends task `tid` to the wait queue; the syscall layer blocks
    /// the caller after releasing its mutex.
    pub fn wait_enqueue(&mut self, tid: usize)
        ensures
            final(self).wait_queue@ == old(self).wait_queue@.push(tid),
    {
        self.wait_queue.push_back(tid);
    }

    /// Pops the longest-waiting task, if any; the syscall layer makes
    /// it runnable. No lock is granted by a signal.
    pub fn signal(&mut self) -> (woken: Option<usize>)
        ensures
            (match woken {
                Some(tid) => {
                    &&& old(self).wait_queue@.len() > 0
                    &&& tid == old(self).wait_queue@[0]
                    &&& final(self).wait_queue@ == old(self).wait_queue@.drop_first()
                },
                None => {
                    &&& old(self).wait_queue@.len() == 0
                    &&& final(self).wait_queue@ == old(self).wait_queue@
                },
            }),
    {
        self.wait_queue.pop_front()
    }
}

} // verus!
