//! Mutual-exclusion locks: a spinning variant with no wait queue and a
//! blocking variant with a FIFO wait queue and direct ownership hand-off.
//!
//! On this cooperative single-core design a lock operation is a single
//! step: it either acquires the lock immediately or reports that the
//! caller must wait. For the blocking variant the caller is appended to
//! the wait queue; for the spinning variant the caller yields and
//! retries. Bookkeeping of the caller's `need` and held-resource fields
//! is done by the syscall layer, which owns the task table.

use vstd::prelude::*;
use std::collections::VecDeque;

verus! {

/// Abstract state shared by both mutex variants: the lock flag, the
/// FIFO wait queue (always empty for the spinning variant), and which
/// variant this is.
pub struct MutexView {
    pub locked: bool,
    pub queue: Seq<usize>,
    pub blocking: bool,
}

/// Common interface of the two lock strategies.
///
/// `lock` is one cooperative attempt; `unlock` releases or, when the
/// wait queue is non-empty, hands ownership directly to the front
/// waiter without any intermediate unlocked state.
pub trait Mutex: Sized {
    /// The abstract lock state this implementation maintains.
    spec fn model(&self) -> MutexView;

    /// Point-in-time snapshot of the lock flag, as read by the
    /// deadlock detector's available-work computation.
    fn is_locked(&self) -> (locked: bool)
        ensures
            locked == self.model().locked,
    ;

    /// One acquisition attempt by task `tid`. On a free mutex the
    /// caller acquires it; on a held blocking mutex the caller is
    /// appended to the wait queue; on a held spinning mutex nothing
    /// changes and the caller is expected to yield and retry.
    fn lock(&mut self, tid: usize) -> (acquired: bool)
        ensures
            final(self).model().blocking == old(self).model().blocking,
            acquired == !old(self).model().locked,
            final(self).model().locked,
            acquired ==> final(self).model().queue == old(self).model().queue,
            !acquired ==> final(self).model().queue == (if old(self).model().blocking {
                old(self).model().queue.push(tid)
            } else {
                old(self).model().queue
            }),
    ;

    /// Release by the owner. With waiters present, ownership moves to
    /// the front waiter and the lock flag never clears; with none, the
    /// lock flag clears.
    fn unlock(&mut self) -> (woken: Option<usize>)
        requires
            old(self).model().locked,
        ensures
            final(self).model().blocking == old(self).model().blocking,
            (match woken {
                Some(tid) => {
                    &&& old(self).model().queue.len() > 0
                    &&& tid == old(self).model().queue[0]
                    &&& final(self).model().queue == old(self).model().queue.drop_first()
                    &&& final(self).model().locked
                },
                None => {
                    &&& old(self).model().queue.len() == 0
                    &&& final(self).model().queue == old(self).model().queue
                    &&& !final(self).model().locked
                },
            }),
    ;
}

/// Spinning mutex: a lock flag only. Contention is resolved by the
/// caller yielding and retrying, so there is no wait queue.
pub struct MutexSpin {
    pub locked: bool,
}

impl MutexSpin {
    pub fn new() -> (m: MutexSpin)
        ensures
            !m.model().locked,
            m.model().queue == Seq::<usize>::empty(),
            !m.model().blocking,
    {
        MutexSpin { locked: false }
    }
}

impl Mutex for MutexSpin {
    open spec fn model(&self) -> MutexView {
        MutexView { locked: self.locked, queue: Seq::empty(), blocking: false }
    }

    fn is_locked(&self) -> (locked: bool) {
        self.locked
    }

    fn lock(&mut self, tid: usize) -> (acquired: bool) {
        if self.locked {
            false
        } else {
            self.locked = true;
            true
        }
    }

    fn unlock(&mut self) -> (woken: Option<usize>) {
        self.locked = false;
        None
    }
}

/// State of a blocking mutex: the lock flag and the FIFO queue of
/// waiting task ids.
pub struct MutexBlockingInner {
    pub locked: bool,
    pub wait_queue: VecDeque<usize>,
}

/// Blocking mutex: contenders queue in FIFO order and are granted
/// ownership directly by the releasing owner.
pub struct MutexBlocking {
    pub inner: MutexBlockingInner,
}

impl MutexBlocking {
    pub fn new() -> (m: MutexBlocking)
        ensures
            !m.model().locked,
            m.model().queue == Seq::<usize>::empty(),
            m.model().blocking,
    {
        MutexBlocking { inner: MutexBlockingInner { locked: false, wait_queue: VecDeque::new() } }
    }
}

impl Mutex for MutexBlocking {
    open spec fn model(&self) -> MutexView {
        MutexView { locked: self.inner.locked, queue: self.inner.wait_queue@, blocking: true }
    }

    fn is_locked(&self) -> (locked: bool) {
        self.inner.locked
    }

    fn lock(&mut self, tid: usize) -> (acquired: bool) {
        if self.inner.locked {
            self.inner.wait_queue.push_back(tid);
            false
        } else {
            self.inner.locked = true;
            true
        }
    }

    fn unlock(&mut self) -> (woken: Option<usize>) {
        match self.inner.wait_queue.pop_front() {
            Some(tid) => Some(tid),
            None => {
                self.inner.locked = false;
                None
            },
        }
    }
}

/// Tagged union of the two variants, as stored in a process's mutex
/// slot table.
pub enum MutexVariant {
    Spin(MutexSpin),
    Blocking(MutexBlocking),
}

impl MutexVariant {
    /// A fresh, unlocked mutex of the requested strategy.
    pub fn new(blocking: bool) -> (m: MutexVariant)
        ensures
            !m.model().locked,
            m.model().queue == Seq::<usize>::empty(),
            m.model().blocking == blocking,
    {
        if blocking {
            MutexVariant::Blocking(MutexBlocking::new())
        } else {
            MutexVariant::Spin(MutexSpin::new())
        }
    }
}

impl Mutex for MutexVariant {
    open spec fn model(&self) -> MutexView {
        match self {
            MutexVariant::Spin(m) => m.model(),
            MutexVariant::Blocking(m) => m.model(),
        }
    }

    fn is_locked(&self) -> (locked: bool) {
        match self {
            MutexVariant::Spin(m) => m.is_locked(),
            MutexVariant::Blocking(m) => m.is_locked(),
        }
    }

    fn lock(&mut self, tid: usize) -> (acquired: bool) {
        match self {
            MutexVariant::Spin(m) => m.lock(tid),
            MutexVariant::Blocking(m) => m.lock(tid),
        }
    }

    fn unlock(&mut self) -> (woken: Option<usize>) {
        match self {
            MutexVariant::Spin(m) => m.unlock(),
            MutexVariant::Blocking(m) => m.unlock(),
        }
    }
}

} // verus!
