//! FIFO fairness of the wait queues, as a theorem over whole
//! interleavings.
//!
//! Every syscall contract in this crate changes a wait queue in at
//! most one of two ways: a task that was in no queue is appended at
//! the back (`lock`, `down`, `wait` on contention), or the front
//! member is removed and made runnable (`unlock`, `up`, `signal`).
//! `queue_wait_step` captures exactly those changes, seen from two
//! fixed waiters `a` and `b`; `lemma_fifo_fairness` then shows that
//! over any sequence of such steps a task that began waiting behind
//! another is never woken before it.

use vstd::prelude::*;

verus! {

/// Task `a` waits ahead of task `b`: both are in the queue, `a`
/// strictly closer to the front.
pub open spec fn waits_before(q: Seq<usize>, a: usize, b: usize) -> bool {
    exists|i: int, j: int| 0 <= i < j < q.len() && (#[trigger] q[i]) == a && (#[trigger] q[j]) == b
}

/// One scheduler-visible change to a wait queue, during one wait
/// episode of `a` and `b`: nothing, the arrival of some other task
/// that was not yet queued, or the wake-up of the front member.
pub open spec fn queue_wait_step(pre: Seq<usize>, post: Seq<usize>, a: usize, b: usize) -> bool {
    ||| post == pre
    ||| (exists|t: usize| t != a && t != b && !pre.contains(t) && post == pre.push(t))
    ||| (pre.len() > 0 && post == pre.drop_first())
}

/// The inductive invariant behind FIFO fairness: queues stay
/// duplicate-free, and as long as `a` still waits it is still ahead
/// of `b`.
proof fn lemma_fifo_invariant(trace: Seq<Seq<usize>>, a: usize, b: usize, k: int)
    requires
        a != b,
        trace.len() > 0,
        trace[0].no_duplicates(),
        waits_before(trace[0], a, b),
        forall|x: int|
            0 <= x < trace.len() - 1 ==> queue_wait_step(trace[x], #[trigger] trace[x + 1], a, b),
        0 <= k < trace.len(),
    ensures
        trace[k].no_duplicates(),
        waits_before(trace[k], a, b) || !trace[k].contains(a),
    decreases k,
{
    if k > 0 {
        lemma_fifo_invariant(trace, a, b, k - 1);
        let pre = trace[k - 1];
        let post = trace[k];
        assert(queue_wait_step(trace[k - 1], trace[(k - 1) + 1], a, b));
        assert(queue_wait_step(pre, post, a, b));
        if post == pre {
        } else if exists|t: usize| t != a && t != b && !pre.contains(t) && post == pre.push(t) {
            let t = choose|t: usize| t != a && t != b && !pre.contains(t) && post == pre.push(t);
            assert(post.no_duplicates()) by {
                assert forall|x: int, y: int|
                    (0 <= x < post.len() && 0 <= y < post.len() && x != y) implies post[x]
                    != post[y] by {
                    if x < pre.len() && y < pre.len() {
                    } else if x < pre.len() {
                        assert(post[y] == t);
                        if post[x] == t {
                            assert(pre.contains(t));
                        }
                    } else {
                        assert(post[x] == t);
                        if post[y] == t {
                            assert(pre.contains(t));
                        }
                    }
                }
            }
            if waits_before(pre, a, b) {
                let (i, j) = choose|i: int, j: int|
                    0 <= i < j < pre.len() && (#[trigger] pre[i]) == a && (#[trigger] pre[j]) == b;
                assert(post[i] == a && post[j] == b);
                assert(waits_before(post, a, b));
            } else {
                assert(!pre.contains(a));
                if post.contains(a) {
                    let x = choose|x: int| 0 <= x < post.len() && post[x] == a;
                    assert(x == pre.len() ==> post[x] == t);
                    assert(x < pre.len() ==> pre.contains(a));
                }
            }
        } else {
            assert(pre.len() > 0 && post == pre.drop_first());
            assert(post.no_duplicates()) by {
                assert forall|x: int, y: int|
                    (0 <= x < post.len() && 0 <= y < post.len() && x != y) implies post[x]
                    != post[y] by {
                    assert(post[x] == pre[x + 1]);
                    assert(post[y] == pre[y + 1]);
                }
            }
            if waits_before(pre, a, b) {
                let (i, j) = choose|i: int, j: int|
                    0 <= i < j < pre.len() && (#[trigger] pre[i]) == a && (#[trigger] pre[j]) == b;
                if i == 0 {
                    // `a` itself is woken: it leaves the queue for good
                    if post.contains(a) {
                        let x = choose|x: int| 0 <= x < post.len() && post[x] == a;
                        assert(pre[x + 1] == a && pre[0] == a);
                    }
                } else {
                    assert(post[i - 1] == a && post[j - 1] == b);
                    assert(waits_before(post, a, b));
                }
            } else {
                if post.contains(a) {
                    let x = choose|x: int| 0 <= x < post.len() && post[x] == a;
                    assert(pre[x + 1] == a);
                }
            }
        }
    }
}

/// FIFO fairness: if `a` began one wait episode ahead of `b` on the
/// same queue, then across any interleaving of later arrivals and
/// front wake-ups, at every instant either `a` still waits strictly
/// ahead of `b`, or `a` has already been woken. In particular `b` is
/// never woken while `a` waits: a wake takes the front of the queue,
/// and the front is never `b` while `a` is ahead of it.
pub proof fn lemma_fifo_fairness(trace: Seq<Seq<usize>>, a: usize, b: usize)
    requires
        a != b,
        trace.len() > 0,
        trace[0].no_duplicates(),
        waits_before(trace[0], a, b),
        forall|x: int|
            0 <= x < trace.len() - 1 ==> queue_wait_step(trace[x], #[trigger] trace[x + 1], a, b),
    ensures
        forall|k: int|
            0 <= k < trace.len() ==> (waits_before(#[trigger] trace[k], a, b) || !trace[k].contains(
                a,
            )),
        forall|k: int|
            0 <= k < trace.len() && trace[k].contains(a) ==> (#[trigger] trace[k])[0] != b,
{
    assert forall|k: int|
        0 <= k < trace.len() implies (waits_before(#[trigger] trace[k], a, b) || !trace[k].contains(
        a,
    )) by {
        lemma_fifo_invariant(trace, a, b, k);
    }
    assert forall|k: int|
        0 <= k < trace.len() && trace[k].contains(a) implies (#[trigger] trace[k])[0] != b by {
        lemma_fifo_invariant(trace, a, b, k);
        let (i, j) = choose|i: int, j: int|
            0 <= i < j < trace[k].len() && (#[trigger] trace[k][i]) == a && (#[trigger] trace[k][j])
                == b;
        if trace[k][0] == b {
            assert(trace[k][j] == trace[k][0]);
        }
    }
}

} // verus!
