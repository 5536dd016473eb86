//! Model of the fixed worker pool fed by a shared FIFO job queue.
//!
//! The pool's decisions are modelled over plain values: jobs are named by
//! identifiers, submission enqueues at the tail, a worker turn claims the
//! oldest pending job, and the per-job boundary contains any handling
//! failure so that the worker set never shrinks. The threads themselves,
//! and the blocking channel they share, live outside the verified core;
//! this model is what they must do.

use vstd::prelude::*;

verus! {

/// Fallback worker count when parallelism cannot be detected.
pub const FALLBACK_POOL_SIZE: usize = 8;

/// Workers spawned per detected unit of parallelism.
pub const WORKERS_PER_CPU: usize = 4;

/// How the handling of one job ended.
pub enum JobOutcome {
    Completed,
    Failed,
}

/// The worker count for a detected parallelism: four workers per unit, at
/// least one; a fixed fallback when detection fails.
pub fn pool_size(parallelism: Option<usize>) -> (n: usize)
    requires
        (match parallelism {
            Option::Some(p) => p <= usize::MAX / 4,
            Option::None => true,
        }),
    ensures
        n >= 1,
        n as int == (match parallelism {
            Option::Some(p) => if p * 4 >= 1 {
                p * 4
            } else {
                1
            },
            Option::None => FALLBACK_POOL_SIZE as int,
        }),
{
    match parallelism {
        Option::Some(p) => {
            proof {
                vstd::arithmetic::div_mod::lemma_fundamental_div_mod(usize::MAX as int, 4);
            }
            let m = p * 4;
            if m >= 1 {
                m
            } else {
                1
            }
        },
        Option::None => FALLBACK_POOL_SIZE,
    }
}

/// The pool model: a fixed worker set, the FIFO queue of pending jobs, and
/// the record of the jobs served so far, oldest first.
pub struct ThreadPool {
    workers: usize,
    queue: Vec<u64>,
    served: Vec<u64>,
}

impl ThreadPool {
    /// The number of live workers.
    pub closed spec fn worker_count(self) -> int {
        self.workers as int
    }

    /// The jobs submitted and not yet claimed, oldest first.
    pub closed spec fn pending(self) -> Seq<u64> {
        self.queue@
    }

    /// The jobs claimed by workers so far, in the order they were claimed.
    pub closed spec fn served(self) -> Seq<u64> {
        self.served@
    }

    /// A pool of `size` workers with nothing pending.
    pub fn new(size: usize) -> (p: ThreadPool)
        requires
            size >= 1,
        ensures
            p.worker_count() == size,
            p.pending() == Seq::<u64>::empty(),
            p.served() == Seq::<u64>::empty(),
    {
        ThreadPool { workers: size, queue: Vec::new(), served: Vec::new() }
    }

    /// Submission: enqueues one job at the tail. It neither blocks on a
    /// worker nor touches the worker set.
    pub fn execute(&mut self, job: u64)
        ensures
            final(self).pending() == old(self).pending().push(job),
            final(self).worker_count() == old(self).worker_count(),
            final(self).served() == old(self).served(),
    {
        self.queue.push(job);
    }

    /// One worker turn: claims the oldest pending job, if any.
    pub fn take_job(&mut self) -> (job: Option<u64>)
        ensures
            final(self).worker_count() == old(self).worker_count(),
            (match job {
                Option::Some(j) => {
                    &&& old(self).pending().len() > 0
                    &&& j == old(self).pending()[0]
                    &&& final(self).pending() == old(self).pending().drop_first()
                    &&& final(self).served() == old(self).served().push(j)
                },
                Option::None => {
                    &&& old(self).pending().len() == 0
                    &&& final(self).pending() == old(self).pending()
                    &&& final(self).served() == old(self).served()
                },
            }),
    {
        if self.queue.len() == 0 {
            Option::None
        } else {
            let j = self.queue.remove(0);
            self.served.push(j);
            proof {
                assert(old(self).queue@.remove(0) =~= old(self).queue@.drop_first());
            }
            Option::Some(j)
        }
    }

    /// The per-job boundary: however the handling of the claimed job ended
    /// — normally or in a failure — the worker survives and the pool is
    /// unchanged; it goes back to dequeueing.
    pub fn finish_job(&mut self, outcome: JobOutcome) -> (alive: bool)
        ensures
            *final(self) == *old(self),
            alive,
    {
        match outcome {
            JobOutcome::Completed => true,
            JobOutcome::Failed => true,
        }
    }

    pub fn pending_count(&self) -> (n: usize)
        ensures
            n == self.pending().len(),
    {
        self.queue.len()
    }

    /// A copy of the record of served jobs, oldest first.
    pub fn served_jobs(&self) -> (r: Vec<u64>)
        ensures
            r@ == self.served(),
    {
        let mut r: Vec<u64> = Vec::new();
        let n = self.served.len();
        let mut i: usize = 0;
        while i < n
            invariant
                i <= n == self.served@.len(),
                r@ == self.served@.take(i as int),
            decreases n - i,
        {
            r.push(self.served[i]);
            proof {
                assert(self.served@.take(i + 1) =~= self.served@.take(i as int).push(
                    self.served@[i as int],
                ));
            }
            i = i + 1;
        }
        proof {
            assert(self.served@.take(n as int) =~= self.served@);
        }
        r
    }
}

/// The jobs that a run of worker turns serves out of a queue, oldest first:
/// one turn claims one job, whatever its outcome.
pub open spec fn served_after(q: Seq<u64>, turns: Seq<JobOutcome>) -> Seq<u64>
    decreases turns.len(),
{
    if turns.len() == 0 || q.len() == 0 {
        Seq::empty()
    } else {
        seq![q[0]] + served_after(q.drop_first(), turns.drop_first())
    }
}

/// Law: a handling failure is contained at the per-job boundary. However
/// the outcomes of a run of worker turns fall — failures included — enough
/// turns serve every queued job, in submission order: jobs submitted after
/// a failed one are still served.
pub proof fn lemma_failures_do_not_shrink_service(q: Seq<u64>, turns: Seq<JobOutcome>)
    requires
        turns.len() >= q.len(),
    ensures
        served_after(q, turns) == q,
    decreases q.len(),
{
    if q.len() > 0 {
        lemma_failures_do_not_shrink_service(q.drop_first(), turns.drop_first());
        assert(seq![q[0]] + q.drop_first() =~= q);
    } else {
        assert(served_after(q, turns) =~= q);
    }
}

} // verus!
