use vstd::prelude::*;
use vstd::set_lib::set_int_range;
use crate::task_queue::{TaskQueue, Received};

verus! {

/// Where a worker stands in its consume-and-execute loop.
#[derive(PartialEq, Eq, Structural, Clone, Copy, Debug)]
pub enum WorkerState {
    /// Waiting for a task (or for the queue to close).
    Idle,
    /// Running the task with this ticket.
    Executing { ticket: u64 },
    /// Saw the queue closed and empty; the worker's loop has ended.
    Terminated,
}

/// A task together with the ticket it was given at submission. Tickets count
/// submissions from 0 upward.
pub struct Job<T> {
    pub ticket: u64,
    pub task: T,
}

#[derive(PartialEq, Eq, Structural, Clone, Copy, Debug)]
pub enum PoolError {
    /// A pool was asked for with no workers.
    ZeroWorkers,
    /// A submission came after shutdown began.
    PoolClosed,
}

/// What a worker is told to do next.
pub enum Assignment<T> {
    /// Execute this job, then report back with `finish`.
    Run(Job<T>),
    /// Nothing to do yet: block until the pool changes, then ask again.
    Wait,
    /// The pool is shut down and drained: leave the loop.
    Exit,
}

/// Number of workers that are executing a task.
pub open spec fn busy(ws: Seq<WorkerState>) -> nat
    decreases ws.len(),
{
    if ws.len() == 0 {
        0
    } else {
        busy(ws.drop_last()) + if ws.last() is Executing {
            1nat
        } else {
            0nat
        }
    }
}

proof fn lemma_busy_update(ws: Seq<WorkerState>, i: int, x: WorkerState)
    requires
        0 <= i < ws.len(),
    ensures
        busy(ws.update(i, x)) + (if ws[i] is Executing {
            1nat
        } else {
            0nat
        }) == busy(ws) + (if x is Executing {
            1nat
        } else {
            0nat
        }),
    decreases ws.len(),
{
    if i == ws.len() - 1 {
        assert(ws.update(i, x).drop_last() =~= ws.drop_last());
    } else {
        assert(ws.update(i, x).drop_last() =~= ws.drop_last().update(i, x));
        lemma_busy_update(ws.drop_last(), i, x);
    }
}

proof fn lemma_busy_bound(ws: Seq<WorkerState>)
    ensures
        busy(ws) <= ws.len(),
    decreases ws.len(),
{
    if ws.len() > 0 {
        lemma_busy_bound(ws.drop_last());
    }
}

/// The coordination state of a fixed-size worker pool: the task queue, the
/// state of each worker and the bookkeeping of tickets. Threads drive it from
/// outside; every decision about which task goes where is taken here.
pub struct WorkerPool<T> {
    queue: TaskQueue<Job<T>>,
    workers: Vec<WorkerState>,
    submitted: u64,
    started: u64,
    completed: u64,
    faults: u64,
    done: Ghost<Set<int>>,
}

impl<T> WorkerPool<T> {
    /// Jobs waiting in the queue, oldest first.
    pub closed spec fn pending(&self) -> Seq<Job<T>> {
        self.queue.pending()
    }

    /// Whether shutdown has closed the queue.
    pub closed spec fn shut(&self) -> bool {
        self.queue.is_closed_spec()
    }

    pub closed spec fn worker_states(&self) -> Seq<WorkerState> {
        self.workers@
    }

    /// Number of tasks accepted so far; also the next ticket.
    pub closed spec fn submitted(&self) -> nat {
        self.submitted as nat
    }

    /// Number of tasks handed to a worker so far.
    pub closed spec fn started(&self) -> nat {
        self.started as nat
    }

    /// Number of tasks whose execution has ended, with or without a fault.
    pub closed spec fn completed(&self) -> nat {
        self.completed as nat
    }

    /// Number of tasks that ended with a fault.
    pub closed spec fn faults(&self) -> nat {
        self.faults as nat
    }

    /// Tickets of the tasks whose execution has ended.
    pub closed spec fn done(&self) -> Set<int> {
        self.done@
    }

    /// The number of workers, fixed at construction.
    pub open spec fn size(&self) -> nat {
        self.worker_states().len()
    }

    /// Whether worker `w` is executing the task with ticket `t`.
    pub open spec fn runs(&self, w: int, t: int) -> bool {
        0 <= w < self.size() && (self.worker_states()[w] matches WorkerState::Executing {
            ticket,
        } && ticket == t)
    }

    /// Whether every worker has left its loop.
    pub open spec fn all_terminated_spec(&self) -> bool {
        forall|w: int| 0 <= w < self.size() ==> #[trigger] self.worker_states()[w] is Terminated
    }

    /// The pool's invariant.
    pub closed spec fn wf(&self) -> bool {
        &&& self.workers@.len() >= 1
        &&& self.completed <= self.started <= self.submitted
        &&& self.faults <= self.completed
        &&& self.queue.pending().len() == self.submitted - self.started
        &&& forall|k: int|
            0 <= k < self.queue.pending().len() ==> #[trigger] self.queue.pending()[k].ticket
                == self.started + k
        &&& forall|w: int|
            0 <= w < self.workers@.len() ==> match #[trigger] self.workers@[w] {
                WorkerState::Executing { ticket } => ticket < self.started && !self.done@.contains(
                    ticket as int,
                ),
                WorkerState::Terminated => self.queue.is_closed_spec()
                    && self.queue.pending().len() == 0,
                WorkerState::Idle => true,
            }
        &&& forall|w1: int, w2: int|
            0 <= w1 < self.workers@.len() && 0 <= w2 < self.workers@.len() && w1 != w2
                && #[trigger] self.workers@[w1] is Executing && #[trigger] self.workers@[w2] is Executing
                ==> self.workers@[w1] != self.workers@[w2]
        &&& forall|t: int| #[trigger] self.done@.contains(t) ==> 0 <= t < self.started
        &&& forall|t: int|
            0 <= t < self.started && !#[trigger] self.done@.contains(t) ==> exists|w: int|
                self.runs(w, t)
        &&& self.done@.finite()
        &&& self.done@.len() == self.completed
        &&& self.started - self.completed == busy(self.workers@)
    }

    /// The workers and all counters are those of `o`.
    pub open spec fn same_workers_and_counts(&self, o: &Self) -> bool {
        &&& self.worker_states() == o.worker_states()
        &&& self.submitted() == o.submitted()
        &&& self.started() == o.started()
        &&& self.completed() == o.completed()
        &&& self.faults() == o.faults()
        &&& self.done() == o.done()
    }

    /// A pool of `worker_count` idle workers around an open, empty queue;
    /// refused when `worker_count` is zero.
    pub fn new(worker_count: usize) -> (r: Result<Self, PoolError>)
        ensures
            worker_count == 0 <==> r == Err::<Self, PoolError>(PoolError::ZeroWorkers),
            worker_count > 0 ==> (r matches Ok(p) && {
                &&& p.wf()
                &&& p.size() == worker_count
                &&& forall|w: int| 0 <= w < p.size() ==> #[trigger] p.worker_states()[w] is Idle
                &&& p.pending() == Seq::<Job<T>>::empty()
                &&& !p.shut()
                &&& p.submitted() == 0
                &&& p.started() == 0
                &&& p.completed() == 0
                &&& p.faults() == 0
                &&& p.done() == Set::<int>::empty()
            }),
    {
        if worker_count == 0 {
            return Err(PoolError::ZeroWorkers);
        }
        let mut workers: Vec<WorkerState> = Vec::new();
        let mut i: usize = 0;
        while i < worker_count
            invariant
                i <= worker_count,
                workers@.len() == i,
                forall|w: int| 0 <= w < i ==> #[trigger] workers@[w] is Idle,
                busy(workers@) == 0,
            decreases worker_count - i,
        {
            proof {
                assert(workers@.push(WorkerState::Idle).drop_last() =~= workers@);
            }
            workers.push(WorkerState::Idle);
            i = i + 1;
        }
        let p = WorkerPool {
            queue: TaskQueue::new(),
            workers,
            submitted: 0,
            started: 0,
            completed: 0,
            faults: 0,
            done: Ghost(Set::empty()),
        };
        Ok(p)
    }

    /// Hands `task` to the queue under the next ticket, which is returned.
    /// After shutdown the task is refused and the pool is left as it was.
    pub fn submit(&mut self, task: T) -> (r: Result<u64, PoolError>)
        requires
            old(self).wf(),
            old(self).submitted() < u64::MAX,
        ensures
            final(self).wf(),
            final(self).shut() == old(self).shut(),
            old(self).shut() ==> {
                &&& r == Err::<u64, PoolError>(PoolError::PoolClosed)
                &&& final(self).pending() == old(self).pending()
                &&& final(self).same_workers_and_counts(old(self))
            },
            !old(self).shut() ==> {
                &&& r == Ok::<u64, PoolError>(old(self).submitted() as u64)
                &&& final(self).pending() == old(self).pending().push(
                    (Job { ticket: old(self).submitted() as u64, task }),
                )
                &&& final(self).submitted() == old(self).submitted() + 1
                &&& final(self).worker_states() == old(self).worker_states()
                &&& final(self).started() == old(self).started()
                &&& final(self).completed() == old(self).completed()
                &&& final(self).faults() == old(self).faults()
                &&& final(self).done() == old(self).done()
            },
    {
        let ticket = self.submitted;
        match self.queue.send(Job { ticket, task }) {
            Ok(()) => {
                let ghost pre = *old(self);
                self.submitted = self.submitted + 1;
                proof {
                    assert forall|k: int|
                        0 <= k < self.queue.pending().len() implies #[trigger] self.queue.pending()[k].ticket
                        == self.started + k by {
                        if k < pre.queue.pending().len() {
                            assert(self.queue.pending()[k] == pre.queue.pending()[k]);
                        }
                    }
                    assert forall|t: int|
                        0 <= t < self.started && !#[trigger] self.done@.contains(t) implies exists|
                        v: int,
                    | self.runs(v, t) by {
                        let v = choose|v: int| pre.runs(v, t);
                        assert(self.runs(v, t));
                    }
                }
                Ok(ticket)
            },
            Err(_) => {
                let ghost pre = *old(self);
                proof {
                    assert forall|t: int|
                        0 <= t < self.started && !#[trigger] self.done@.contains(t) implies exists|
                        v: int,
                    | self.runs(v, t) by {
                        let v = choose|v: int| pre.runs(v, t);
                        assert(self.runs(v, t));
                    }
                }
                Err(PoolError::PoolClosed)
            },
        }
    }

    /// One step of worker `w`'s loop, taken while it is idle: the oldest
    /// pending job if there is one; otherwise `Wait` while the pool is open
    /// and `Exit` once it is shut down.
    pub fn next_for(&mut self, w: usize) -> (r: Assignment<T>)
        requires
            old(self).wf(),
            w < old(self).size(),
            old(self).worker_states()[w as int] is Idle,
        ensures
            final(self).wf(),
            final(self).shut() == old(self).shut(),
            final(self).submitted() == old(self).submitted(),
            final(self).completed() == old(self).completed(),
            final(self).faults() == old(self).faults(),
            final(self).done() == old(self).done(),
            old(self).pending().len() > 0 ==> {
                &&& r == Assignment::Run(old(self).pending()[0])
                &&& old(self).pending()[0].ticket == old(self).started()
                &&& final(self).pending() == old(self).pending().drop_first()
                &&& final(self).started() == old(self).started() + 1
                &&& final(self).worker_states() == old(self).worker_states().update(
                    w as int,
                    WorkerState::Executing { ticket: old(self).started() as u64 },
                )
            },
            old(self).pending().len() == 0 ==> {
                &&& final(self).pending() == old(self).pending()
                &&& final(self).started() == old(self).started()
                &&& if old(self).shut() {
                    r is Exit && final(self).worker_states() == old(self).worker_states().update(
                        w as int,
                        WorkerState::Terminated,
                    )
                } else {
                    r is Wait && final(self).worker_states() == old(self).worker_states()
                }
            },
    {
        let ghost pre = *self;
        match self.queue.receive() {
            Received::Task(job) => {
                let ticket = job.ticket;
                proof {
                    lemma_busy_update(self.workers@, w as int, WorkerState::Executing { ticket });
                }
                self.workers.set(w, WorkerState::Executing { ticket });
                self.started = self.started + 1;
                proof {
                    assert(!self.done@.contains(ticket as int));
                    assert forall|w1: int| 0 <= w1 < self.workers@.len() implies match #[trigger] self.workers@[w1] {
                        WorkerState::Executing { ticket } => ticket < self.started && !self.done@.contains(
                            ticket as int,
                        ),
                        WorkerState::Terminated => self.queue.is_closed_spec()
                            && self.queue.pending().len() == 0,
                        WorkerState::Idle => true,
                    } by {
                        if w1 != w {
                            assert(pre.workers@[w1] == self.workers@[w1]);
                        }
                    }
                    assert forall|w1: int, w2: int|
                        0 <= w1 < self.workers@.len() && 0 <= w2 < self.workers@.len() && w1 != w2
                            && #[trigger] self.workers@[w1] is Executing
                            && #[trigger] self.workers@[w2] is Executing implies self.workers@[w1]
                        != self.workers@[w2] by {
                        if w1 != w && w2 != w {
                            assert(pre.workers@[w1] is Executing && pre.workers@[w2] is Executing);
                        } else if w1 == w {
                            assert(pre.workers@[w2] is Executing);
                        } else {
                            assert(pre.workers@[w1] is Executing);
                        }
                    }
                    assert forall|t: int|
                        0 <= t < self.started && !#[trigger] self.done@.contains(t) implies exists|
                        v: int,
                    | self.runs(v, t) by {
                        if t < pre.started {
                            let v = choose|v: int| pre.runs(v, t);
                            assert(self.runs(v, t));
                        } else {
                            assert(self.runs(w as int, t));
                        }
                    }
                    assert forall|k: int|
                        0 <= k < self.queue.pending().len() implies #[trigger] self.queue.pending()[k].ticket
                        == self.started + k by {
                        assert(self.queue.pending()[k] == pre.queue.pending()[k + 1]);
                    }
                }
                Assignment::Run(job)
            },
            Received::Empty => {
                proof {
                    assert forall|t: int|
                        0 <= t < self.started && !#[trigger] self.done@.contains(t) implies exists|
                        v: int,
                    | self.runs(v, t) by {
                        let v = choose|v: int| pre.runs(v, t);
                        assert(self.runs(v, t));
                    }
                }
                Assignment::Wait
            },
            Received::Closed => {
                proof {
                    lemma_busy_update(self.workers@, w as int, WorkerState::Terminated);
                }
                self.workers.set(w, WorkerState::Terminated);
                proof {
                    assert forall|t: int|
                        0 <= t < self.started && !#[trigger] self.done@.contains(t) implies exists|
                        v: int,
                    | self.runs(v, t) by {
                        let v = choose|v: int| pre.runs(v, t);
                        assert(self.runs(v, t));
                    }
                }
                Assignment::Exit
            },
        }
    }

    /// Worker `w` reports that its task has ended, normally or with a fault.
    /// Either way the worker goes back to idle and keeps serving the queue.
    pub fn finish(&mut self, w: usize, faulted: bool)
        requires
            old(self).wf(),
            w < old(self).size(),
            old(self).worker_states()[w as int] is Executing,
        ensures
            final(self).wf(),
            final(self).pending() == old(self).pending(),
            final(self).shut() == old(self).shut(),
            final(self).submitted() == old(self).submitted(),
            final(self).started() == old(self).started(),
            final(self).worker_states() == old(self).worker_states().update(
                w as int,
                WorkerState::Idle,
            ),
            final(self).completed() == old(self).completed() + 1,
            final(self).faults() == old(self).faults() + if faulted {
                1nat
            } else {
                0nat
            },
            old(self).worker_states()[w as int] matches WorkerState::Executing { ticket } && {
                &&& !old(self).done().contains(ticket as int)
                &&& final(self).done() == old(self).done().insert(ticket as int)
            },
    {
        let ghost pre = *self;
        let ticket = match self.workers[w] {
            WorkerState::Executing { ticket } => ticket,
            _ => 0,
        };
        proof {
            lemma_busy_update(self.workers@, w as int, WorkerState::Idle);
        }
        self.workers.set(w, WorkerState::Idle);
        self.completed = self.completed + 1;
        if faulted {
            self.faults = self.faults + 1;
        }
        proof {
            self.done@ = self.done@.insert(ticket as int);
            assert forall|w1: int| 0 <= w1 < self.workers@.len() implies match #[trigger] self.workers@[w1] {
                WorkerState::Executing { ticket } => ticket < self.started && !self.done@.contains(
                    ticket as int,
                ),
                WorkerState::Terminated => self.queue.is_closed_spec()
                    && self.queue.pending().len() == 0,
                WorkerState::Idle => true,
            } by {
                if w1 != w {
                    assert(pre.workers@[w1] == self.workers@[w1]);
                }
            }
            assert forall|t: int|
                0 <= t < self.started && !#[trigger] self.done@.contains(t) implies exists|v: int|
                self.runs(v, t) by {
                let v = choose|v: int| pre.runs(v, t);
                assert(self.runs(v, t));
            }
        }
    }

    /// Closes the queue: no submission is accepted from now on, and workers
    /// leave their loops once the pending jobs are drained.
    pub fn shutdown(&mut self)
        requires
            old(self).wf(),
        ensures
            final(self).wf(),
            final(self).shut(),
            final(self).pending() == old(self).pending(),
            final(self).same_workers_and_counts(old(self)),
    {
        let ghost pre = *self;
        self.queue.close();
        proof {
            assert forall|t: int|
                0 <= t < self.started && !#[trigger] self.done@.contains(t) implies exists|v: int|
                self.runs(v, t) by {
                let v = choose|v: int| pre.runs(v, t);
                assert(self.runs(v, t));
            }
        }
    }

    /// Whether every worker has left its loop: the moment shutdown may return.
    pub fn all_terminated(&self) -> (r: bool)
        ensures
            r == self.all_terminated_spec(),
    {
        let mut i: usize = 0;
        while i < self.workers.len()
            invariant
                i <= self.workers@.len(),
                forall|w: int| 0 <= w < i ==> #[trigger] self.workers@[w] is Terminated,
            decreases self.workers@.len() - i,
        {
            match self.workers[i] {
                WorkerState::Terminated => {},
                _ => {
                    return false;
                },
            }
            i = i + 1;
        }
        true
    }

    pub fn worker_count(&self) -> (r: usize)
        ensures
            r == self.size(),
    {
        self.workers.len()
    }

    pub fn worker_state(&self, w: usize) -> (r: WorkerState)
        requires
            w < self.size(),
        ensures
            r == self.worker_states()[w as int],
    {
        self.workers[w]
    }

    pub fn is_shut_down(&self) -> (r: bool)
        ensures
            r == self.shut(),
    {
        self.queue.is_closed()
    }

    pub fn pending_count(&self) -> (r: usize)
        ensures
            r == self.pending().len(),
    {
        self.queue.len()
    }

    pub fn submitted_count(&self) -> (r: u64)
        ensures
            r == self.submitted(),
    {
        self.submitted
    }

    pub fn started_count(&self) -> (r: u64)
        ensures
            r == self.started(),
    {
        self.started
    }

    pub fn completed_count(&self) -> (r: u64)
        ensures
            r == self.completed(),
    {
        self.completed
    }

    pub fn fault_count(&self) -> (r: u64)
        ensures
            r == self.faults(),
    {
        self.faults
    }

    /// Number of tasks being executed right now.
    pub fn in_flight(&self) -> (r: u64)
        requires
            self.wf(),
        ensures
            r == busy(self.worker_states()),
            r <= self.size(),
    {
        proof {
            lemma_busy_bound(self.workers@);
        }
        self.started - self.completed
    }

    /// Every accepted task is in exactly one place: still pending (and then at
    /// the position its ticket gives), held by exactly one executing worker, or
    /// ended. No ticket is lost and none is run twice.
    pub proof fn lemma_each_task_in_one_place(&self)
        requires
            self.wf(),
        ensures
            self.completed() <= self.started() <= self.submitted(),
            self.pending().len() == self.submitted() - self.started(),
            forall|k: int|
                0 <= k < self.pending().len() ==> #[trigger] self.pending()[k].ticket
                    == self.started() + k,
            forall|t: int| #[trigger] self.done().contains(t) ==> 0 <= t < self.started(),
            forall|t: int|
                0 <= t < self.started() ==> (#[trigger] self.done().contains(t) <==> !exists|
                    w: int,
                | self.runs(w, t)),
            forall|w: int, t: int| #[trigger] self.runs(w, t) ==> 0 <= t < self.started(),
            forall|w1: int, w2: int, t: int|
                #[trigger] self.runs(w1, t) && #[trigger] self.runs(w2, t) ==> w1 == w2,
            self.done().len() == self.completed(),
    {
        assert forall|w1: int, w2: int, t: int|
            #[trigger] self.runs(w1, t) && #[trigger] self.runs(w2, t) implies w1 == w2 by {
            if w1 != w2 {
                assert(self.workers@[w1] is Executing && self.workers@[w2] is Executing);
            }
        }
        assert forall|t: int| 0 <= t < self.started() implies (#[trigger] self.done().contains(t)
            <==> !exists|w: int| self.runs(w, t)) by {
            if self.done().contains(t) {
                assert forall|w: int| !self.runs(w, t) by {
                    if self.runs(w, t) {
                        assert(self.workers@[w] is Executing);
                    }
                }
            }
        }
        assert forall|w: int, t: int| #[trigger] self.runs(w, t) implies 0 <= t < self.started() by {
            assert(self.workers@[w] is Executing);
        }
    }

    /// Once every worker has terminated, the queue is closed and empty and every
    /// task ever accepted has been executed to its end, each exactly once.
    pub proof fn lemma_terminated_pool_is_drained(&self)
        requires
            self.wf(),
            self.all_terminated_spec(),
        ensures
            self.shut(),
            self.pending().len() == 0,
            self.started() == self.submitted(),
            self.done() == set_int_range(0, self.submitted() as int),
            self.completed() == self.submitted(),
    {
        assert(self.workers@[0] is Terminated);
        assert forall|t: int| 0 <= t < self.started implies self.done@.contains(t) by {
            if !self.done@.contains(t) {
                let w = choose|w: int| self.runs(w, t);
                assert(self.workers@[w] is Terminated);
            }
        }
        assert(self.done@ =~= set_int_range(0, self.submitted as int));
        vstd::set_lib::lemma_int_range(0, self.submitted as int);
    }

    /// Pending jobs leave in the order they were submitted: tickets grow
    /// strictly from the head of the queue to its tail, and the head carries
    /// the next ticket to be started.
    pub proof fn lemma_pending_in_submission_order(&self)
        requires
            self.wf(),
        ensures
            forall|i: int, j: int|
                0 <= i < j < self.pending().len() ==> #[trigger] self.pending()[i].ticket
                    < #[trigger] self.pending()[j].ticket,
            self.pending().len() > 0 ==> self.pending()[0].ticket == self.started(),
    {
    }

    /// At most `size()` tasks execute at once: the tasks started and not yet
    /// ended are exactly as many as the executing workers.
    pub proof fn lemma_concurrency_bound(&self)
        requires
            self.wf(),
        ensures
            self.started() - self.completed() == busy(self.worker_states()),
            busy(self.worker_states()) <= self.size(),
    {
        lemma_busy_bound(self.workers@);
    }
}

} // verus!
