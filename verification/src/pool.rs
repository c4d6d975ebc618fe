//! The worker pool's coordination logic.
//!
//! A `ThreadPool` value is the shared state that the pool's threads
//! coordinate through: the first-in-first-out queue of pending messages, the
//! fixed roster of workers, and the shutdown flag. Submission, the shutdown
//! protocol (one `Exit` order per worker, pushed through the same queue after
//! all accepted work, so every job accepted before shutdown is drained before
//! the workers stop), and the worker's two-state lifecycle are all verified
//! here. Running a popped job on an operating-system thread is the caller's
//! side of the bargain: `worker_step` hands the ticket out and the embedding
//! program invokes the work it registered under that ticket.

use vstd::prelude::*;
use crossbeam::queue::SegQueue;
use crate::queue::{seg_items, seg_new, seg_push, seg_pop, seg_len};

verus! {

/// A message travelling through the pool's shared queue: either one unit of
/// work, identified by the ticket the submitter attached to it, or an order
/// for the worker that receives it to exit its loop.
#[derive(Clone, Copy, Debug, PartialEq, Eq, Structural)]
pub enum Message {
    Job(u64),
    Exit,
}

impl Message {
    /// Whether the message carries work rather than a termination order.
    pub fn is_job(&self) -> (r: bool)
        ensures
            r == (self is Job),
    {
        match self {
            Message::Job(_) => true,
            Message::Exit => false,
        }
    }
}

/// A worker is a two-state machine: it runs until it receives an `Exit`
/// order, and `Stopped` is terminal.
#[derive(Clone, Copy, Debug, PartialEq, Eq, Structural)]
pub enum WorkerState {
    Running,
    Stopped,
}

/// What a worker does with the message it popped: run the job with the given
/// ticket, stop for good, or wait because the queue was empty.
#[derive(Clone, Copy, Debug, PartialEq, Eq, Structural)]
pub enum WorkerAction {
    Run(u64),
    Stop,
    Wait,
}

/// The error a caller gets back from the pool.
#[derive(Clone, Copy, PartialEq, Eq, Structural, Debug)]
pub enum PoolError {
    /// `execute` was called after shutdown had begun.
    SubmittedAfterShutdown,
}

/// One worker of the pool: an identity and its lifecycle state.
#[derive(Clone, Copy)]
pub struct Worker {
    id: usize,
    state: WorkerState,
}

impl Worker {
    /// The worker's identity: its index in the pool's roster.
    pub closed spec fn spec_id(self) -> nat {
        self.id as nat
    }

    /// Whether the worker has not yet received its `Exit` order.
    pub closed spec fn running(self) -> bool {
        self.state is Running
    }

    pub fn id(&self) -> (i: usize)
        ensures
            i == self.spec_id(),
    {
        self.id
    }

    pub fn is_running(&self) -> (r: bool)
        ensures
            r == self.running(),
    {
        match self.state {
            WorkerState::Running => true,
            WorkerState::Stopped => false,
        }
    }
}

/// The message a queue slot stands for: `Some(ticket)` is work, `None` is a
/// termination order.
pub open spec fn slot_message(s: Option<u64>) -> Message {
    match s {
        Some(id) => Message::Job(id),
        None => Message::Exit,
    }
}

/// The job messages carrying the tickets `ids`, in that order.
pub open spec fn job_messages(ids: Seq<u64>) -> Seq<Message> {
    ids.map_values(|id: u64| Message::Job(id))
}

/// A run of `n` termination orders.
pub open spec fn exit_messages(n: nat) -> Seq<Message> {
    Seq::new(n, |i: int| Message::Exit)
}

/// The tickets of the job messages in `msgs`, in queue order.
pub open spec fn jobs_of(msgs: Seq<Message>) -> Seq<u64>
    decreases msgs.len(),
{
    if msgs.len() == 0 {
        Seq::empty()
    } else {
        match msgs[0] {
            Message::Job(id) => seq![id] + jobs_of(msgs.drop_first()),
            Message::Exit => jobs_of(msgs.drop_first()),
        }
    }
}

/// How many `Exit` orders `msgs` holds.
pub open spec fn exit_count(msgs: Seq<Message>) -> nat
    decreases msgs.len(),
{
    if msgs.len() == 0 {
        0
    } else {
        (if msgs[0] is Exit {
            1nat
        } else {
            0nat
        }) + exit_count(msgs.drop_first())
    }
}

/// How many workers of `ws` are still running.
pub open spec fn running_count(ws: Seq<Worker>) -> nat
    decreases ws.len(),
{
    if ws.len() == 0 {
        0
    } else {
        (if ws[0].running() {
            1nat
        } else {
            0nat
        }) + running_count(ws.drop_first())
    }
}

proof fn lemma_jobs_of_push(msgs: Seq<Message>, m: Message)
    ensures
        jobs_of(msgs.push(m)) == (match m {
            Message::Job(id) => jobs_of(msgs).push(id),
            Message::Exit => jobs_of(msgs),
        }),
    decreases msgs.len(),
{
    if msgs.len() == 0 {
        assert(msgs.push(m)[0] == m);
        assert(msgs.push(m).drop_first() =~= Seq::<Message>::empty());
        assert(jobs_of(Seq::<Message>::empty()) == Seq::<u64>::empty());
        match m {
            Message::Job(id) => {
                assert(jobs_of(msgs.push(m)) =~= jobs_of(msgs).push(id));
            },
            Message::Exit => {},
        }
    } else {
        assert(msgs.push(m)[0] == msgs[0]);
        assert(msgs.push(m).drop_first() =~= msgs.drop_first().push(m));
        lemma_jobs_of_push(msgs.drop_first(), m);
        match msgs[0] {
            Message::Job(id0) => {
                match m {
                    Message::Job(id) => {
                        assert(seq![id0] + jobs_of(msgs.drop_first()).push(id) =~= (seq![id0]
                            + jobs_of(msgs.drop_first())).push(id));
                    },
                    Message::Exit => {},
                }
            },
            Message::Exit => {},
        }
    }
}

proof fn lemma_exit_count_push(msgs: Seq<Message>, m: Message)
    ensures
        exit_count(msgs.push(m)) == exit_count(msgs) + (if m is Exit {
            1nat
        } else {
            0nat
        }),
    decreases msgs.len(),
{
    if msgs.len() == 0 {
        assert(msgs.push(m)[0] == m);
        assert(msgs.push(m).drop_first() =~= Seq::<Message>::empty());
        assert(exit_count(Seq::<Message>::empty()) == 0);
    } else {
        assert(msgs.push(m)[0] == msgs[0]);
        assert(msgs.push(m).drop_first() =~= msgs.drop_first().push(m));
        lemma_exit_count_push(msgs.drop_first(), m);
    }
}

/// A message sequence holds no `Exit` order exactly when its exit count is
/// zero.
proof fn lemma_exit_count_zero(msgs: Seq<Message>)
    ensures
        exit_count(msgs) == 0 <==> (forall|i: int| 0 <= i < msgs.len() ==> !((#[trigger] msgs[i]) is Exit)),
    decreases msgs.len(),
{
    if msgs.len() > 0 {
        lemma_exit_count_zero(msgs.drop_first());
        assert(forall|i: int|
            0 <= i < msgs.drop_first().len() ==> (#[trigger] msgs.drop_first()[i]) == msgs[i + 1]);
        assert(forall|i: int|
            1 <= i < msgs.len() ==> (#[trigger] msgs[i]) == msgs.drop_first()[i - 1]);
    }
}

/// A message sequence made of nothing but `Exit` orders has as many of them
/// as it has elements.
proof fn lemma_exit_count_full(msgs: Seq<Message>)
    requires
        forall|i: int| 0 <= i < msgs.len() ==> (#[trigger] msgs[i]) is Exit,
    ensures
        exit_count(msgs) == msgs.len(),
    decreases msgs.len(),
{
    if msgs.len() > 0 {
        assert(forall|i: int|
            0 <= i < msgs.drop_first().len() ==> (#[trigger] msgs.drop_first()[i]) == msgs[i + 1]);
        lemma_exit_count_full(msgs.drop_first());
    }
}

proof fn lemma_running_count_push(ws: Seq<Worker>, w: Worker)
    ensures
        running_count(ws.push(w)) == running_count(ws) + (if w.running() {
            1nat
        } else {
            0nat
        }),
    decreases ws.len(),
{
    if ws.len() == 0 {
        assert(ws.push(w)[0] == w);
        assert(ws.push(w).drop_first() =~= Seq::<Worker>::empty());
        assert(running_count(Seq::<Worker>::empty()) == 0);
    } else {
        assert(ws.push(w)[0] == ws[0]);
        assert(ws.push(w).drop_first() =~= ws.drop_first().push(w));
        lemma_running_count_push(ws.drop_first(), w);
    }
}

proof fn lemma_running_count_update(ws: Seq<Worker>, i: int, w: Worker)
    requires
        0 <= i < ws.len(),
    ensures
        running_count(ws.update(i, w)) == running_count(ws) - (if ws[i].running() {
            1int
        } else {
            0int
        }) + (if w.running() {
            1int
        } else {
            0int
        }),
    decreases ws.len(),
{
    if i == 0 {
        assert(ws.update(0, w).drop_first() =~= ws.drop_first());
    } else {
        assert(ws.update(i, w).drop_first() =~= ws.drop_first().update(i - 1, w));
        lemma_running_count_update(ws.drop_first(), i - 1, w);
    }
}

/// A roster with at least one running worker has a positive running count.
proof fn lemma_running_count_at_least(ws: Seq<Worker>, i: int)
    requires
        0 <= i < ws.len(),
        ws[i].running(),
    ensures
        running_count(ws) >= 1,
    decreases ws.len(),
{
    if i > 0 {
        lemma_running_count_at_least(ws.drop_first(), i - 1);
    }
}

/// A roster in which no worker is running has running count zero.
proof fn lemma_running_count_none(ws: Seq<Worker>)
    requires
        forall|i: int| 0 <= i < ws.len() ==> !(#[trigger] ws[i]).running(),
    ensures
        running_count(ws) == 0,
    decreases ws.len(),
{
    if ws.len() > 0 {
        assert(forall|i: int|
            0 <= i < ws.drop_first().len() ==> (#[trigger] ws.drop_first()[i]) == ws[i + 1]);
        lemma_running_count_none(ws.drop_first());
    }
}

/// The shared coordination state of a fixed-size worker pool.
pub struct ThreadPool {
    queue: SegQueue<Option<u64>>,
    workers: Vec<Worker>,
    shutdown: bool,
}

impl ThreadPool {
    /// The pending messages of the shared queue, oldest first.
    pub closed spec fn pending(self) -> Seq<Message> {
        seg_items(self.queue).map_values(|s: Option<u64>| slot_message(s))
    }

    /// The tickets of the pending jobs, oldest first.
    pub open spec fn pending_jobs(self) -> Seq<u64> {
        jobs_of(self.pending())
    }

    /// How many workers the pool was built with. Fixed at construction.
    pub closed spec fn worker_count(self) -> nat {
        self.workers@.len()
    }

    /// How many workers have not yet exited.
    pub closed spec fn running_workers(self) -> nat {
        running_count(self.workers@)
    }

    /// Whether worker `i` has not yet exited.
    pub closed spec fn worker_running(self, i: int) -> bool {
        self.workers@[i].running()
    }

    /// Whether teardown has begun. Once it has, submission is refused.
    pub closed spec fn shutdown_begun(self) -> bool {
        self.shutdown
    }

    /// The pool's invariant: workers are numbered by their roster index;
    /// before shutdown no `Exit` order is pending and every worker runs;
    /// after shutdown exactly one pending `Exit` order per still-running
    /// worker remains; `Exit` orders sit behind all pending jobs; and once
    /// every worker of a non-empty pool has stopped, nothing is pending.
    pub closed spec fn wf(self) -> bool {
        &&& (forall|i: int|
            0 <= i < self.workers@.len() ==> (#[trigger] self.workers@[i]).spec_id() == i)
        &&& (!self.shutdown ==> exit_count(self.pending()) == 0 && running_count(self.workers@)
            == self.workers@.len())
        &&& (self.shutdown ==> exit_count(self.pending()) == running_count(self.workers@))
        &&& (forall|i: int, j: int|
            0 <= i < j < self.pending().len() && (#[trigger] self.pending()[i]) is Exit
                ==> (#[trigger] self.pending()[j]) is Exit)
        &&& (self.shutdown && running_count(self.workers@) == 0 && self.workers@.len() > 0
            ==> self.pending().len() == 0)
    }

    /// Builds a pool of `size` workers, all running, with nothing pending.
    ///
    /// `size` may be zero: the degenerate pool has no workers, so work it
    /// accepts is queued but never handed out.
    pub fn new(size: usize) -> (p: ThreadPool)
        ensures
            p.wf(),
            p.worker_count() == size,
            p.running_workers() == size,
            forall|i: int| 0 <= i < size ==> p.worker_running(i),
            !p.shutdown_begun(),
            p.pending() == Seq::<Message>::empty(),
    {
        let mut workers: Vec<Worker> = Vec::new();
        let mut i: usize = 0;
        while i < size
            invariant
                i <= size,
                workers@.len() == i,
                forall|k: int|
                    0 <= k < i ==> (#[trigger] workers@[k]).spec_id() == k && workers@[k].running(),
                running_count(workers@) == i,
            decreases size - i,
        {
            let w = Worker { id: i, state: WorkerState::Running };
            proof {
                lemma_running_count_push(workers@, w);
            }
            workers.push(w);
            i += 1;
        }
        let queue = seg_new();
        let p = ThreadPool { queue, workers, shutdown: false };
        proof {
            assert(p.pending() =~= Seq::<Message>::empty());
        }
        p
    }

    /// How many workers the pool was built with.
    pub fn num_workers(&self) -> (n: usize)
        ensures
            n == self.worker_count(),
    {
        self.workers.len()
    }

    /// How many workers have not yet exited.
    pub fn live_workers(&self) -> (n: usize)
        ensures
            n == self.running_workers(),
    {
        let mut n: usize = 0;
        let mut i: usize = 0;
        while i < self.workers.len()
            invariant
                i <= self.workers@.len(),
                n == running_count(self.workers@.take(i as int)),
                n <= i,
            decreases self.workers@.len() - i,
        {
            proof {
                assert(self.workers@.take(i + 1) =~= self.workers@.take(i as int).push(
                    self.workers@[i as int],
                ));
                lemma_running_count_push(self.workers@.take(i as int), self.workers@[i as int]);
            }
            if self.workers[i].is_running() {
                n = n + 1;
            }
            i += 1;
        }
        proof {
            assert(self.workers@.take(self.workers@.len() as int) =~= self.workers@);
        }
        n
    }

    /// Whether worker `w` has not yet exited.
    pub fn worker_is_running(&self, w: usize) -> (r: bool)
        requires
            w < self.worker_count(),
        ensures
            r == self.worker_running(w as int),
    {
        self.workers[w].is_running()
    }

    /// How many messages are pending in the shared queue.
    pub fn pending_len(&self) -> (n: usize)
        ensures
            n == self.pending().len(),
    {
        seg_len(&self.queue)
    }

    /// The worker at roster index `w`.
    pub fn worker(&self, w: usize) -> (wk: Worker)
        requires
            self.wf(),
            w < self.worker_count(),
        ensures
            wk.spec_id() == w,
            wk.running() == self.worker_running(w as int),
    {
        self.workers[w]
    }

    /// Whether teardown has begun.
    pub fn is_shutdown(&self) -> (r: bool)
        ensures
            r == self.shutdown_begun(),
    {
        self.shutdown
    }

    /// Submits one unit of work under the caller's ticket `job`.
    ///
    /// Succeeds, appending the job behind everything already pending, exactly
    /// when shutdown has not begun; afterwards it refuses the submission and
    /// leaves the pool unchanged.
    pub fn execute(&mut self, job: u64) -> (r: Result<(), PoolError>)
        requires
            old(self).wf(),
        ensures
            final(self).wf(),
            final(self).worker_count() == old(self).worker_count(),
            final(self).running_workers() == old(self).running_workers(),
            final(self).shutdown_begun() == old(self).shutdown_begun(),
            forall|i: int|
                0 <= i < old(self).worker_count() ==> final(self).worker_running(i) == old(self).worker_running(i),
            old(self).shutdown_begun() ==> r == Err::<(), PoolError>(
                PoolError::SubmittedAfterShutdown,
            ) && final(self).pending() == old(self).pending(),
            !old(self).shutdown_begun() ==> r == Ok::<(), PoolError>(()) && final(self).pending()
                == old(self).pending().push(Message::Job(job)),
    {
        if self.shutdown {
            return Err(PoolError::SubmittedAfterShutdown);
        }
        proof {
            lemma_exit_count_zero(old(self).pending());
        }
        seg_push(&mut self.queue, Some(job));
        proof {
            assert(self.pending() =~= old(self).pending().push(Message::Job(job)));
            lemma_exit_count_push(old(self).pending(), Message::Job(job));
        }
        Ok(())
    }

    /// Begins teardown: marks the pool as shutting down and pushes one `Exit`
    /// order per worker behind everything already pending. Idempotent: a
    /// second call changes nothing.
    pub fn begin_shutdown(&mut self)
        requires
            old(self).wf(),
        ensures
            final(self).wf(),
            final(self).shutdown_begun(),
            final(self).worker_count() == old(self).worker_count(),
            final(self).running_workers() == old(self).running_workers(),
            forall|i: int|
                0 <= i < old(self).worker_count() ==> final(self).worker_running(i) == old(self).worker_running(i),
            old(self).shutdown_begun() ==> final(self).pending() == old(self).pending(),
            !old(self).shutdown_begun() ==> final(self).pending() == old(self).pending()
                + exit_messages(old(self).worker_count()),
    {
        if self.shutdown {
            return ;
        }
        proof {
            lemma_exit_count_zero(self.pending());
        }
        self.shutdown = true;
        let ghost base = self.pending();
        let ghost ws = self.workers@;
        let n = self.workers.len();
        let mut i: usize = 0;
        while i < n
            invariant
                i <= n,
                self.workers@ == ws,
                n == ws.len(),
                self.shutdown,
                self.pending() =~= base + exit_messages(i as nat),
                exit_count(self.pending()) == i,
                forall|k: int| 0 <= k < base.len() ==> !((#[trigger] base[k]) is Exit),
            decreases n - i,
        {
            let ghost before = self.pending();
            seg_push(&mut self.queue, None);
            proof {
                assert(self.pending() =~= before.push(Message::Exit));
                lemma_exit_count_push(before, Message::Exit);
                assert(self.pending() =~= base + exit_messages((i + 1) as nat));
            }
            i += 1;
        }
        proof {
            assert(self.pending() =~= base + exit_messages(n as nat));
            assert(forall|a: int, b: int|
                0 <= a < b < self.pending().len() && (#[trigger] self.pending()[a]) is Exit
                    ==> (#[trigger] self.pending()[b]) is Exit) by {
                assert(forall|k: int|
                    0 <= k < self.pending().len() && (#[trigger] self.pending()[k]) is Exit
                        ==> k >= base.len());
            }
        }
    }

    /// Lets the running worker `w` take one step: pop the oldest message and
    /// either run its job, stop for good on an `Exit` order, or report that
    /// the queue was empty and it must wait.
    pub fn worker_step(&mut self, w: usize) -> (a: WorkerAction)
        requires
            old(self).wf(),
            w < old(self).worker_count(),
            old(self).worker_running(w as int),
        ensures
            final(self).wf(),
            final(self).worker_count() == old(self).worker_count(),
            final(self).shutdown_begun() == old(self).shutdown_begun(),
            old(self).pending().len() == 0 ==> {
                &&& a == WorkerAction::Wait
                &&& final(self).pending() == old(self).pending()
                &&& final(self).running_workers() == old(self).running_workers()
                &&& forall|i: int|
                    0 <= i < old(self).worker_count() ==> final(self).worker_running(i) == old(self).worker_running(i)
            },
            old(self).pending().len() > 0 ==> {
                &&& final(self).pending() == old(self).pending().drop_first()
                &&& (old(self).pending()[0] is Job ==> {
                    &&& a == WorkerAction::Run(old(self).pending()[0]->Job_0)
                    &&& final(self).running_workers() == old(self).running_workers()
                    &&& forall|i: int|
                        0 <= i < old(self).worker_count() ==> final(self).worker_running(i) == old(self).worker_running(i)
                })
                &&& (old(self).pending()[0] is Exit ==> {
                    &&& a == WorkerAction::Stop
                    &&& !final(self).worker_running(w as int)
                    &&& final(self).running_workers() == old(self).running_workers() - 1
                    &&& forall|i: int|
                        0 <= i < old(self).worker_count() && i != w ==> final(self).worker_running(i) == old(self).worker_running(i)
                })
            },
    {
        let popped = seg_pop(&mut self.queue);
        match popped {
            None => WorkerAction::Wait,
            Some(Some(id)) => {
                proof {
                    assert(old(self).pending()[0] == slot_message(Some(id)));
                    assert(self.pending() =~= old(self).pending().drop_first());
                }
                WorkerAction::Run(id)
            },
            Some(None) => {
                proof {
                    assert(old(self).pending()[0] == slot_message(None::<u64>));
                    assert(self.pending() =~= old(self).pending().drop_first());
                }
                let ghost ws0 = self.workers@;
                let wid = self.workers[w].id;
                self.workers[w] = Worker { id: wid, state: WorkerState::Stopped };
                proof {
                    lemma_running_count_update(
                        ws0,
                        w as int,
                        Worker { id: wid, state: WorkerState::Stopped },
                    );
                    // An Exit at the head means shutdown had begun, so every
                    // pending message behind it is an Exit order too.
                    assert(old(self).shutdown) by {
                        lemma_exit_count_zero(old(self).pending());
                    }
                    assert(forall|k: int|
                        0 <= k < self.pending().len() ==> (#[trigger] self.pending()[k])
                            == old(self).pending()[k + 1]);
                    if running_count(self.workers@) == 0 {
                        assert(forall|k: int|
                            0 <= k < self.pending().len() ==> (#[trigger] self.pending()[k]) is Exit);
                        lemma_exit_count_full(self.pending());
                    }
                }
                WorkerAction::Stop
            },
        }
    }

    /// Tears the pool down: begins shutdown and steps every worker until it
    /// has exited, collecting the tickets of the jobs handed out on the way.
    ///
    /// When teardown returns, no worker is running any more. A pool with at
    /// least one worker hands out every job it had accepted, exactly once and
    /// in submission order, and leaves nothing pending; the degenerate pool
    /// with no workers hands nothing out and leaves its queue as it was.
    pub fn shutdown_and_join(&mut self) -> (jobs: Vec<u64>)
        requires
            old(self).wf(),
        ensures
            final(self).wf(),
            final(self).shutdown_begun(),
            final(self).running_workers() == 0,
            forall|i: int| 0 <= i < final(self).worker_count() ==> !final(self).worker_running(i),
            final(self).worker_count() == old(self).worker_count(),
            old(self).worker_count() > 0 ==> jobs@ == old(self).pending_jobs() && final(self).pending().len() == 0,
            old(self).worker_count() == 0 ==> jobs@.len() == 0 && final(self).pending() == old(self).pending(),
    {
        self.begin_shutdown();
        proof {
            if !old(self).shutdown_begun() {
                lemma_jobs_of_append_exits(old(self).pending(), old(self).worker_count());
            }
        }
        let ghost all = jobs_of(self.pending());
        let ghost pending0 = self.pending();
        let mut jobs: Vec<u64> = Vec::new();
        let n = self.workers.len();
        proof {
            assert(jobs@ + jobs_of(self.pending()) =~= all);
        }
        let mut w: usize = 0;
        while w < n
            invariant
                w <= n,
                n == self.worker_count(),
                self.wf(),
                self.shutdown_begun(),
                forall|j: int| 0 <= j < w ==> !self.worker_running(j),
                jobs@ + jobs_of(self.pending()) == all,
                w == 0 ==> jobs@ == Seq::<u64>::empty() && self.pending() == pending0,
            decreases n - w,
        {
            while self.worker_is_running(w)
                invariant
                    w < n,
                    n == self.worker_count(),
                    self.wf(),
                    self.shutdown_begun(),
                    forall|j: int| 0 <= j < w ==> !self.worker_running(j),
                    jobs@ + jobs_of(self.pending()) == all,
                decreases self.pending().len(),
            {
                proof {
                    lemma_running_count_at_least(self.workers@, w as int);
                    if self.pending().len() == 0 {
                        assert(exit_count(self.pending()) == 0);
                        assert(false);
                    }
                }
                let ghost jobs_before = jobs@;
                let ghost pending_before = self.pending();
                let a = self.worker_step(w);
                match a {
                    WorkerAction::Run(id) => {
                        jobs.push(id);
                        proof {
                            assert(jobs_of(pending_before) == seq![id] + jobs_of(
                                self.pending(),
                            ));
                            assert(jobs_before.push(id) + jobs_of(self.pending()) =~= jobs_before
                                + (seq![id] + jobs_of(self.pending())));
                        }
                    },
                    WorkerAction::Stop => {},
                    WorkerAction::Wait => {
                        proof {
                            assert(false);
                        }
                    },
                }
            }
            w += 1;
        }
        proof {
            assert forall|i: int|
                0 <= i < self.workers@.len() implies !(#[trigger] self.workers@[i]).running() by {
                assert(!self.worker_running(i));
            }
            lemma_running_count_none(self.workers@);
            if n > 0 {
                assert(self.pending().len() == 0);
                assert(jobs@ + jobs_of(self.pending()) =~= jobs@);
            } else {
                assert(jobs@ == Seq::<u64>::empty());
                assert(jobs@ + jobs_of(self.pending()) =~= jobs_of(self.pending()));
                assert(self.pending() == pending0);
                if !old(self).shutdown_begun() {
                    assert(old(self).pending() + exit_messages(0) =~= old(self).pending());
                }
            }
        }
        jobs
    }
}

/// Appending termination orders behind a message sequence leaves its drained
/// jobs unchanged.
proof fn lemma_jobs_of_append_exits(msgs: Seq<Message>, n: nat)
    ensures
        jobs_of(msgs + exit_messages(n)) == jobs_of(msgs),
    decreases n,
{
    if n == 0 {
        assert(msgs + exit_messages(0) =~= msgs);
    } else {
        assert(msgs + exit_messages(n) =~= (msgs + exit_messages((n - 1) as nat)).push(
            Message::Exit,
        ));
        lemma_jobs_of_append_exits(msgs, (n - 1) as nat);
        lemma_jobs_of_push(msgs + exit_messages((n - 1) as nat), Message::Exit);
    }
}

/// A message sequence of jobs alone drains to exactly their tickets.
proof fn lemma_jobs_of_all_jobs(ids: Seq<u64>)
    ensures
        jobs_of(job_messages(ids)) == ids,
    decreases ids.len(),
{
    let msgs = job_messages(ids);
    if ids.len() == 0 {
        assert(jobs_of(msgs) =~= ids);
    } else {
        assert(msgs[0] == Message::Job(ids[0]));
        assert(msgs.drop_first() =~= job_messages(ids.drop_first()));
        lemma_jobs_of_all_jobs(ids.drop_first());
        assert(seq![ids[0]] + ids.drop_first() =~= ids);
    }
}

/// Law: a queue that holds the jobs `ids` in submission order, followed by
/// any number of termination orders — the shape `begin_shutdown` leaves the
/// queue in — drains to exactly `ids`: no job is lost, none is handed out
/// twice, and submission order is preserved.
pub proof fn lemma_fifo_queue_drains_all(ids: Seq<u64>, exits: nat)
    ensures
        jobs_of(job_messages(ids) + exit_messages(exits)) == ids,
{
    lemma_jobs_of_append_exits(job_messages(ids), exits);
    lemma_jobs_of_all_jobs(ids);
}

} // verus!
