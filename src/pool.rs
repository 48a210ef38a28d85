//! The decisions of the shared-queue thread pool: the job queue that workers
//! drain, and the supervisor that replaces a worker whose task panicked.
//! Running threads is left to the caller.
use vstd::prelude::*;
use std::collections::VecDeque;

verus! {

/// An item of the job queue.
pub enum Message<J> {
    /// A task to run.
    Job(J),
    /// Tells the worker that takes it to stop.
    Shutdown,
}

/// The FIFO queue that all workers take from.
pub struct JobQueue<J> {
    items: VecDeque<Message<J>>,
}

impl<J> View for JobQueue<J> {
    type V = Seq<Message<J>>;

    closed spec fn view(&self) -> Seq<Message<J>> {
        self.items@
    }
}

impl<J> JobQueue<J> {
    /// An empty queue.
    pub fn new() -> (r: JobQueue<J>)
        ensures
            r@ == Seq::<Message<J>>::empty(),
    {
        JobQueue { items: VecDeque::new() }
    }

    /// The number of queued items.
    pub fn len(&self) -> (r: usize)
        ensures
            r == self@.len(),
    {
        self.items.len()
    }

    /// Queues a task behind everything already queued.
    pub fn push_job(&mut self, job: J)
        ensures
            final(self)@ == old(self)@.push(Message::Job(job)),
    {
        self.items.push_back(Message::Job(job));
    }

    /// Queues `n` shutdown messages, one for each worker to stop.
    pub fn push_shutdowns(&mut self, n: usize)
        ensures
            final(self)@ == old(self)@ + Seq::new(n as nat, |i: int| Message::<J>::Shutdown),
    {
        let mut i: usize = 0;
        while i < n
            invariant
                i <= n,
                self@ == old(self)@ + Seq::new(i as nat, |t: int| Message::<J>::Shutdown),
            decreases n - i,
        {
            self.items.push_back(Message::Shutdown);
            i = i + 1;
            proof {
                assert(self@ =~= old(self)@ + Seq::new(i as nat, |t: int| Message::<J>::Shutdown));
            }
        }
    }

    /// Takes the oldest item, if any.
    pub fn pop(&mut self) -> (r: Option<Message<J>>)
        ensures
            old(self)@.len() == 0 ==> r is None && final(self)@ == old(self)@,
            old(self)@.len() > 0 ==> r == Some(old(self)@[0]) && final(self)@ == old(
                self,
            )@.drop_first(),
    {
        let r = self.items.pop_front();
        proof {
            if old(self)@.len() > 0 {
                assert(self@ =~= old(self)@.drop_first());
            }
        }
        r
    }
}

/// What a worker reports to the supervisor as it ends.
#[derive(Debug, Clone, Copy, PartialEq, Eq, Structural)]
pub enum Signal {
    /// The worker's task panicked and the worker is gone.
    Panic,
    /// The worker took a shutdown message and stopped.
    Shutdown,
}

/// What the supervisor does on a signal.
#[derive(Debug, Clone, Copy, PartialEq, Eq, Structural)]
pub enum Action {
    /// Start a new worker on the same queue.
    SpawnWorker,
    /// Keep waiting for signals.
    Wait,
    /// Every worker has stopped: the supervisor ends.
    Exit,
}

/// The supervisor's count of workers.
#[derive(Debug, Clone, Copy, PartialEq, Eq, Structural)]
pub struct Supervisor {
    /// The pool's size.
    pub workers: usize,
    /// Workers running or being started.
    pub active: usize,
    /// Workers that stopped on a shutdown message.
    pub stopped: usize,
}

/// The supervisor's step: its counts after a signal, and its action.
pub open spec fn supervise(s: Supervisor, sig: Signal) -> (Supervisor, Action) {
    match sig {
        Signal::Panic => (s, Action::SpawnWorker),
        Signal::Shutdown => {
            let next = Supervisor { active: (s.active - 1) as usize, stopped: (s.stopped + 1) as usize, ..s };
            (next, if next.active == 0 { Action::Exit } else { Action::Wait })
        },
    }
}

impl Supervisor {
    /// Every worker is either active or stopped.
    pub open spec fn wf(self) -> bool {
        self.active + self.stopped == self.workers
    }

    /// A supervisor for a pool of `workers` workers, all active.
    pub fn new(workers: usize) -> (r: Supervisor)
        ensures
            r.wf(),
            r.workers == workers,
            r.active == workers,
            r.stopped == 0,
    {
        Supervisor { workers, active: workers, stopped: 0 }
    }

    /// Handles a signal from an active worker. A panicked worker is replaced
    /// at once, so the number of active workers does not drop; a stopped
    /// worker is counted, and the supervisor exits after the last one.
    pub fn on_signal(&mut self, sig: Signal) -> (r: Action)
        requires
            old(self).wf(),
            old(self).active > 0,
        ensures
            final(self).wf(),
            (*final(self), r) == supervise(*old(self), sig),
    {
        match sig {
            Signal::Panic => Action::SpawnWorker,
            Signal::Shutdown => {
                self.active = self.active - 1;
                self.stopped = self.stopped + 1;
                if self.active == 0 {
                    Action::Exit
                } else {
                    Action::Wait
                }
            },
        }
    }
}

/// The supervisor after a sequence of signals.
pub open spec fn supervise_all(s: Supervisor, sigs: Seq<Signal>) -> Supervisor
    decreases sigs.len(),
{
    if sigs.len() == 0 {
        s
    } else {
        supervise(supervise_all(s, sigs.drop_last()), sigs.last()).0
    }
}

/// However many worker panics come in, each is answered by starting a new
/// worker, and the pool keeps all of its workers active.
pub proof fn lemma_panics_keep_pool_full(s: Supervisor, sigs: Seq<Signal>)
    requires
        s.wf(),
        s.active == s.workers,
        forall|i: int| 0 <= i < sigs.len() ==> sigs[i] == Signal::Panic,
    ensures
        supervise_all(s, sigs) == s,
        supervise_all(s, sigs).active == s.workers,
        forall|i: int|
            0 <= i < sigs.len() ==> #[trigger] supervise(supervise_all(s, sigs.take(i)), sigs[i]).1
                == Action::SpawnWorker,
    decreases sigs.len(),
{
    if sigs.len() > 0 {
        lemma_panics_keep_pool_full(s, sigs.drop_last());
        assert forall|i: int| 0 <= i < sigs.len() implies #[trigger] supervise(
            supervise_all(s, sigs.take(i)),
            sigs[i],
        ).1 == Action::SpawnWorker by {}
    }
}

} // verus!
