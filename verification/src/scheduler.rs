//! The bounded background job pool's state machine: a job queue fed by
//! `schedule`, drained by a fixed set of workers, with graceful and
//! drop-pending shutdown. Accepted jobs are never lost: every one is
//! handed to a worker or deliberately dropped by `stop(false)`.

use vstd::prelude::*;

verus! {

/// The three states of the scheduler.
#[derive(Clone, Copy, PartialEq, Eq, Structural, Debug)]
pub enum SchedulerState {
    /// Accepts new jobs.
    Running,
    /// Rejects new jobs; pending jobs were dropped.
    Stop,
    /// Rejects new jobs; pending jobs drain to workers.
    AwaitTermination,
}

/// Error of a scheduler operation.
#[derive(Clone, Copy, PartialEq, Eq, Structural, Debug)]
pub enum SchedulerError {
    /// The scheduler does not accept the request in its current state.
    InvalidSchedulerState,
    /// Some worker task of the pool panicked during shutdown. The state
    /// machine itself never fails this way; the runtime shell that owns
    /// the worker tasks reports it.
    StopScheduler,
}

/// A scheduler of background jobs.
///
/// The contract is stated over the scheduler's abstract state: its
/// lifecycle state, its pending queue, and how many jobs were accepted,
/// handed to workers, and dropped.
pub trait Scheduler<J>: Sized {
    /// Counts add up: accepted = handed out + dropped + pending.
    spec fn inv(&self) -> bool;

    spec fn state_of(&self) -> SchedulerState;

    /// Jobs accepted and not yet handed out or dropped, oldest first.
    spec fn pending(&self) -> Seq<J>;

    /// Jobs ever accepted by `schedule`.
    spec fn scheduled_count(&self) -> u64;

    /// Jobs handed to a worker.
    spec fn handed_count(&self) -> u64;

    /// Jobs dropped by `stop(false)`.
    spec fn dropped_count(&self) -> u64;

    /// Accepts a job exactly when the scheduler is running.
    fn schedule(&mut self, req: J) -> (r: Result<(), SchedulerError>)
        requires
            old(self).inv(),
            old(self).scheduled_count() < u64::MAX,
        ensures
            final(self).inv(),
            match r {
                Ok(()) => {
                    &&& old(self).state_of() is Running
                    &&& final(self).state_of() is Running
                    &&& final(self).pending() == old(self).pending().push(req)
                    &&& final(self).scheduled_count() == old(self).scheduled_count() + 1
                    &&& final(self).handed_count() == old(self).handed_count()
                    &&& final(self).dropped_count() == old(self).dropped_count()
                },
                Err(SchedulerError::InvalidSchedulerState) => !(old(self).state_of() is Running)
                    && *final(self) == *old(self),
                Err(_) => false,
            },
    ;

    /// Stops a running scheduler: with `await_termination` the pending
    /// jobs stay queued for the workers to drain, without it they are
    /// dropped. Only a running scheduler can be stopped.
    fn stop(&mut self, await_termination: bool) -> (r: Result<(), SchedulerError>)
        requires
            old(self).inv(),
        ensures
            final(self).inv(),
            match r {
                Ok(()) => {
                    &&& old(self).state_of() is Running
                    &&& final(self).scheduled_count() == old(self).scheduled_count()
                    &&& final(self).handed_count() == old(self).handed_count()
                    &&& (if await_termination {
                        final(self).state_of() is AwaitTermination && final(self).pending() == old(
                            self,
                        ).pending() && final(self).dropped_count() == old(self).dropped_count()
                    } else {
                        final(self).state_of() is Stop && final(self).pending() == Seq::<J>::empty()
                            && final(self).dropped_count() == old(self).dropped_count() + old(
                            self,
                        ).pending().len()
                    })
                },
                Err(SchedulerError::InvalidSchedulerState) => !(old(self).state_of() is Running)
                    && *final(self) == *old(self),
                Err(_) => false,
            },
    ;
}

/// Scheduler backed by local state: a queue and a fixed number of
/// worker slots that take jobs from it.
pub struct LocalScheduler<J> {
    pub state: SchedulerState,
    pub queue: Vec<J>,
    pub concurrency: usize,
    pub n_scheduled: u64,
    pub n_handed: u64,
    pub n_dropped: u64,
}

impl<J> LocalScheduler<J> {
    /// `concurrency` is the number of worker slots that will poll jobs.
    pub fn new(concurrency: usize) -> (r: Self)
        ensures
            r.inv(),
            r.state is Running,
            r.queue@ == Seq::<J>::empty(),
            r.concurrency == concurrency,
            r.n_scheduled == 0,
            r.n_handed == 0,
            r.n_dropped == 0,
    {
        LocalScheduler {
            state: SchedulerState::Running,
            queue: Vec::new(),
            concurrency,
            n_scheduled: 0,
            n_handed: 0,
            n_dropped: 0,
        }
    }

    /// Whether new jobs are accepted.
    pub fn running(&self) -> (r: bool)
        ensures
            r == (self.state is Running),
    {
        match self.state {
            SchedulerState::Running => true,
            _ => false,
        }
    }

    /// Hands the oldest pending job to a worker. While the scheduler
    /// runs or drains, workers receive jobs in order; once the drain
    /// empties the queue, the scheduler comes to its stop.
    pub fn poll_job(&mut self) -> (r: Option<J>)
        requires
            old(self).inv(),
        ensures
            final(self).inv(),
            final(self).n_scheduled == old(self).n_scheduled,
            final(self).n_dropped == old(self).n_dropped,
            final(self).concurrency == old(self).concurrency,
            match r {
                Some(job) => {
                    &&& !(old(self).state_of() is Stop)
                    &&& old(self).queue@.len() > 0
                    &&& job == old(self).queue@[0]
                    &&& final(self).queue@ == old(self).queue@.skip(1)
                    &&& final(self).n_handed == old(self).n_handed + 1
                    &&& final(self).state == old(self).state
                },
                None => {
                    &&& old(self).state_of() is Stop || old(self).queue@.len() == 0
                    &&& final(self).queue@ == old(self).queue@
                    &&& final(self).n_handed == old(self).n_handed
                    &&& final(self).state == (if old(self).state_of() is AwaitTermination
                        && old(self).queue@.len() == 0 {
                        SchedulerState::Stop
                    } else {
                        old(self).state
                    })
                },
            },
    {
        match self.state {
            SchedulerState::Stop => None,
            SchedulerState::Running => {
                if self.queue.len() > 0 {
                    let job = self.queue.remove(0);
                    self.n_handed = self.n_handed + 1;
                    Some(job)
                } else {
                    None
                }
            },
            SchedulerState::AwaitTermination => {
                if self.queue.len() > 0 {
                    let job = self.queue.remove(0);
                    self.n_handed = self.n_handed + 1;
                    Some(job)
                } else {
                    self.state = SchedulerState::Stop;
                    None
                }
            },
        }
    }
}

impl<J> Scheduler<J> for LocalScheduler<J> {
    open spec fn inv(&self) -> bool {
        self.n_scheduled == self.n_handed + self.n_dropped + self.queue@.len()
    }

    open spec fn state_of(&self) -> SchedulerState {
        self.state
    }

    open spec fn pending(&self) -> Seq<J> {
        self.queue@
    }

    open spec fn scheduled_count(&self) -> u64 {
        self.n_scheduled
    }

    open spec fn handed_count(&self) -> u64 {
        self.n_handed
    }

    open spec fn dropped_count(&self) -> u64 {
        self.n_dropped
    }

    fn schedule(&mut self, req: J) -> (r: Result<(), SchedulerError>) {
        match self.state {
            SchedulerState::Running => {
                self.queue.push(req);
                self.n_scheduled = self.n_scheduled + 1;
                Ok(())
            },
            _ => Err(SchedulerError::InvalidSchedulerState),
        }
    }

    fn stop(&mut self, await_termination: bool) -> (r: Result<(), SchedulerError>) {
        match self.state {
            SchedulerState::Running => {
                if await_termination {
                    self.state = SchedulerState::AwaitTermination;
                } else {
                    let dropped = self.queue.len();
                    self.queue.clear();
                    self.n_dropped = self.n_dropped + dropped as u64;
                    self.state = SchedulerState::Stop;
                }
                Ok(())
            },
            _ => Err(SchedulerError::InvalidSchedulerState),
        }
    }
}

/// After a graceful stop has drained — the scheduler reached its stop
/// without dropping anything and with an empty queue — the number of
/// jobs handed to workers equals the number successfully scheduled.
pub proof fn lemma_scheduler_completion<J>(s: LocalScheduler<J>)
    requires
        s.inv(),
        s.state is Stop,
        s.n_dropped == 0,
        s.queue@.len() == 0,
    ensures
        s.n_handed == s.n_scheduled,
{
}

} // verus!
