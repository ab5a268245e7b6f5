//! Thread pools: the interface, and the decisions of a worker of the
//! shared-queue pool.

use crate::error::KvsError;
use vstd::prelude::*;

verus! {

/// A pool of threads that runs jobs.
pub trait ThreadPool {
    /// Creates a pool and spawns `threads` workers at once.
    fn new(threads: u32) -> Result<Self, KvsError> where Self: Sized;

    /// Hands `job` to the pool. Does not wait for the job to run.
    fn spawn<F>(&self, job: F) where F: FnOnce() + Send + 'static;
}

/// What a worker does after it has waited on the queue.
#[derive(PartialEq, Eq, Structural, Clone, Copy, Debug)]
pub enum WorkerStep {
    /// Run the task that was received and wait again.
    Run,
    /// Leave: the pool is gone and no task will come.
    Exit,
}

/// The next step of a worker: it runs a task where one was received, and
/// leaves where the queue is closed.
pub fn worker_step(received: bool) -> (step: WorkerStep)
    ensures
        step == (if received {
            WorkerStep::Run
        } else {
            WorkerStep::Exit
        }),
{
    if received {
        WorkerStep::Run
    } else {
        WorkerStep::Exit
    }
}

/// What becomes of a worker's place in the pool when the worker ends.
#[derive(PartialEq, Eq, Structural, Clone, Copy, Debug)]
pub enum Succession {
    /// A new worker takes the place and receives from the same queue.
    Replace,
    /// The place stays empty.
    Vacate,
}

/// Decides what follows a worker that ends: one that ends in a panic is
/// replaced, so that a task that panics does not cost the pool a worker;
/// one that ends because the queue is closed is not.
pub fn on_worker_end(panicking: bool) -> (next: Succession)
    ensures
        next == (if panicking {
            Succession::Replace
        } else {
            Succession::Vacate
        }),
{
    if panicking {
        Succession::Replace
    } else {
        Succession::Vacate
    }
}

/// The number of workers in place after one of `workers` has ended.
pub open spec fn workers_after(workers: nat, next: Succession) -> nat {
    match next {
        Succession::Replace => workers,
        Succession::Vacate => (workers - 1) as nat,
    }
}

/// However many tasks panic, the pool keeps its workers: the count changes
/// only when a worker ends without a panic.
pub proof fn lemma_panics_keep_workers(workers: nat, panics: nat)
    requires
        workers > 0,
    ensures
        after_panics(workers, panics) == workers,
    decreases panics,
{
    if panics > 0 {
        lemma_panics_keep_workers(workers, (panics - 1) as nat);
    }
}

/// The number of workers in place after `panics` workers have ended in a
/// panic, one after the other, each followed as [`on_worker_end`] decides.
pub open spec fn after_panics(workers: nat, panics: nat) -> nat
    decreases panics,
{
    if panics == 0 {
        workers
    } else {
        workers_after(after_panics(workers, (panics - 1) as nat), Succession::Replace)
    }
}

} // verus!
