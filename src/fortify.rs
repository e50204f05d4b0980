//! The schedule of the batched Q-learning trainer: how many producers run,
//! when the consumer flushes its queue into the shared table, and when
//! training stops. The value table itself, with its floating-point values,
//! lives with the program that runs the threads.

use vstd::prelude::*;

verus! {

/// Relies on num_cpus' `get`: the number of logical CPUs of this machine.
/// Nothing is assumed of it.
#[verifier::external_body]
fn available_cpus() -> (r: usize)
{
    num_cpus::get()
}

/// The number of producers for `cpus` CPUs: all but one, which is left to
/// the consumer, and at least one.
pub fn producer_count(cpus: usize) -> (r: usize)
    ensures
        r == if cpus < 2 { 1 } else { cpus - 1 },
        r >= 1,
{
    if cpus < 2 {
        1
    } else {
        cpus - 1
    }
}

/// The number of producers on this machine.
pub fn producers() -> (r: usize)
    ensures
        r >= 1,
{
    producer_count(available_cpus())
}

/// The iteration target of a trainer asked for `iter` iterations: never
/// less than one batch of `queue_size`.
pub fn iterations_for(iter: u64, queue_size: usize) -> (r: u64)
    ensures
        r as int == if iter as int > queue_size as int { iter as int } else { queue_size as int },
{
    if iter > queue_size as u64 {
        iter
    } else {
        queue_size as u64
    }
}

/// The consumer's side of training: it counts the updates applied to the
/// table and decides when a batch is flushed and when training stops.
pub struct Schedule {
    /// transitions per batch
    pub batch: usize,
    /// the number of updates after which training stops
    pub iterations: u64,
    /// the number of updates applied so far
    pub current_iter: u64,
}

impl Schedule {
    /// The number of queued transitions that makes a batch.
    pub open spec fn batch_spec(&self) -> int {
        self.batch as int
    }

    pub open spec fn target(&self) -> int {
        self.iterations as int
    }

    /// The number of updates applied so far.
    pub open spec fn done(&self) -> int {
        self.current_iter as int
    }

    /// No more updates are applied than the target.
    pub open spec fn wf(&self) -> bool {
        self.current_iter <= self.iterations
    }

    /// A schedule for `producers` producers that each contribute
    /// `batch_size` transitions to a batch, stopping after `iterations`
    /// updates.
    pub fn new(producers: usize, batch_size: usize, iterations: u64) -> (r: Schedule)
        requires
            producers * batch_size <= usize::MAX,
        ensures
            r.wf(),
            r.batch_spec() == producers * batch_size,
            r.target() == iterations,
            r.done() == 0,
    {
        Schedule { batch: producers * batch_size, iterations, current_iter: 0 }
    }

    /// Has a batch of transitions been queued, so that it is to be applied?
    pub fn batch_ready(&self, queued: usize) -> (r: bool)
        ensures
            r == (queued == self.batch_spec()),
    {
        queued == self.batch
    }

    /// Has the target been reached?
    pub fn finished(&self) -> (r: bool)
        ensures
            r == (self.done() >= self.target()),
    {
        self.current_iter >= self.iterations
    }

    /// Count one applied update; returns whether training stops now.
    pub fn record_update(&mut self) -> (r: bool)
        requires
            old(self).wf(),
            old(self).done() < old(self).target(),
        ensures
            final(self).wf(),
            final(self).done() == old(self).done() + 1,
            final(self).target() == old(self).target(),
            final(self).batch_spec() == old(self).batch_spec(),
            r == (final(self).done() == final(self).target()),
    {
        self.current_iter = self.current_iter + 1;
        self.current_iter >= self.iterations
    }

    pub fn current_iter(&self) -> (r: u64)
        ensures
            r == self.done(),
    {
        self.current_iter
    }
}

/// Training stops on the update that reaches the target, so a run never
/// applies more updates than its target: a table that gains at most one
/// entry per update holds at most that many entries.
pub proof fn lemma_updates_within_target(s: Schedule)
    requires
        s.wf(),
    ensures
        s.done() <= s.target(),
{
}

} // verus!
