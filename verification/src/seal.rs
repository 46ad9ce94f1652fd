//! The seal task manager: the pending seal set, the generation counter that
//! truncation bumps, and the time at which a sealer last asked for work.

use crate::pending::{in_batches, PendingSet};
use std::time::{Duration, Instant};
use vstd::prelude::*;

verus! {

/// `std::time::Instant`, held as an opaque value.
#[verifier::external_type_specification]
#[verifier::external_body]
pub struct ExInstant(std::time::Instant);

/// `Instant::now` reads the clock; nothing is promised of the reading.
pub assume_specification[ Instant::now ]() -> (now: Instant)
;

/// `Instant::elapsed` measures the time since the instant; nothing is
/// promised of the measure.
pub assume_specification[ Instant::elapsed ](start: &Instant) -> (passed: Duration)
;

/// `Duration::as_secs` gives the whole seconds of a duration; nothing is
/// stated of the number.
pub assume_specification[ Duration::as_secs ](duration: &Duration) -> (seconds: u64)
;

/// How long after a sealer last asked for work, in seconds, sealers still
/// count as available, unless the manager is made with another span.
pub const SEAL_TASK_PULL_TIMEOUT_SECONDS: u64 = 300;

/// When a sealer last asked for work, and for how long after that sealers
/// count as available.
pub struct PullClock {
    last_pull_time: Option<Instant>,
    pull_timeout_seconds: u64,
}

impl PullClock {
    /// Whether a sealer has ever asked for work.
    pub closed spec fn polled(&self) -> bool {
        self.last_pull_time is Some
    }

    /// The span, in seconds, within which a sealer has to have asked for
    /// work for sealers to count as available.
    pub closed spec fn timeout(&self) -> u64 {
        self.pull_timeout_seconds
    }

    /// A clock that no sealer has asked for work yet.
    pub fn new(pull_timeout_seconds: u64) -> (r: PullClock)
        ensures
            !r.polled(),
            r.timeout() == pull_timeout_seconds,
    {
        PullClock { last_pull_time: None, pull_timeout_seconds }
    }

    /// Records that a sealer asks for work now.
    pub fn update_pull_time(&mut self)
        ensures
            final(self).polled(),
            final(self).timeout() == old(self).timeout(),
    {
        self.last_pull_time = Some(Instant::now());
    }

    /// Whether a sealer asked for work within the span: one has asked, and
    /// the whole seconds that the clock counts since then are fewer than the
    /// span. So the answer is `false` for certain where no sealer ever asked
    /// and where the span is zero; else the clock decides.
    pub fn seal_worker_available(&self) -> (r: bool)
        ensures
            r ==> self.polled(),
            self.timeout() == 0 ==> !r,
            exists|elapsed_seconds: u64|
                r == #[trigger] available_after(self.polled(), elapsed_seconds, self.timeout()),
    {
        match &self.last_pull_time {
            Some(at) => {
                let passed = at.elapsed();
                let elapsed_seconds: u64 = passed.as_secs();
                let r = worker_available_after(elapsed_seconds, self.pull_timeout_seconds);
                assert(r == available_after(self.polled(), elapsed_seconds, self.timeout()));
                r
            },
            None => {
                assert(!available_after(self.polled(), 0, self.timeout()));
                false
            },
        }
    }
}

/// The seal task manager.
pub struct SealTaskManager {
    /// The pending seal set: global seal index to the generation in which
    /// it was queued.
    pub to_seal_set: PendingSet,
    /// The current generation.
    pub to_seal_version: u64,
    /// When a sealer last asked for work.
    pub clock: PullClock,
}

impl SealTaskManager {
    /// The pending seal set is in order.
    pub open spec fn wf(&self) -> bool {
        self.to_seal_set.wf()
    }

    /// A manager with nothing pending, in generation 0, that no sealer has
    /// asked for work yet; sealers count as available for
    /// `pull_timeout_seconds` after one asked.
    pub fn new(pull_timeout_seconds: u64) -> (r: SealTaskManager)
        ensures
            r.wf(),
            r.to_seal_set@ == Map::<u64, u64>::empty(),
            r.to_seal_version == 0,
            !r.clock.polled(),
            r.clock.timeout() == pull_timeout_seconds,
    {
        SealTaskManager {
            to_seal_set: PendingSet::new(),
            to_seal_version: 0,
            clock: PullClock::new(pull_timeout_seconds),
        }
    }

    /// Begins the next generation and returns it.
    pub fn inc_seal_version(&mut self) -> (version: u64)
        requires
            old(self).to_seal_version < u64::MAX,
        ensures
            version == old(self).to_seal_version + 1,
            final(self).to_seal_version == version,
            final(self).to_seal_set == old(self).to_seal_set,
            final(self).clock == old(self).clock,
    {
        self.to_seal_version = self.to_seal_version + 1;
        self.to_seal_version
    }

    /// The current generation.
    pub fn to_seal_version(&self) -> (version: u64)
        ensures
            version == self.to_seal_version,
    {
        self.to_seal_version
    }

    /// Records that a sealer asks for work now.
    pub fn update_pull_time(&mut self)
        ensures
            final(self).clock.polled(),
            final(self).clock.timeout() == old(self).clock.timeout(),
            final(self).to_seal_set == old(self).to_seal_set,
            final(self).to_seal_version == old(self).to_seal_version,
    {
        self.clock.update_pull_time();
    }

    /// Whether a sealer asked for work within the span of the manager: one
    /// has asked, and the whole seconds that the clock counts since then
    /// are fewer than the span. So the answer is `false` for certain where
    /// no sealer ever asked and where the span is zero; else the clock
    /// decides.
    pub fn seal_worker_available(&self) -> (r: bool)
        ensures
            r ==> self.clock.polled(),
            self.clock.timeout() == 0 ==> !r,
            exists|elapsed_seconds: u64|
                r == #[trigger] available_after(
                    self.clock.polled(),
                    elapsed_seconds,
                    self.clock.timeout(),
                ),
    {
        self.clock.seal_worker_available()
    }

    /// Takes every seal unit of the batches in `batch_list` out of the
    /// pending seal set.
    pub fn delete_batch_list(&mut self, batch_list: &[u64])
        requires
            old(self).wf(),
        ensures
            final(self).wf(),
            final(self).to_seal_set@ == old(self).to_seal_set@.remove_keys(
                in_batches(batch_list@),
            ),
            final(self).to_seal_version == old(self).to_seal_version,
            final(self).clock == old(self).clock,
    {
        self.to_seal_set.remove_batches(batch_list);
    }
}

/// Whether sealers count as available where `polled` says that one has asked
/// for work, `elapsed_seconds` ago, and the span is `timeout_seconds`.
pub open spec fn available_after(polled: bool, elapsed_seconds: u64, timeout_seconds: u64) -> bool {
    polled && elapsed_seconds < timeout_seconds
}

/// Whether sealers count as available when the last one asked for work
/// `elapsed_seconds` ago and the span is `timeout_seconds`.
pub fn worker_available_after(elapsed_seconds: u64, timeout_seconds: u64) -> (r: bool)
    ensures
        r == (elapsed_seconds < timeout_seconds),
{
    elapsed_seconds < timeout_seconds
}

impl Default for SealTaskManager {
    /// A manager with the usual span.
    fn default() -> (r: SealTaskManager)
        ensures
            r.wf(),
            r.to_seal_set@ == Map::<u64, u64>::empty(),
            r.to_seal_version == 0,
            !r.clock.polled(),
            r.clock.timeout() == SEAL_TASK_PULL_TIMEOUT_SECONDS,
    {
        SealTaskManager::new(SEAL_TASK_PULL_TIMEOUT_SECONDS)
    }
}

} // verus!
