//! The reaper: a timetable for the reclamation of idle buckets. Its owner
//! sleeps and wakes; the reaper says on each wake-up whether a pass is due,
//! and never lets two passes run at once.

use crate::admission::AdmissionController;
use crate::admission::{later, retained};
use vstd::prelude::*;

verus! {

/// The period between two passes unless another is asked for: 60 seconds.
pub const DEFAULT_PERIOD_MS: u64 = 60_000;

/// What the reaper's owner is to do on a wake-up.
#[derive(Clone, Copy, Debug, PartialEq, Eq, Structural)]
pub enum Wake {
    /// A pass is due: run it, then call `finish`.
    Run,
    /// A pass is still running: this tick is skipped.
    Skip,
    /// Nothing is due: sleep this many milliseconds.
    Sleep(u64),
    /// The reaper was cancelled: end the task.
    Stop,
}

/// Mathematical state of the reaper.
pub struct Timetable {
    pub period: nat,
    pub due: nat,
    pub running: bool,
    pub cancelled: bool,
}

/// `a + b`, stopped at the largest `u64`.
pub open spec fn capped_sum(a: nat, b: nat) -> nat {
    if a + b <= u64::MAX { a + b } else { u64::MAX as nat }
}

/// What a wake-up at `now` is answered with.
pub open spec fn answer(t: Timetable, now: nat) -> Wake {
    if t.cancelled {
        Wake::Stop
    } else if t.running {
        Wake::Skip
    } else if now >= t.due {
        Wake::Run
    } else {
        Wake::Sleep((t.due - now) as u64)
    }
}

/// The timetable after a wake-up at `now`: a pass that starts is marked as
/// running, and the next is due one period later.
pub open spec fn woken(t: Timetable, now: nat) -> Timetable {
    if answer(t, now) == Wake::Run {
        Timetable {
            period: t.period,
            due: capped_sum(now, t.period),
            running: true,
            cancelled: t.cancelled,
        }
    } else {
        t
    }
}

/// Two passes never overlap: a wake-up starts a pass only when none is
/// running, and from then on one is.
pub proof fn lemma_no_overlap(t: Timetable, now: nat)
    ensures
        answer(t, now) == Wake::Run ==> !t.running && woken(t, now).running,
        t.running ==> answer(t, now) != Wake::Run,
{
}

/// A cancelled reaper never starts a pass again.
pub proof fn lemma_cancelled_stops(t: Timetable, now: nat)
    requires
        t.cancelled,
    ensures
        answer(t, now) == Wake::Stop,
        woken(t, now) == t,
{
}

/// Schedules the reclamation passes.
pub struct Reaper {
    period: u64,
    due: u64,
    running: bool,
    cancelled: bool,
}

impl Reaper {
    /// The reaper's mathematical state.
    pub closed spec fn timetable(&self) -> Timetable {
        Timetable {
            period: self.period as nat,
            due: self.due as nat,
            running: self.running,
            cancelled: self.cancelled,
        }
    }

    /// A reaper started at `now` whose first pass is due one period later.
    pub fn new(period_ms: u64, now: u64) -> (r: Reaper)
        ensures
            r.timetable() == (Timetable {
                period: period_ms as nat,
                due: capped_sum(now as nat, period_ms as nat),
                running: false,
                cancelled: false,
            }),
    {
        Reaper { period: period_ms, due: now.saturating_add(period_ms), running: false, cancelled: false }
    }

    /// Whether the reaper can still start a pass.
    pub fn is_runnable(&self) -> (r: bool)
        ensures
            r == !self.timetable().cancelled,
    {
        !self.cancelled
    }

    /// Whether a pass is running.
    pub fn is_running(&self) -> (r: bool)
        ensures
            r == self.timetable().running,
    {
        self.running
    }

    /// Answers a wake-up at millisecond `now`.
    pub fn wake(&mut self, now: u64) -> (w: Wake)
        ensures
            w == answer(old(self).timetable(), now as nat),
            final(self).timetable() == woken(old(self).timetable(), now as nat),
    {
        if self.cancelled {
            Wake::Stop
        } else if self.running {
            Wake::Skip
        } else if now >= self.due {
            self.running = true;
            self.due = now.saturating_add(self.period);
            Wake::Run
        } else {
            Wake::Sleep(self.due - now)
        }
    }

    /// Marks the running pass as done.
    pub fn finish(&mut self)
        ensures
            final(self).timetable() == (Timetable { running: false, ..old(self).timetable() }),
    {
        self.running = false;
    }

    /// Cancels the reaper: from now on every wake-up is answered with `Stop`.
    pub fn cancel(&mut self)
        ensures
            final(self).timetable() == (Timetable { cancelled: true, ..old(self).timetable() }),
    {
        self.cancelled = true;
    }

    /// One wake-up with its pass. Returns the answer to the wake-up, and, if a
    /// pass was due at `now`, how many buckets are left after the idle ones of
    /// `controller` were reclaimed, to be reported. The pass is over when the
    /// call returns. Without a pass the controller is left alone.
    pub fn cycle(&mut self, controller: &mut AdmissionController, now: u64) -> (r: (
        Wake,
        Option<usize>,
    ))
        requires
            old(controller).wf(),
        ensures
            final(controller).wf(),
            final(controller).cap() == old(controller).cap(),
            final(controller).pace() == old(controller).pace(),
            r.0 == answer(old(self).timetable(), now as nat),
            match r.1 {
                Some(n) => {
                    &&& r.0 == Wake::Run
                    &&& final(self).timetable() == (Timetable {
                        running: false,
                        ..woken(old(self).timetable(), now as nat)
                    })
                    &&& final(controller).clock() == later(old(controller).clock(), now as nat)
                    &&& final(controller).buckets() == retained(
                        old(controller).buckets(),
                        final(controller).clock(),
                        old(controller).cap(),
                        old(controller).pace(),
                    )
                    &&& final(controller).buckets().dom().finite()
                    &&& n == final(controller).buckets().dom().len()
                },
                None => {
                    &&& r.0 != Wake::Run
                    &&& final(self).timetable() == old(self).timetable()
                    &&& final(controller).clock() == old(controller).clock()
                    &&& final(controller).buckets() == old(controller).buckets()
                },
            },
    {
        let w = self.wake(now);
        match w {
            Wake::Run => {
                let n = controller.reclaim_idle(now);
                self.finish();
                (w, Some(n))
            },
            _ => (w, None),
        }
    }
}

} // verus!
