//! Pacing of a fixed-timestep loop.
//!
//! The loop itself blocks in a sleep and calls back into its owner, so it
//! lives with the program. What it decides on each iteration is here: given
//! what the step asked for and the clock reading taken after it, whether to
//! leave the loop or how long to sleep before the next step.

use vstd::prelude::*;

verus! {

/// What a step asks of the loop that ran it.
#[derive(Clone, Copy, PartialEq, Eq, Debug, Structural)]
pub enum Action {
    Stop,
    Continue,
}

/// What the loop does after a step.
#[derive(Clone, Copy, PartialEq, Eq, Debug, Structural)]
pub enum Pace {
    /// Leave the loop.
    Exit,
    /// Sleep for this many nanoseconds, then step again.
    Sleep(u64),
}

/// The state a loop carries from one iteration to the next.
#[derive(Clone, Copy, PartialEq, Eq, Debug, Structural)]
pub struct Pacer {
    /// Target length of one iteration, in nanoseconds.
    pub duration_ns: u64,
    /// Time run up since the last whole tick, in nanoseconds.
    pub accumulator: u64,
    /// Clock reading of the previous iteration.
    pub previous_clock: u64,
}

/// Time between two readings of a clock that does not run backwards; a
/// reading that did go backwards counts as no time at all.
pub open spec fn elapsed_ns(previous: u64, now: u64) -> int {
    if now >= previous {
        now - previous
    } else {
        0
    }
}

/// The accumulator once `elapsed` has been added and every whole tick taken
/// out again. A tick of zero length leaves nothing behind.
pub open spec fn carried_ns(duration: u64, accumulator: u64, elapsed: int) -> int {
    if duration == 0 {
        0
    } else {
        (accumulator + elapsed) % (duration as int)
    }
}

/// How long to sleep so that the iteration fills its tick: what is left of
/// the tick after `accumulator`, and never less than nothing.
pub open spec fn pause_ns(duration: u64, accumulator: int) -> int {
    if accumulator >= duration {
        0
    } else {
        duration - accumulator
    }
}

/// Reads the clock through `time::precise_time_ns`: nanoseconds since an
/// epoch that the platform picks, from its monotonic clock where it has
/// one. Nothing is claimed of the reading; the callers hold for every
/// value of it.
#[verifier::external_body]
fn clock_ns() -> (now: u64) {
    time::precise_time_ns()
}

impl Pacer {
    /// The state after a step that asked to continue, with the clock at `now`.
    pub open spec fn after(self, now: u64) -> Pacer {
        Pacer {
            duration_ns: self.duration_ns,
            accumulator: carried_ns(
                self.duration_ns,
                self.accumulator,
                elapsed_ns(self.previous_clock, now),
            ) as u64,
            previous_clock: now,
        }
    }

    /// A loop that has not stepped yet, with the clock at `now`.
    pub fn new(duration_ns: u64, now: u64) -> (pacer: Pacer)
        ensures
            pacer == (Pacer { duration_ns, accumulator: 0, previous_clock: now }),
    {
        Pacer { duration_ns, accumulator: 0, previous_clock: now }
    }

    /// Decides what follows a step that returned `action`, the clock reading
    /// `now` having been taken after it.
    ///
    /// `Stop` ends the loop at once and leaves the state as it was.
    /// `Continue` adds the time since the previous reading to the
    /// accumulator, drops the whole ticks from it and sleeps for the rest of
    /// the current tick. The step runs once per iteration however many ticks
    /// went by.
    pub fn advance(&mut self, action: Action, now: u64) -> (pace: Pace)
        ensures
            action is Stop ==> pace is Exit && *final(self) == *old(self),
            action is Continue ==> *final(self) == old(self).after(now) && pace == Pace::Sleep(
                pause_ns(old(self).duration_ns, final(self).accumulator as int) as u64,
            ),
            action is Continue && old(self).duration_ns > 0 ==> final(self).accumulator < old(
                self,
            ).duration_ns,
            pace matches Pace::Sleep(ns) ==> ns <= old(self).duration_ns && (old(self).duration_ns
                > 0 ==> ns > 0),
    {
        match action {
            Action::Stop => Pace::Exit,
            Action::Continue => {
                let elapsed: u64 = if now >= self.previous_clock {
                    now - self.previous_clock
                } else {
                    0
                };
                let rest: u64 = if self.duration_ns == 0 {
                    0
                } else {
                    let total: u128 = self.accumulator as u128 + elapsed as u128;
                    (total % (self.duration_ns as u128)) as u64
                };
                self.accumulator = rest;
                self.previous_clock = now;
                let pause: u64 = if rest >= self.duration_ns {
                    0
                } else {
                    self.duration_ns - rest
                };
                Pace::Sleep(pause)
            },
        }
    }

    /// A loop that has not stepped yet, timed from the clock as it stands.
    pub fn start(duration_ns: u64) -> (pacer: Pacer)
        ensures
            pacer.duration_ns == duration_ns,
            pacer.accumulator == 0,
    {
        let now: u64 = clock_ns();
        Pacer::new(duration_ns, now)
    }

    /// Decides what follows a step that returned `action`, as `advance`
    /// does, on a clock reading of its own. The clock is read only when the
    /// step asked to continue.
    pub fn tick(&mut self, action: Action) -> (pace: Pace)
        ensures
            action is Stop ==> pace is Exit && *final(self) == *old(self),
            action is Continue ==> exists|now: u64|
                *final(self) == #[trigger] old(self).after(now) && pace == Pace::Sleep(
                    pause_ns(old(self).duration_ns, final(self).accumulator as int) as u64,
                ),
            action is Continue && old(self).duration_ns > 0 ==> final(self).accumulator < old(
                self,
            ).duration_ns,
            pace matches Pace::Sleep(ns) ==> ns <= old(self).duration_ns && (old(self).duration_ns
                > 0 ==> ns > 0),
    {
        match action {
            Action::Stop => Pace::Exit,
            Action::Continue => {
                let now: u64 = clock_ns();
                self.advance(Action::Continue, now)
            },
        }
    }
}

} // verus!
