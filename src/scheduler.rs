use vstd::prelude::*;

verus! {

/// Seconds between the end of one poll cycle and the start of the next.
pub const POLL_INTERVAL_SECS: u64 = 60;

/// Seconds slept between two looks at the shutdown signal.
pub const TICK_SECS: u64 = 1;

/// What a look at the shutdown signal, which never blocks, saw.
#[derive(Debug, PartialEq, Eq, Structural, Clone, Copy)]
pub enum Signal {
    /// Nobody asked to stop yet.
    Pending,
    /// The stop request arrived.
    Fired,
    /// The sending side is gone, so no request can come any more.
    Closed,
}

/// What the loop is to do after a tick.
#[derive(Debug, PartialEq, Eq, Structural, Clone, Copy)]
pub enum Action {
    /// Leave the loop; no further cycle starts.
    Stop,
    /// Run one poll cycle now, then report its end with `cycle_done`.
    Poll,
    /// Sleep for one tick and look again.
    Sleep,
}

/// The decisions of the poll loop. Time is a reading of a monotonic clock
/// that the caller takes, in one unit of its choice that `interval` shares;
/// the last cycle's end is kept here rather than in a global.
#[derive(Debug, PartialEq, Eq, Structural, Clone, Copy)]
pub struct Scheduler {
    pub interval: u64,
    pub last_cycle_end: u64,
    pub stopped: bool,
}

/// The next state and action after a tick at time `now` that saw `signal`.
pub open spec fn step(s: Scheduler, signal: Signal, now: u64) -> (Scheduler, Action) {
    if s.stopped || signal != Signal::Pending {
        (Scheduler { stopped: true, ..s }, Action::Stop)
    } else if now >= s.last_cycle_end && now - s.last_cycle_end >= s.interval {
        (s, Action::Poll)
    } else {
        (s, Action::Sleep)
    }
}

/// The actions of a run of ticks, each a signal and a time.
pub open spec fn run(s: Scheduler, ticks: Seq<(Signal, u64)>) -> Seq<Action>
    decreases ticks.len(),
{
    if ticks.len() == 0 {
        Seq::empty()
    } else {
        let (next, a) = step(s, ticks[0].0, ticks[0].1);
        seq![a] + run(next, ticks.drop_first())
    }
}

impl Scheduler {
    /// A running scheduler whose first cycle comes `interval` after `now`.
    pub fn new(interval: u64, now: u64) -> (r: Scheduler)
        ensures
            r == (Scheduler { interval, last_cycle_end: now, stopped: false }),
    {
        Scheduler { interval, last_cycle_end: now, stopped: false }
    }

    /// Decides what to do at time `now`, given what the shutdown signal
    /// showed. A stop request, or a signal that can no longer fire, stops
    /// the scheduler for good; otherwise a cycle is due once `interval` has
    /// passed since the last one ended.
    pub fn tick(&mut self, signal: Signal, now: u64) -> (a: Action)
        ensures
            (*final(self), a) == step(*old(self), signal, now),
    {
        if self.stopped {
            return Action::Stop;
        }
        match signal {
            Signal::Pending => {},
            _ => {
                self.stopped = true;
                return Action::Stop;
            },
        }
        if now >= self.last_cycle_end && now - self.last_cycle_end >= self.interval {
            Action::Poll
        } else {
            Action::Sleep
        }
    }

    /// Notes that a cycle ended at `now`: the next one is measured from here,
    /// so a cycle's own duration adds to the wait.
    pub fn cycle_done(&mut self, now: u64)
        ensures
            *final(self) == (Scheduler { last_cycle_end: now, ..*old(self) }),
    {
        self.last_cycle_end = now;
    }

    /// The scheduler has stopped.
    pub fn is_stopped(&self) -> (r: bool)
        ensures
            r == self.stopped,
    {
        self.stopped
    }
}

/// Once a stop request is seen, the loop stops at once and every later tick
/// stops too, whatever the signal and time: no further cycle starts, so no
/// further notification is sent.
pub proof fn lemma_shutdown_is_final(s: Scheduler, ticks: Seq<(Signal, u64)>)
    requires
        s.stopped || (ticks.len() > 0 && ticks[0].0 != Signal::Pending),
    ensures
        run(s, ticks).len() == ticks.len(),
        forall|i: int| 0 <= i < ticks.len() ==> #[trigger] run(s, ticks)[i] == Action::Stop,
    decreases ticks.len(),
{
    if ticks.len() > 0 {
        let (next, a) = step(s, ticks[0].0, ticks[0].1);
        assert(next.stopped && a == Action::Stop);
        lemma_shutdown_is_final(next, ticks.drop_first());
        let rest = run(next, ticks.drop_first());
        assert(run(s, ticks) == seq![a] + rest);
        assert forall|i: int| 0 <= i < ticks.len() implies #[trigger] run(s, ticks)[i]
            == Action::Stop by {
            if i > 0 {
                assert(run(s, ticks)[i] == rest[i - 1]);
            }
        }
    }
}

} // verus!
