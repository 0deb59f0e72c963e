//! The countdown state machine: it counts down to zero, fires the alarm once
//! after showing zero, and then counts the overtime upwards.

use vstd::prelude::*;
use vstd::string::StringExecFns;
use crate::duration::{clock_text, duration_to_string};

verus! {

/// Where the countdown stands.
#[derive(Debug, Clone, Copy, PartialEq, Eq, Structural)]
pub enum TimerState {
    /// Seconds left before the alarm.
    CountingDown(u64),
    /// Seconds since the alarm fired.
    Overtime(u64),
}

/// The seconds that a state shows.
pub open spec fn magnitude(s: TimerState) -> nat {
    match s {
        TimerState::CountingDown(r) => r as nat,
        TimerState::Overtime(e) => e as nat,
    }
}

/// The sign shown before the time: blank while counting down, `-` in overtime.
pub open spec fn sign(s: TimerState) -> char {
    match s {
        TimerState::CountingDown(_) => ' ',
        TimerState::Overtime(_) => '-',
    }
}

/// The status line for a state: its sign, then its time as `HH:MM:SS`.
pub open spec fn display(s: TimerState) -> Seq<char> {
    seq![sign(s)] + clock_text(magnitude(s))
}

/// The alarm fires in a state that counts down and has reached zero.
pub open spec fn fires(s: TimerState) -> bool {
    s == TimerState::CountingDown(0)
}

/// What a state becomes once shown: a countdown at zero turns to overtime at
/// zero; any other state stays.
pub open spec fn settle(s: TimerState) -> TimerState {
    if fires(s) {
        TimerState::Overtime(0)
    } else {
        s
    }
}

/// A state that is not waiting to fire.
pub open spec fn settled(s: TimerState) -> bool {
    !fires(s)
}

/// One second later: a countdown loses a second, overtime gains one (it stays
/// at `u64::MAX` once there).
pub open spec fn advance(s: TimerState) -> TimerState {
    match s {
        TimerState::CountingDown(r) => TimerState::CountingDown((r - 1) as u64),
        TimerState::Overtime(e) => TimerState::Overtime(
            if e < u64::MAX {
                (e + 1) as u64
            } else {
                e
            },
        ),
    }
}

/// The status line for `state`.
pub fn render(state: TimerState) -> (r: String)
    ensures
        r@ == display(state),
{
    proof {
        reveal_strlit(" ");
        reveal_strlit("-");
    }
    let (mut out, secs) = match state {
        TimerState::CountingDown(r) => (String::from_str(" "), r),
        TimerState::Overtime(e) => (String::from_str("-"), e),
    };
    let clock = duration_to_string(secs);
    out.append(clock.as_str());
    assert(out@ =~= display(state));
    out
}

/// What one step of the timer shows and does: the status line to show, and
/// whether to start the alarm once that line is shown.
pub struct Step {
    pub line: String,
    pub trigger: bool,
}

/// A running countdown. Between steps it is never a countdown at zero: that
/// state fires and turns to overtime in the step that shows it.
pub struct Timer {
    state: TimerState,
}

impl View for Timer {
    type V = TimerState;

    closed spec fn view(&self) -> TimerState {
        self.state
    }
}

impl Timer {
    #[verifier::type_invariant]
    spec fn inv(&self) -> bool {
        settled(self.state)
    }

    /// Shows `s` and settles it: the alarm fires after that line when `s` is
    /// a countdown at zero.
    fn enter(s: TimerState) -> (r: (Timer, Step))
        ensures
            r.0@ == settle(s),
            r.1.line@ == display(s),
            r.1.trigger == fires(s),
    {
        let line = render(s);
        let trigger = match s {
            TimerState::CountingDown(r) => r == 0,
            TimerState::Overtime(_) => false,
        };
        let next = if trigger {
            TimerState::Overtime(0)
        } else {
            s
        };
        (Timer { state: next }, Step { line, trigger })
    }

    /// Starts a countdown of `duration` seconds: the first step shows the full
    /// duration, and fires the alarm right after it when `duration` is zero.
    pub fn start(duration: u64) -> (r: (Timer, Step))
        ensures
            r.0@ == settle(TimerState::CountingDown(duration)),
            r.1.line@ == display(TimerState::CountingDown(duration)),
            r.1.trigger == (duration == 0),
            r.1.trigger ==> r.1.line@ == display(TimerState::CountingDown(0)),
    {
        Timer::enter(TimerState::CountingDown(duration))
    }

    /// One second passes: the state advances and is shown; the alarm fires
    /// right after the line that shows the countdown at zero.
    pub fn tick(&mut self) -> (r: Step)
        ensures
            final(self)@ == settle(advance(old(self)@)),
            r.line@ == display(advance(old(self)@)),
            r.trigger == fires(advance(old(self)@)),
            r.trigger ==> r.line@ == display(TimerState::CountingDown(0)),
    {
        proof {
            use_type_invariant(&*self);
        }
        let next = match self.state {
            TimerState::CountingDown(r) => TimerState::CountingDown(r - 1),
            TimerState::Overtime(e) => TimerState::Overtime(
                if e < u64::MAX {
                    e + 1
                } else {
                    e
                },
            ),
        };
        let (timer, step) = Timer::enter(next);
        *self = timer;
        step
    }

    /// The current state.
    pub fn state(&self) -> (r: TimerState)
        ensures
            r == self@,
    {
        self.state
    }
}

/// The timer's state after the first step and `n` ticks of a countdown of
/// `duration` seconds.
pub open spec fn state_after(duration: u64, n: nat) -> TimerState
    decreases n,
{
    if n == 0 {
        settle(TimerState::CountingDown(duration))
    } else {
        settle(advance(state_after(duration, (n - 1) as nat)))
    }
}

/// Whether the alarm fires in step `n` (step 0 is the first, `start`) of a
/// countdown of `duration` seconds.
pub open spec fn fires_at(duration: u64, n: nat) -> bool {
    if n == 0 {
        fires(TimerState::CountingDown(duration))
    } else {
        fires(advance(state_after(duration, (n - 1) as nat)))
    }
}

/// How many times the alarm fires in steps `0..=n` of a countdown of
/// `duration` seconds.
pub open spec fn fire_count(duration: u64, n: nat) -> nat
    decreases n,
{
    (if fires_at(duration, n) {
        1nat
    } else {
        0nat
    }) + (if n == 0 {
        0nat
    } else {
        fire_count(duration, (n - 1) as nat)
    })
}

/// A countdown of `duration` seconds counts down one second per tick; after
/// exactly `duration` ticks it is in overtime at zero and the alarm has fired
/// exactly once; each later tick adds a second of overtime and never fires the
/// alarm again.
pub proof fn lemma_alarm_fires_once(duration: u64, n: nat)
    ensures
        n < duration ==> state_after(duration, n) == TimerState::CountingDown(
            (duration - n) as u64,
        ) && fire_count(duration, n) == 0,
        duration <= n ==> fire_count(duration, n) == 1 && state_after(duration, n)
            == TimerState::Overtime(
            if n - duration <= u64::MAX {
                (n - duration) as u64
            } else {
                u64::MAX
            },
        ),
    decreases n,
{
    if n > 0 {
        lemma_alarm_fires_once(duration, (n - 1) as nat);
    }
}

} // verus!
