//! The LED colour cycle driven by the periodic timer task.
//!
//! The sequencer steps through `Off`, `Blue`, `Green`, `Yellow` and back to
//! `Off`, one step per elapsed timer period. Each step names the pin writes
//! that go with it; the firmware performs them on the three LEDs.

use crate::pin::Level;
use vstd::prelude::*;

verus! {

/// The three LEDs of the board.
#[derive(Clone, Copy, Debug, PartialEq, Eq, Structural)]
pub enum Led {
    Blue,
    Green,
    Yellow,
}

/// One write to the pin of an LED.
#[derive(Clone, Copy, Debug, PartialEq, Eq, Structural)]
pub struct LedWrite {
    pub led: Led,
    pub level: Level,
}

/// Where the colour cycle stands.
#[derive(Clone, Copy, Debug, PartialEq, Eq, Structural)]
pub enum BlinkMode {
    Off,
    Blue,
    Green,
    Yellow,
}

impl BlinkMode {
    /// The mode that follows this one. Every mode has exactly one successor.
    pub open spec fn successor(self) -> BlinkMode {
        match self {
            BlinkMode::Off => BlinkMode::Blue,
            BlinkMode::Blue => BlinkMode::Green,
            BlinkMode::Green => BlinkMode::Yellow,
            BlinkMode::Yellow => BlinkMode::Off,
        }
    }

    /// The pin writes made on leaving this mode, in the order they are made.
    pub open spec fn effects(self) -> Seq<LedWrite> {
        match self {
            BlinkMode::Off => seq![
                LedWrite { led: Led::Green, level: Level::High },
                LedWrite { led: Led::Blue, level: Level::Low },
                LedWrite { led: Led::Yellow, level: Level::High },
            ],
            BlinkMode::Blue => seq![LedWrite { led: Led::Blue, level: Level::High }],
            BlinkMode::Green => seq![LedWrite { led: Led::Green, level: Level::Low }],
            BlinkMode::Yellow => seq![LedWrite { led: Led::Yellow, level: Level::Low }],
        }
    }

    /// The position of this mode in the cycle, counted from `Off`.
    pub open spec fn ordinal(self) -> nat {
        match self {
            BlinkMode::Off => 0,
            BlinkMode::Blue => 1,
            BlinkMode::Green => 2,
            BlinkMode::Yellow => 3,
        }
    }

    /// The mode at position `n` of the cycle; positions wrap around after
    /// four.
    pub open spec fn at(n: nat) -> BlinkMode {
        if n % 4 == 0 {
            BlinkMode::Off
        } else if n % 4 == 1 {
            BlinkMode::Blue
        } else if n % 4 == 2 {
            BlinkMode::Green
        } else {
            BlinkMode::Yellow
        }
    }

    /// The mode reached from this one by `n` steps.
    pub open spec fn after(self, n: nat) -> BlinkMode
        decreases n,
    {
        if n == 0 {
            self
        } else {
            self.after((n - 1) as nat).successor()
        }
    }

    /// Takes one step of the cycle: returns the next mode and the pin writes
    /// that go with the step. Every mode is a valid input.
    pub fn advance(self) -> (step: (BlinkMode, Vec<LedWrite>))
        ensures
            step.0 == self.successor(),
            step.1@ == self.effects(),
    {
        let mut writes: Vec<LedWrite> = Vec::new();
        let next = match self {
            BlinkMode::Off => {
                writes.push(LedWrite { led: Led::Green, level: Level::High });
                writes.push(LedWrite { led: Led::Blue, level: Level::Low });
                writes.push(LedWrite { led: Led::Yellow, level: Level::High });
                BlinkMode::Blue
            },
            BlinkMode::Blue => {
                writes.push(LedWrite { led: Led::Blue, level: Level::High });
                BlinkMode::Green
            },
            BlinkMode::Green => {
                writes.push(LedWrite { led: Led::Green, level: Level::Low });
                BlinkMode::Yellow
            },
            BlinkMode::Yellow => {
                writes.push(LedWrite { led: Led::Yellow, level: Level::Low });
                BlinkMode::Off
            },
        };
        assert(writes@ =~= self.effects());
        (next, writes)
    }
}

/// The state that the timer task keeps between its invocations.
pub struct LedSequencer {
    mode: BlinkMode,
}

impl LedSequencer {
    /// The mode the sequencer is in.
    pub closed spec fn mode(&self) -> BlinkMode {
        self.mode
    }

    /// A sequencer at the start of the cycle.
    pub fn new() -> (sequencer: LedSequencer)
        ensures
            sequencer.mode() == BlinkMode::Off,
    {
        LedSequencer { mode: BlinkMode::Off }
    }

    /// A sequencer that stands at `mode`.
    pub fn starting_at(mode: BlinkMode) -> (sequencer: LedSequencer)
        ensures
            sequencer.mode() == mode,
    {
        LedSequencer { mode }
    }

    /// Returns the mode the sequencer is in.
    pub fn current(&self) -> (mode: BlinkMode)
        ensures
            mode == self.mode(),
    {
        self.mode
    }

    /// One invocation of the timer task. `period_elapsed` is what the poll
    /// of the timer said: when the period has elapsed the sequencer takes
    /// one step and returns its pin writes; otherwise nothing changes and
    /// nothing is written.
    pub fn on_timer(&mut self, period_elapsed: bool) -> (writes: Vec<LedWrite>)
        ensures
            period_elapsed ==> final(self).mode() == old(self).mode().successor() && writes@
                == old(self).mode().effects(),
            !period_elapsed ==> final(self).mode() == old(self).mode() && writes@
                == Seq::<LedWrite>::empty(),
    {
        if period_elapsed {
            let (next, writes) = self.mode.advance();
            self.mode = next;
            writes
        } else {
            Vec::new()
        }
    }

    /// Lets `periods` timer periods elapse, one after the other, and returns
    /// the modes entered, in order: entry `i` is the mode after `i + 1`
    /// periods.
    pub fn run(&mut self, periods: usize) -> (visited: Vec<BlinkMode>)
        ensures
            final(self).mode() == old(self).mode().after(periods as nat),
            visited@.len() == periods,
            forall|i: int|
                0 <= i < periods ==> #[trigger] visited@[i] == old(self).mode().after(
                    (i + 1) as nat,
                ),
    {
        let mut visited: Vec<BlinkMode> = Vec::new();
        let mut done: usize = 0;
        while done < periods
            invariant
                done <= periods,
                self.mode() == old(self).mode().after(done as nat),
                visited@.len() == done,
                forall|i: int|
                    0 <= i < done ==> #[trigger] visited@[i] == old(self).mode().after(
                        (i + 1) as nat,
                    ),
            decreases periods - done,
        {
            let _ = self.on_timer(true);
            visited.push(self.mode);
            done = done + 1;
        }
        visited
    }
}

/// The cycle has a fixed order: `n` steps from a mode lead to the mode that
/// stands `n` positions further on, whatever the starting mode.
pub proof fn lemma_cyclic_order(start: BlinkMode, n: nat)
    ensures
        start.after(n) == BlinkMode::at(start.ordinal() + n),
    decreases n,
{
    if n > 0 {
        lemma_cyclic_order(start, (n - 1) as nat);
    }
}

/// The cycle has period four: after any multiple of four steps the
/// sequencer is back in the mode it started from.
pub proof fn lemma_period_four(start: BlinkMode, k: nat)
    ensures
        start.after(4 * k) == start,
{
    lemma_cyclic_order(start, 4 * k);
    assert((start.ordinal() + 4 * k) % 4 == start.ordinal()) by (nonlinear_arith)
        requires
            start.ordinal() < 4,
    ;
}

} // verus!
