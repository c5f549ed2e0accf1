//! Logic levels of output pins.

use vstd::prelude::*;

verus! {

/// The level driven on an output pin. The LEDs of the board are wired
/// active low: `Low` lights an LED and `High` puts it out.
#[derive(Clone, Copy, Debug, PartialEq, Eq, Structural)]
pub enum Level {
    Low,
    High,
}

impl Level {
    /// The other level.
    pub open spec fn flipped(self) -> Level {
        match self {
            Level::Low => Level::High,
            Level::High => Level::Low,
        }
    }

    /// Returns the other level.
    pub fn toggled(self) -> (level: Level)
        ensures
            level == self.flipped(),
    {
        match self {
            Level::Low => Level::High,
            Level::High => Level::Low,
        }
    }
}

} // verus!
