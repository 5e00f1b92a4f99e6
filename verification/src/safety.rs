//! Fail-closed electrical policy.
//!
//! The question this answers is "may the probe drive a level onto these pads?",
//! and the only evidence available before driving anything is what the pads
//! read while released. An unpowered target is the case that matters: driving a
//! high level into one back-feeds its supply through the pad's protection
//! diode, which is a way to damage a board rather than debug it.

use vstd::prelude::*;

verus! {

/// Levels read from the debug pads while the probe is driving neither.
#[derive(Clone, Copy, Debug, Eq, PartialEq, Structural)]
pub enum ReleasedSwdState {
    /// What a powered, idle ARM debug port looks like: SWDIO pulled up and
    /// SWCLK pulled down. A convention rather than a guarantee — a target that
    /// idles otherwise reads as one of the cases below and is refused, which is
    /// the safe direction to be wrong in.
    ResetDefaults,
    /// SWDIO is low, so target power and a safe high-level drive are unproven.
    SwdioLow,
    /// Target pull-up is visible, but SWCLK differs from its idle default.
    ClockUnexpectedHigh,
}

/// What released levels say.
pub open spec fn state_of(swdio: bool, swclk: bool) -> ReleasedSwdState {
    if !swdio {
        ReleasedSwdState::SwdioLow
    } else if swclk {
        ReleasedSwdState::ClockUnexpectedHigh
    } else {
        ReleasedSwdState::ResetDefaults
    }
}

impl ReleasedSwdState {
    #[must_use]
    pub fn from_levels(swdio: bool, swclk: bool) -> (state: ReleasedSwdState)
        ensures
            state == state_of(swdio, swclk),
    {
        if !swdio {
            ReleasedSwdState::SwdioLow
        } else if swclk {
            ReleasedSwdState::ClockUnexpectedHigh
        } else {
            ReleasedSwdState::ResetDefaults
        }
    }

    /// Whether the target-side SWDIO pull-up provides minimum evidence that a
    /// high-driving operation will not energize an unpowered target.
    #[must_use]
    pub fn permits_high_drive(self) -> (permitted: bool)
        ensures
            permitted == (self != ReleasedSwdState::SwdioLow),
    {
        match self {
            ReleasedSwdState::SwdioLow => false,
            _ => true,
        }
    }
}

/// A high drive is permitted exactly when SWDIO reads high.
pub proof fn law_low_swdio_never_permits_a_high_drive(swdio: bool, swclk: bool)
    ensures
        (state_of(swdio, swclk) != ReleasedSwdState::SwdioLow) == swdio,
{
}

} // verus!
