//! Lines that are cycled until somebody says stop.

use vstd::prelude::*;

verus! {

/// What a cycle of the shared reset line does next.
#[derive(Clone, Copy, Debug, Eq, PartialEq, Structural)]
pub enum ResetCycle {
    /// Hold reset for a while.
    Hold,
    /// Let go of it for a while.
    Free,
    /// Let go of it for good.
    Last,
    Over,
}

impl ResetCycle {
    /// What follows, where the cycle was stopped by then or not. Reset that is
    /// held is always let go of, and the last thing done is to let go of it.
    pub open spec fn followed_by(self, stopped: bool) -> ResetCycle {
        match self {
            ResetCycle::Hold => ResetCycle::Free,
            ResetCycle::Free => if stopped {
                ResetCycle::Last
            } else {
                ResetCycle::Hold
            },
            ResetCycle::Last | ResetCycle::Over => ResetCycle::Over,
        }
    }

    pub fn start(stopped: bool) -> (first: ResetCycle)
        ensures
            first == (if stopped {
                ResetCycle::Last
            } else {
                ResetCycle::Hold
            }),
    {
        if stopped {
            ResetCycle::Last
        } else {
            ResetCycle::Hold
        }
    }

    pub fn next(&self, stopped: bool) -> (next: ResetCycle)
        ensures
            next == self.followed_by(stopped),
    {
        match *self {
            ResetCycle::Hold => ResetCycle::Free,
            ResetCycle::Free => if stopped {
                ResetCycle::Last
            } else {
                ResetCycle::Hold
            },
            ResetCycle::Last | ResetCycle::Over => ResetCycle::Over,
        }
    }
}

/// What a cycle of SWDIO does next.
#[derive(Clone, Copy, Debug, Eq, PartialEq, Structural)]
pub enum SwdioCycle {
    /// Drive the line to a level for a while, with reset held.
    Drive(bool),
    /// Let go of both wires.
    Detach,
    /// Let go of reset.
    Free,
    Over,
}

impl SwdioCycle {
    /// What follows, where the cycle was stopped by then or not.
    pub open spec fn followed_by(self, stopped: bool) -> SwdioCycle {
        match self {
            SwdioCycle::Drive(high) => if stopped {
                SwdioCycle::Detach
            } else {
                SwdioCycle::Drive(!high)
            },
            SwdioCycle::Detach => SwdioCycle::Free,
            SwdioCycle::Free | SwdioCycle::Over => SwdioCycle::Over,
        }
    }

    pub fn start(stopped: bool) -> (first: SwdioCycle)
        ensures
            first == (if stopped {
                SwdioCycle::Detach
            } else {
                SwdioCycle::Drive(false)
            }),
    {
        if stopped {
            SwdioCycle::Detach
        } else {
            SwdioCycle::Drive(false)
        }
    }

    pub fn next(&self, stopped: bool) -> (next: SwdioCycle)
        ensures
            next == self.followed_by(stopped),
    {
        match *self {
            SwdioCycle::Drive(high) => if stopped {
                SwdioCycle::Detach
            } else {
                SwdioCycle::Drive(!high)
            },
            SwdioCycle::Detach => SwdioCycle::Free,
            SwdioCycle::Free | SwdioCycle::Over => SwdioCycle::Over,
        }
    }
}

/// A cycle of the reset line that has begun ends with the line let go of, and
/// one that is stopped ends after at most three more steps.
pub proof fn law_a_reset_cycle_ends_released(step: ResetCycle, stopped: bool)
    ensures
        step.followed_by(stopped) is Over ==> step is Last || step is Over,
        step.followed_by(true).followed_by(true).followed_by(true) is Over,
{
}

/// A cycle of SWDIO lets go of the wires and of reset before it ends, and one
/// that is stopped ends after at most three more steps.
pub proof fn law_an_swdio_cycle_ends_released(step: SwdioCycle, stopped: bool)
    ensures
        step.followed_by(stopped) is Over ==> step is Free || step is Over,
        step.followed_by(stopped) is Free ==> step is Detach,
        step.followed_by(true).followed_by(true).followed_by(true) is Over,
{
}

/// A line that is cycled goes back and forth until it is stopped: each step is
/// undone by the next, and none stays where it is.
pub proof fn law_a_cycle_goes_back_and_forth(reset: ResetCycle, swdio: SwdioCycle)
    ensures
        reset is Hold || reset is Free ==> reset.followed_by(false) != reset && reset.followed_by(
            false,
        ).followed_by(false) == reset,
        reset is Hold ==> reset.followed_by(true) is Free,
        reset is Free ==> reset.followed_by(true) is Last,
        swdio is Drive ==> swdio.followed_by(false) is Drive && swdio.followed_by(false) != swdio
            && swdio.followed_by(false).followed_by(false) == swdio,
        swdio is Drive ==> swdio.followed_by(true) is Detach,
{
}

} // verus!
