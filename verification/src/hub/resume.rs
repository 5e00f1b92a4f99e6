//! Going on with a command once the board has done its part.

use super::board;
use super::job::{self, Action, Event, Goal, HubState, Job, Serial, Then, Turn};
use super::request::Target;
use super::serial::SHORT_WAIT;
use super::wire;
use super::Hub;
use crate::bytes;
use crate::frame::MAX_BLOCK_WORDS;
use crate::safety::ReleasedSwdState;
use crate::swd::bring_up;
use crate::swd::io;
use crate::swd::link::{LinkView, Step};
use crate::swd::{Error, PadOp, SwdIo, MAX_BURST_BITS};
use vstd::prelude::*;

verus! {

/// A step of the board's work that failed, or was answered by something else
/// than it asks for: the command fails and nothing else changes.
pub open spec fn failed(before: HubState, after: HubState, turn: Turn) -> bool {
    after == before && job::refused(turn, Error::Protocol(0))
}

/// The lines looked at, and the next step of the board's work asked for.
pub open spec fn looked_then(
    before: HubState,
    after: HubState,
    turn: Turn,
    swdio: bool,
    swclk: bool,
    next: Job,
) -> bool {
    job::link_did(before, after, bring_up::looked_at(swdio, swclk)) && job::asked(
        turn,
        Action::ReadReset,
        next,
    )
}

/// A parked target clocked free on request.
pub open spec fn freed(
    before: HubState,
    after: HubState,
    turn: Turn,
    cycles: u16,
    seen: Seq<bool>,
    swdio: bool,
    swclk: bool,
) -> bool {
    &&& seen.len() == cycles
    &&& job::link_did(before, after, job::recovering(seen, swdio, swclk))
    &&& job::replied(turn, seq![job::level(swdio), job::level(swclk)])
}

/// What proven power is put to use for.
pub open spec fn powered(turn: Turn, goal: Goal) -> bool {
    match goal {
        Goal::Move(target) => job::asked(
            turn,
            Action::Select { target, settle_ms: 5 },
            Job::Moved { target },
        ),
        Goal::Display => job::asked(
            turn,
            Action::Uart(Serial::Transmit { driven: true }),
            Job::DisplayDriven,
        ),
    }
}

/// The look that tells whether the target is powered. Only a target-side
/// pull-up on SWDIO permits a high level on a selector or on the UART.
pub open spec fn power_saw(
    before: HubState,
    after: HubState,
    turn: Turn,
    goal: Goal,
    last: bool,
    swdio: bool,
    swclk: bool,
) -> bool {
    &&& job::link_did(
        HubState { clock_high: swclk, ..before },
        after,
        bring_up::looked_at(swdio, swclk),
    )
    &&& if swdio {
        powered(turn, goal)
    } else if last {
        job::refused(turn, Error::LineHeldLow)
    } else {
        job::asked(turn, Action::ReadReset, Job::PowerReset { goal })
    }
}

/// The transmit line let go of, whatever came of a display frame.
pub open spec fn display_left(turn: Turn, taken: Result<u32, Error>) -> bool {
    job::asked(
        turn,
        Action::Uart(Serial::Transmit { driven: false }),
        Job::DisplayBack { taken },
    )
}

/// What follows once the multiplexer is in its passive position.
pub open spec fn went_passive(before: HubState, then: Then, after: HubState, turn: Turn) -> bool {
    let here = board::passive(before);
    match then {
        Then::Attach => match here.link {
            None => board::no_link(here, after, turn),
            Some(_) => exists|swdio: bool, swclk: bool| #[trigger]
                board::attach_saw(here, after, turn, swdio, swclk),
        },
        Then::UnderReset => if here.link is None {
            board::no_link(here, after, turn)
        } else {
            after == here && job::asked(
                turn,
                Action::Reset { held: true, settle_ms: 10 },
                Job::UnderHeld,
            )
        },
        Then::PadTest => if here.link is None {
            board::no_link(here, after, turn)
        } else {
            after == here && job::asked(
                turn,
                Action::Reset { held: true, settle_ms: 10 },
                Job::PadHeld,
            )
        },
        Then::Probe { delay_us } => if here.link is None {
            board::no_link(here, after, turn)
        } else {
            after == here && job::asked(
                turn,
                Action::Reset { held: true, settle_ms: 10 },
                Job::ProbeHeld { delay_us },
            )
        },
        Then::Drive { high } => after == here && job::asked(
            turn,
            Action::Reset { held: true, settle_ms: 0 },
            Job::DriveHeld { high },
        ),
        Then::Recover { cycles } => match here.link {
            None => board::no_link(here, after, turn),
            Some(_) => exists|seen: Seq<bool>, swdio: bool, swclk: bool| #[trigger]
                freed(here, after, turn, cycles, seen, swdio, swclk),
        },
        Then::Wire { test } => match (here.link, test) {
            (Some(_), Some(test)) => exists|middle: LinkView, first: u64, second: u64| #[trigger]
                wire::wire_done(here, after, turn, test, middle, first, second),
            _ => board::no_link(here, after, turn),
        },
        Then::ApWrite { value, clocks } => match here.link {
            None => board::no_link(here, after, turn),
            Some(_) => exists|middle: LinkView, got: (u8, u8, u32, u32)| #[trigger]
                wire::write_probe_done(here, after, turn, value, clocks, middle, got),
        },
        Then::Loopback { bits, width } => if here.link is None {
            board::no_link(here, after, turn)
        } else {
            after == here && job::asked(turn, Action::Loopback { bits, width }, Job::Looped)
        },
        Then::Lines => match here.link {
            None => board::no_link(here, after, turn),
            Some(_) => exists|swdio: bool, swclk: bool| #[trigger]
                looked_then(
                    here,
                    after,
                    turn,
                    swdio,
                    swclk,
                    Job::LinesReset { swdio, swclk },
                ),
        },
        Then::ResetLines => after == here && job::asked(
            turn,
            Action::Reset { held: true, settle_ms: 10 },
            Job::BothHeld,
        ),
        Then::Power { goal } => match here.link {
            None => board::no_link(here, after, turn),
            Some(_) => exists|swdio: bool, swclk: bool| #[trigger]
                power_saw(here, after, turn, goal, false, swdio, swclk),
        },
    }
}

/// The line reset and switched with reset held or just let go of.
pub open spec fn switched_then(
    before: HubState,
    after: HubState,
    turn: Turn,
    action: Action,
    next: Job,
) -> bool {
    match before.link {
        None => board::no_link(before, after, turn),
        Some(_) => job::link_did(before, after, bring_up::switch_to_swd()) && job::asked(
            turn,
            action,
            next,
        ),
    }
}

/// SWDIO driven to a level, and what the pad reads.
pub open spec fn drove(before: HubState, after: HubState, turn: Turn, high: bool, seen: bool) -> bool {
    &&& after == (HubState { link: after.link, ..before })
    &&& before.link is Some
    &&& after.link is Some
    &&& after.link->0.did(
        before.link->0,
        seq![
            Step::Pads(
                io::uninterrupted(
                    seq![
                        PadOp::Output,
                        PadOp::Clock(false),
                        PadOp::Data(high),
                        PadOp::HalfCycle,
                        PadOp::Sense(seen),
                    ],
                ),
            ),
        ],
    )
    &&& after.link->0.selected == before.link->0.selected
    &&& after.link->0.csw == before.link->0.csw
    &&& job::replied(turn, seq![job::level(seen)])
}

/// The end of a recovery probe that failed: reset is let go of on every path.
pub open spec fn probe_abandoned(before: HubState, after: HubState, turn: Turn) -> bool {
    after == before && job::asked(
        turn,
        Action::Reset { held: false, settle_ms: 0 },
        Job::ProbeCleared { identity: Err(Error::Protocol(0)) },
    )
}

/// The end of a recovery probe.
pub open spec fn probe_cleared(
    before: HubState,
    event: Event,
    identity: Result<(u32, u32), Error>,
    after: HubState,
    turn: Turn,
) -> bool {
    let here = HubState {
        attached: false,
        reset_held: before.reset_held && event != Event::Done,
        ..before
    };
    job::let_go(here, after) && board::probe_reply(turn, identity)
}

/// The end of a probe of one position that failed before it could look: the
/// link is let go of and the multiplexer goes back all the same.
pub open spec fn mux_abandoned(before: HubState, after: HubState, turn: Turn) -> bool {
    job::let_go(before, after) && job::asked(
        turn,
        Action::Select { target: Target::Stm32, settle_ms: 0 },
        Job::MuxBack { reply: Err(Error::Protocol(0)) },
    )
}

/// The end of a probe of one position.
pub open spec fn mux_back(
    before: HubState,
    event: Event,
    reply: Result<[u8; 9], Error>,
    after: HubState,
    turn: Turn,
) -> bool {
    &&& after == board::passive(before)
    &&& match reply {
        Err(error) => job::refused(turn, error),
        Ok(bytes) => if event == Event::Done {
            job::replied(turn, bytes@)
        } else {
            job::refused(turn, Error::Protocol(0))
        },
    }
}

/// What follows once the board reports on an attach.
pub open spec fn attach_resumed(
    before: HubState,
    job: Job,
    event: Event,
    after: HubState,
    turn: Turn,
) -> bool {
    match (job, event) {
        (Job::AttachReset, Event::Level(true)) => after == before && job::asked(
            turn,
            Action::Reset { held: true, settle_ms: 10 },
            Job::AttachHeld,
        ),
        (Job::AttachReset, Event::Level(false)) => match before.link {
            None => board::no_link(before, after, turn),
            Some(_) => exists|seen: Seq<bool>, swdio: bool, swclk: bool| #[trigger]
                board::recovered_after(before, after, turn, Seq::empty(), seen, swdio, swclk),
        },
        (Job::AttachHeld, Event::Done) => after == board::with_reset(before, true) && job::asked(
            turn,
            Action::Reset { held: false, settle_ms: 10 },
            Job::AttachFreed,
        ),
        (Job::AttachFreed, Event::Done) => {
            let here = board::with_reset(before, false);
            match here.link {
                None => board::no_link(here, after, turn),
                Some(_) => exists|swdio: bool, swclk: bool| #[trigger]
                    board::attach_saw_again(here, after, turn, swdio, swclk),
            }
        },
        (Job::UnderHeld, Event::Done) => switched_then(
            board::with_reset(before, true),
            after,
            turn,
            Action::Reset { held: false, settle_ms: 2 },
            Job::UnderFreed,
        ),
        (Job::UnderFreed, Event::Done) => {
            let here = board::with_reset(before, false);
            match here.link {
                None => board::no_link(here, after, turn),
                Some(_) => board::attached_after(here, after, turn, Seq::empty()),
            }
        },
        _ => failed(before, after, turn),
    }
}

/// What follows once the board reports on a test of the pads or the lines.
pub open spec fn lines_resumed(
    before: HubState,
    job: Job,
    event: Event,
    after: HubState,
    turn: Turn,
) -> bool {
    match (job, event) {
        (Job::PadHeld, Event::Done) => {
            let here = board::with_reset(before, true);
            match here.link {
                None => board::no_link(here, after, turn),
                Some(_) => turn matches Turn::Ask(
                    Action::Reset { held: false, settle_ms: 0 },
                    Job::PadFreed { levels },
                ) && job::link_did(here, after, board::pads_tested(levels)),
            }
        },
        (Job::PadFreed { levels }, Event::Done) => {
            &&& after == (HubState { attached: false, ..board::with_reset(before, false) })
            &&& job::replied(turn, board::level_bytes(levels))
        },
        (Job::DriveHeld { high }, Event::Done) => {
            let here = board::with_reset(before, true);
            match here.link {
                None => board::no_link(here, after, turn),
                Some(_) => exists|seen: bool| #[trigger] drove(here, after, turn, high, seen),
            }
        },
        (Job::LinesReset { swdio, swclk }, Event::Level(reset)) => {
            &&& after == (HubState { attached: false, ..before })
            &&& job::replied(turn, seq![job::level(swdio), job::level(swclk), job::level(reset)])
        },
        (Job::BothHeld, Event::Done) => {
            let here = board::with_reset(before, true);
            match here.link {
                None => board::no_link(here, after, turn),
                Some(_) => exists|swdio: bool, swclk: bool| #[trigger]
                    looked_then(
                        here,
                        after,
                        turn,
                        swdio,
                        swclk,
                        Job::BothHeldReset { swdio, swclk },
                    ),
            }
        },
        (Job::BothHeldReset { swdio, swclk }, Event::Level(reset)) => {
            &&& after == before
            &&& turn matches Turn::Ask(
                Action::Reset { held: false, settle_ms: 10 },
                Job::BothFreed { before: seen },
            ) && seen@ == seq![swdio, swclk, reset]
        },
        (Job::BothFreed { before: seen }, Event::Done) => {
            let here = board::with_reset(before, false);
            match here.link {
                None => board::no_link(here, after, turn),
                Some(_) => exists|swdio: bool, swclk: bool| #[trigger]
                    looked_then(
                        here,
                        after,
                        turn,
                        swdio,
                        swclk,
                        Job::BothFreedReset { before: seen, swdio, swclk },
                    ),
            }
        },
        (Job::BothFreedReset { before: seen, swdio, swclk }, Event::Level(reset)) => {
            &&& after == (HubState { attached: false, ..before })
            &&& job::replied(
                turn,
                seq![
                    job::level(seen@[0]),
                    job::level(seen@[1]),
                    job::level(seen@[2]),
                    job::level(swdio),
                    job::level(swclk),
                    job::level(reset),
                ],
            )
        },
        (Job::ResetMoved { held }, Event::Done) => after == board::with_reset(before, held)
            && job::asked(turn, Action::ReadReset, Job::ResetRead),
        (Job::ResetRead, Event::Level(reset)) => after == before && job::replied(
            turn,
            seq![job::level(reset)],
        ),
        _ => failed(before, after, turn),
    }
}

/// What follows once the board reports on a probe of the target.
pub open spec fn probe_resumed(
    before: HubState,
    job: Job,
    event: Event,
    after: HubState,
    turn: Turn,
) -> bool {
    match (job, event) {
        (Job::ProbeHeld { delay_us }, Event::Done) => {
            let here = board::with_reset(before, true);
            if here.link is None {
                probe_abandoned(here, after, turn)
            } else {
                job::link_did(here, after, bring_up::switch_to_swd()) && job::asked(
                    turn,
                    Action::Reset { held: false, settle_ms: 0 },
                    Job::ProbeFreed { delay_us },
                )
            }
        },
        (Job::ProbeFreed { delay_us }, Event::Done) => after == board::with_reset(before, false)
            && job::asked(turn, Action::DelayUs { delay_us }, Job::ProbeDelayed),
        (Job::ProbeDelayed, Event::Done) => match before.link {
            None => probe_abandoned(before, after, turn),
            Some(_) => exists|middle: LinkView| #[trigger]
                board::probe_ran(before, after, turn, middle),
        },
        (Job::ProbeCleared { identity }, event) => probe_cleared(
            before,
            event,
            identity,
            after,
            turn,
        ),
        (Job::MuxMoved { target }, Event::Done) => after == before && job::asked(
            turn,
            Action::ReadSelectors,
            Job::MuxRead { target },
        ),
        (Job::MuxRead { target }, Event::Levels(s0, s1)) => match before.link {
            None => mux_abandoned(before, after, turn),
            Some(_) => exists|
                swdio: bool,
                swclk: bool,
                status: u8,
                dp_id: u32,
                looked: LinkView,
                middle: LinkView,
            |
                #[trigger] wire::mux_probed(
                    before,
                    after,
                    turn,
                    target,
                    s0,
                    s1,
                    swdio,
                    swclk,
                    status,
                    dp_id,
                    looked,
                    middle,
                ),
        },
        (Job::MuxMoved { .. }, _) | (Job::MuxRead { .. }, _) => mux_abandoned(before, after, turn),
        (Job::MuxBack { reply }, event) => mux_back(before, event, reply, after, turn),
        _ => probe_abandoned(before, after, turn),
    }
}

/// What follows once the board reports on the wire's configuration.
pub open spec fn engine_resumed(
    before: HubState,
    job: Job,
    event: Event,
    after: HubState,
    turn: Turn,
) -> bool {
    match (job, event) {
        (Job::Speed, Event::Number(clock_hz)) => after == before && job::replied(
            turn,
            bytes::le32(clock_hz),
        ),
        (Job::Looped, Event::Field(seen)) => after == (HubState { attached: false, ..before })
            && job::replied(turn, bytes::le64(seen)),
        (Job::EngineSet, Event::Number(clock_hz)) => after == (HubState {
            attached: false,
            ..before
        }) && job::replied(turn, bytes::le32(clock_hz)),
        (Job::PinMapSet { choice }, Event::Done) => after == (HubState { attached: false, ..before })
            && job::replied(turn, seq![choice]),
        (Job::ClockRead, Event::Number(clock_hz)) => after == before && job::replied(
            turn,
            bytes::le32(MAX_BLOCK_WORDS as u32) + bytes::le32(clock_hz),
        ),
        _ => failed(before, after, turn),
    }
}

/// What follows once the board reports on the target's power, on the display's
/// UART, or on a reset pulse.
pub open spec fn power_resumed(
    before: HubState,
    job: Job,
    event: Event,
    after: HubState,
    turn: Turn,
) -> bool {
    match (job, event) {
        (Job::PowerReset { goal }, Event::Level(true)) => after == before && job::asked(
            turn,
            Action::Reset { held: true, settle_ms: 10 },
            Job::PowerHeld { goal },
        ),
        (Job::PowerReset { .. }, Event::Level(false)) => after == before && job::refused(
            turn,
            Error::LineHeldLow,
        ),
        (Job::PowerHeld { goal }, Event::Done) => after == board::with_reset(before, true)
            && job::asked(
            turn,
            Action::Reset { held: false, settle_ms: 10 },
            Job::PowerFreed { goal },
        ),
        (Job::PowerFreed { goal }, Event::Done) => {
            let here = board::with_reset(before, false);
            match here.link {
                None => board::no_link(here, after, turn),
                Some(_) => exists|swdio: bool, swclk: bool| #[trigger]
                    power_saw(here, after, turn, goal, true, swdio, swclk),
            }
        },
        (Job::Moved { target }, Event::Done) => after == (HubState {
            selected: target,
            attached: false,
            ..before
        }) && job::replied(turn, Seq::empty()),
        (Job::DisplayDriven, Event::Done) => after == before && job::asked(
            turn,
            Action::Uart(Serial::WriteFrame),
            Job::DisplayWritten,
        ),
        (Job::DisplayWritten, Event::Number(written)) => after == before && job::asked(
            turn,
            Action::Uart(Serial::Drain { ticks: SHORT_WAIT }),
            Job::DisplayDrained { written },
        ),
        (Job::DisplayWritten, _) => after == before && display_left(turn, Err(Error::Protocol(0))),
        (Job::DisplayDrained { written }, Event::Done) => after == before && display_left(
            turn,
            Ok(written),
        ),
        (Job::DisplayDrained { .. }, _) => after == before && display_left(
            turn,
            Err(Error::Protocol(0)),
        ),
        (Job::DisplayBack { taken: Ok(written) }, Event::Done) => after == before && job::replied(
            turn,
            bytes::le32(written),
        ),
        (Job::DisplayBack { taken: Err(error) }, Event::Done) => after == before && job::refused(
            turn,
            error,
        ),
        (Job::PulseRead, Event::Level(true)) => after == before && job::asked(
            turn,
            Action::Reset { held: true, settle_ms: 10 },
            Job::PulseHeld,
        ),
        (Job::PulseRead, Event::Level(false)) => after == before && job::refused(
            turn,
            Error::LineHeldLow,
        ),
        (Job::PulseHeld, Event::Done) => after == board::with_reset(before, true) && job::asked(
            turn,
            Action::Reset { held: false, settle_ms: 10 },
            Job::PulseFreed,
        ),
        (Job::PulseFreed, Event::Done) => after == board::with_reset(before, false)
            && job::replied(turn, Seq::empty()),
        _ => failed(before, after, turn),
    }
}

fn failure() -> (turn: Turn)
    ensures
        job::refused(turn, Error::Protocol(0)),
{
    Turn::Answer(Err(Error::Protocol(0)))
}

/// An answer of a few bytes.
pub(super) fn answer(reply: Vec<u8>) -> (turn: Turn)
    ensures
        job::replied(turn, reply@),
{
    Turn::Answer(Ok(reply))
}

fn answer_word(word: u32) -> (turn: Turn)
    ensures
        job::replied(turn, bytes::le32(word)),
{
    let mut reply: Vec<u8> = Vec::new();
    bytes::push_le32(&mut reply, word);
    assert(reply@ =~= bytes::le32(word));
    Turn::Answer(Ok(reply))
}

impl<I: SwdIo> Hub<I> {
    /// Looks whether the target is powered.
    fn check_power(&mut self, goal: Goal, last: bool) -> (turn: Turn)
        requires
            old(self)@.link is Some,
        ensures
            exists|swdio: bool, swclk: bool| #[trigger]
                power_saw(old(self)@, final(self)@, turn, goal, last, swdio, swclk),
            final(self).pins == old(self).pins,
    {
        let (swdio, swclk): (bool, bool) = self.look();
        self.clock_high = swclk;
        let turn: Turn = if ReleasedSwdState::from_levels(swdio, swclk).permits_high_drive() {
            match goal {
                Goal::Move(target) => Turn::Ask(
                    Action::Select { target, settle_ms: 5 },
                    Job::Moved { target },
                ),
                Goal::Display => Turn::Ask(
                    Action::Uart(Serial::Transmit { driven: true }),
                    Job::DisplayDriven,
                ),
            }
        } else if last {
            Turn::Answer(Err(Error::LineHeldLow))
        } else {
            Turn::Ask(Action::ReadReset, Job::PowerReset { goal })
        };
        assert(power_saw(old(self)@, self@, turn, goal, last, swdio, swclk));
        turn
    }

    /// Goes on once the multiplexer is in its passive position.
    pub(super) fn resume_passive(&mut self, then: Then) -> (turn: Turn)
        requires
            then matches Then::ApWrite { clocks: Some((after, before)), .. } ==> after
                <= MAX_BURST_BITS && before <= MAX_BURST_BITS,
        ensures
            went_passive(old(self)@, then, final(self)@, turn),
            final(self).pins == old(self).pins,
    {
        self.selected = Target::Stm32;
        self.attached = false;
        let ghost here = self@;
        assert(here == board::passive(old(self)@));
        match then {
            Then::Attach => self.attach(),
            Then::Drive { high } => Turn::Ask(
                Action::Reset { held: true, settle_ms: 0 },
                Job::DriveHeld { high },
            ),
            Then::ResetLines => Turn::Ask(
                Action::Reset { held: true, settle_ms: 10 },
                Job::BothHeld,
            ),
            Then::Wire { test } => self.wire_probe(test),
            Then::ApWrite { value, clocks } => self.write_probe(value, clocks),
            _ => {
                if self.swd.is_none() {
                    return failure();
                }
                match then {
                    Then::UnderReset => Turn::Ask(
                        Action::Reset { held: true, settle_ms: 10 },
                        Job::UnderHeld,
                    ),
                    Then::PadTest => Turn::Ask(
                        Action::Reset { held: true, settle_ms: 10 },
                        Job::PadHeld,
                    ),
                    Then::Probe { delay_us } => Turn::Ask(
                        Action::Reset { held: true, settle_ms: 10 },
                        Job::ProbeHeld { delay_us },
                    ),
                    Then::Loopback { bits, width } => Turn::Ask(
                        Action::Loopback { bits, width },
                        Job::Looped,
                    ),
                    Then::Power { goal } => self.check_power(goal, false),
                    Then::Recover { cycles } => {
                        let (swdio, swclk): (bool, bool) = self.clock_free(cycles);
                        let ghost seen = choose|seen: Seq<bool>|
                            seen.len() == cycles && #[trigger] job::link_did(
                                here,
                                self@,
                                job::recovering(seen, swdio, swclk),
                            );
                        let mut reply: Vec<u8> = Vec::new();
                        reply.push(job::level_byte(swdio));
                        reply.push(job::level_byte(swclk));
                        assert(reply@ =~= seq![job::level(swdio), job::level(swclk)]);
                        let turn: Turn = answer(reply);
                        assert(freed(here, self@, turn, cycles, seen, swdio, swclk));
                        turn
                    },
                    _ => {
                        let (swdio, swclk): (bool, bool) = self.look();
                        let turn: Turn = Turn::Ask(
                            Action::ReadReset,
                            Job::LinesReset { swdio, swclk },
                        );
                        assert(looked_then(
                            here,
                            self@,
                            turn,
                            swdio,
                            swclk,
                            Job::LinesReset { swdio, swclk },
                        ));
                        turn
                    },
                }
            },
        }
    }

    /// Resets and switches the line with reset held.
    fn switch_line(&mut self, action: Action, next: Job) -> (turn: Turn)
        ensures
            switched_then(old(self)@, final(self)@, turn, action, next),
            final(self).pins == old(self).pins,
    {
        match &mut self.swd {
            Some(link) => {
                link.line_reset_and_switch();
                Turn::Ask(action, next)
            },
            None => failure(),
        }
    }

    pub(super) fn resume_attach(&mut self, job: Job, event: Event) -> (turn: Turn)
        ensures
            attach_resumed(old(self)@, job, event, final(self)@, turn),
            final(self).pins == old(self).pins,
    {
        match (job, event) {
            (Job::AttachReset, Event::Level(high)) => {
                if high {
                    Turn::Ask(Action::Reset { held: true, settle_ms: 10 }, Job::AttachHeld)
                } else {
                    self.recover_attach()
                }
            },
            (Job::AttachHeld, Event::Done) => {
                self.reset_held = true;
                Turn::Ask(Action::Reset { held: false, settle_ms: 10 }, Job::AttachFreed)
            },
            (Job::AttachFreed, Event::Done) => {
                self.reset_held = false;
                self.attach_again()
            },
            (Job::UnderHeld, Event::Done) => {
                self.reset_held = true;
                self.switch_line(Action::Reset { held: false, settle_ms: 2 }, Job::UnderFreed)
            },
            (Job::UnderFreed, Event::Done) => {
                self.reset_held = false;
                if self.swd.is_none() {
                    return failure();
                }
                self.finish_attach()
            },
            _ => failure(),
        }
    }

    /// Looks at the lines and asks for the reset line's level.
    fn look_then(&mut self) -> (levels: Option<(bool, bool)>)
        ensures
            match levels {
                None => old(self)@.link is None && final(self)@ == old(self)@,
                Some((swdio, swclk)) => old(self)@.link is Some && job::link_did(
                    old(self)@,
                    final(self)@,
                    bring_up::looked_at(swdio, swclk),
                ),
            },
            final(self).pins == old(self).pins,
    {
        if self.swd.is_none() {
            return None;
        }
        Some(self.look())
    }

    fn test_pads(&mut self) -> (turn: Turn)
        ensures
            match old(self)@.link {
                None => board::no_link(old(self)@, final(self)@, turn),
                Some(_) => turn matches Turn::Ask(
                    Action::Reset { held: false, settle_ms: 0 },
                    Job::PadFreed { levels },
                ) && job::link_did(old(self)@, final(self)@, board::pads_tested(levels)),
            },
            final(self).pins == old(self).pins,
    {
        match &mut self.swd {
            Some(link) => {
                let levels: [bool; 4] = link.pad_self_test();
                Turn::Ask(Action::Reset { held: false, settle_ms: 0 }, Job::PadFreed { levels })
            },
            None => failure(),
        }
    }

    fn drive(&mut self, high: bool) -> (turn: Turn)
        ensures
            match old(self)@.link {
                None => board::no_link(old(self)@, final(self)@, turn),
                Some(_) => exists|seen: bool| #[trigger]
                    drove(old(self)@, final(self)@, turn, high, seen),
            },
            final(self).pins == old(self).pins,
    {
        let ghost before = self@;
        match &mut self.swd {
            Some(link) => {
                let seen: bool = link.diagnostic_drive_swdio(high);
                let mut reply: Vec<u8> = Vec::new();
                reply.push(job::level_byte(seen));
                assert(reply@ =~= seq![job::level(seen)]);
                let turn: Turn = answer(reply);
                assert(drove(before, self@, turn, high, seen));
                turn
            },
            None => failure(),
        }
    }

    pub(super) fn resume_lines(&mut self, job: Job, event: Event) -> (turn: Turn)
        ensures
            lines_resumed(old(self)@, job, event, final(self)@, turn),
            final(self).pins == old(self).pins,
    {
        match (job, event) {
            (Job::PadHeld, Event::Done) => {
                self.reset_held = true;
                self.test_pads()
            },
            (Job::PadFreed { levels }, Event::Done) => {
                self.reset_held = false;
                self.attached = false;
                let mut reply: Vec<u8> = Vec::new();
                reply.push(job::level_byte(levels[0]));
                reply.push(job::level_byte(levels[1]));
                reply.push(job::level_byte(levels[2]));
                reply.push(job::level_byte(levels[3]));
                assert(reply@ =~= board::level_bytes(levels));
                answer(reply)
            },
            (Job::DriveHeld { high }, Event::Done) => {
                self.reset_held = true;
                self.drive(high)
            },
            (Job::LinesReset { swdio, swclk }, Event::Level(reset)) => {
                self.attached = false;
                let mut reply: Vec<u8> = Vec::new();
                reply.push(job::level_byte(swdio));
                reply.push(job::level_byte(swclk));
                reply.push(job::level_byte(reset));
                assert(reply@ =~= seq![job::level(swdio), job::level(swclk), job::level(reset)]);
                answer(reply)
            },
            (Job::BothHeld, Event::Done) => {
                self.reset_held = true;
                let ghost here = self@;
                match self.look_then() {
                    None => failure(),
                    Some((swdio, swclk)) => {
                        let turn: Turn = Turn::Ask(
                            Action::ReadReset,
                            Job::BothHeldReset { swdio, swclk },
                        );
                        assert(looked_then(
                            here,
                            self@,
                            turn,
                            swdio,
                            swclk,
                            Job::BothHeldReset { swdio, swclk },
                        ));
                        turn
                    },
                }
            },
            (Job::BothHeldReset { swdio, swclk }, Event::Level(reset)) => {
                let seen: [bool; 3] = [swdio, swclk, reset];
                assert(seen@ =~= seq![swdio, swclk, reset]);
                Turn::Ask(
                    Action::Reset { held: false, settle_ms: 10 },
                    Job::BothFreed { before: seen },
                )
            },
            (Job::BothFreed { before: seen }, Event::Done) => {
                self.reset_held = false;
                let ghost here = self@;
                match self.look_then() {
                    None => failure(),
                    Some((swdio, swclk)) => {
                        let turn: Turn = Turn::Ask(
                            Action::ReadReset,
                            Job::BothFreedReset { before: seen, swdio, swclk },
                        );
                        assert(looked_then(
                            here,
                            self@,
                            turn,
                            swdio,
                            swclk,
                            Job::BothFreedReset { before: seen, swdio, swclk },
                        ));
                        turn
                    },
                }
            },
            (Job::BothFreedReset { before: seen, swdio, swclk }, Event::Level(reset)) => {
                self.attached = false;
                let mut reply: Vec<u8> = Vec::new();
                reply.push(job::level_byte(seen[0]));
                reply.push(job::level_byte(seen[1]));
                reply.push(job::level_byte(seen[2]));
                reply.push(job::level_byte(swdio));
                reply.push(job::level_byte(swclk));
                reply.push(job::level_byte(reset));
                assert(reply@ =~= seq![
                    job::level(seen@[0]),
                    job::level(seen@[1]),
                    job::level(seen@[2]),
                    job::level(swdio),
                    job::level(swclk),
                    job::level(reset),
                ]);
                answer(reply)
            },
            (Job::ResetMoved { held }, Event::Done) => {
                self.reset_held = held;
                Turn::Ask(Action::ReadReset, Job::ResetRead)
            },
            (Job::ResetRead, Event::Level(reset)) => {
                let mut reply: Vec<u8> = Vec::new();
                reply.push(job::level_byte(reset));
                assert(reply@ =~= seq![job::level(reset)]);
                answer(reply)
            },
            _ => failure(),
        }
    }

    /// The end of a recovery probe.
    fn clear_probe(&mut self, done: bool, identity: Result<(u32, u32), Error>) -> (turn: Turn)
        ensures
            job::let_go(
                HubState {
                    attached: false,
                    reset_held: old(self)@.reset_held && !done,
                    ..old(self)@
                },
                final(self)@,
            ),
            board::probe_reply(turn, identity),
            final(self).pins == old(self).pins,
    {
        if done {
            self.reset_held = false;
        }
        self.attached = false;
        self.let_go();
        match identity {
            Ok((dp_id, device_id)) => {
                let mut reply: Vec<u8> = Vec::new();
                bytes::push_le32(&mut reply, dp_id);
                bytes::push_le32(&mut reply, device_id);
                assert(reply@ =~= bytes::le32(dp_id) + bytes::le32(device_id));
                answer(reply)
            },
            Err(error) => Turn::Answer(Err(error)),
        }
    }

    fn abandon_probe(&self) -> (turn: Turn)
        ensures
            job::asked(
                turn,
                Action::Reset { held: false, settle_ms: 0 },
                Job::ProbeCleared { identity: Err(Error::Protocol(0)) },
            ),
    {
        Turn::Ask(
            Action::Reset { held: false, settle_ms: 0 },
            Job::ProbeCleared { identity: Err(Error::Protocol(0)) },
        )
    }

    fn abandon_mux(&mut self) -> (turn: Turn)
        ensures
            mux_abandoned(old(self)@, final(self)@, turn),
            final(self).pins == old(self).pins,
    {
        self.let_go();
        Turn::Ask(
            Action::Select { target: Target::Stm32, settle_ms: 0 },
            Job::MuxBack { reply: Err(Error::Protocol(0)) },
        )
    }

    pub(super) fn resume_probe(&mut self, job: Job, event: Event) -> (turn: Turn)
        ensures
            probe_resumed(old(self)@, job, event, final(self)@, turn),
            final(self).pins == old(self).pins,
    {
        let done: bool = match &event {
            Event::Done => true,
            _ => false,
        };
        match job {
            Job::ProbeHeld { delay_us } if done => {
                self.reset_held = true;
                if self.swd.is_none() {
                    return self.abandon_probe();
                }
                self.switch_line(
                    Action::Reset { held: false, settle_ms: 0 },
                    Job::ProbeFreed { delay_us },
                )
            },
            Job::ProbeFreed { delay_us } if done => {
                self.reset_held = false;
                Turn::Ask(Action::DelayUs { delay_us }, Job::ProbeDelayed)
            },
            Job::ProbeDelayed if done => {
                if self.swd.is_none() {
                    return self.abandon_probe();
                }
                self.probe_target()
            },
            Job::ProbeCleared { identity } => self.clear_probe(done, identity),
            Job::MuxMoved { target } => {
                if done {
                    Turn::Ask(Action::ReadSelectors, Job::MuxRead { target })
                } else {
                    self.abandon_mux()
                }
            },
            Job::MuxRead { target } => match event {
                Event::Levels(s0, s1) => {
                    if self.swd.is_none() {
                        return self.abandon_mux();
                    }
                    self.probe_position(target, s0, s1)
                },
                _ => self.abandon_mux(),
            },
            Job::MuxBack { reply } => {
                self.selected = Target::Stm32;
                self.attached = false;
                match reply {
                    Err(error) => Turn::Answer(Err(error)),
                    Ok(bytes) => {
                        if done {
                            let copy: Vec<u8> = vstd::slice::slice_to_vec(bytes.as_slice());
                            assert(copy@ =~= bytes@);
                            answer(copy)
                        } else {
                            failure()
                        }
                    },
                }
            },
            _ => self.abandon_probe(),
        }
    }

    pub(super) fn resume_engine(&mut self, job: Job, event: Event) -> (turn: Turn)
        ensures
            engine_resumed(old(self)@, job, event, final(self)@, turn),
            final(self).pins == old(self).pins,
    {
        match (job, event) {
            (Job::Speed, Event::Number(clock_hz)) => answer_word(clock_hz),
            (Job::Looped, Event::Field(seen)) => {
                self.attached = false;
                let mut reply: Vec<u8> = Vec::new();
                bytes::push_le64(&mut reply, seen);
                assert(reply@ =~= bytes::le64(seen));
                answer(reply)
            },
            (Job::EngineSet, Event::Number(clock_hz)) => {
                self.attached = false;
                answer_word(clock_hz)
            },
            (Job::PinMapSet { choice }, Event::Done) => {
                self.attached = false;
                let mut reply: Vec<u8> = Vec::new();
                reply.push(choice);
                assert(reply@ =~= seq![choice]);
                answer(reply)
            },
            (Job::ClockRead, Event::Number(clock_hz)) => {
                let mut reply: Vec<u8> = Vec::new();
                bytes::push_le32(&mut reply, MAX_BLOCK_WORDS as u32);
                bytes::push_le32(&mut reply, clock_hz);
                assert(reply@ =~= bytes::le32(MAX_BLOCK_WORDS as u32) + bytes::le32(clock_hz));
                answer(reply)
            },
            _ => failure(),
        }
    }

    fn leave_display(&self, taken: Result<u32, Error>) -> (turn: Turn)
        ensures
            display_left(turn, taken),
    {
        Turn::Ask(
            Action::Uart(Serial::Transmit { driven: false }),
            Job::DisplayBack { taken },
        )
    }

    pub(super) fn resume_power(&mut self, job: Job, event: Event) -> (turn: Turn)
        ensures
            power_resumed(old(self)@, job, event, final(self)@, turn),
            final(self).pins == old(self).pins,
    {
        match (job, event) {
            (Job::PowerReset { goal }, Event::Level(high)) => {
                if high {
                    Turn::Ask(Action::Reset { held: true, settle_ms: 10 }, Job::PowerHeld { goal })
                } else {
                    Turn::Answer(Err(Error::LineHeldLow))
                }
            },
            (Job::PowerHeld { goal }, Event::Done) => {
                self.reset_held = true;
                Turn::Ask(Action::Reset { held: false, settle_ms: 10 }, Job::PowerFreed { goal })
            },
            (Job::PowerFreed { goal }, Event::Done) => {
                self.reset_held = false;
                if self.swd.is_none() {
                    return failure();
                }
                self.check_power(goal, true)
            },
            (Job::Moved { target }, Event::Done) => {
                self.selected = target;
                self.attached = false;
                let reply: Vec<u8> = Vec::new();
                assert(reply@ =~= Seq::empty());
                answer(reply)
            },
            (Job::DisplayDriven, Event::Done) => Turn::Ask(
                Action::Uart(Serial::WriteFrame),
                Job::DisplayWritten,
            ),
            (Job::DisplayWritten, Event::Number(written)) => Turn::Ask(
                Action::Uart(Serial::Drain { ticks: SHORT_WAIT }),
                Job::DisplayDrained { written },
            ),
            (Job::DisplayWritten, _) => self.leave_display(Err(Error::Protocol(0))),
            (Job::DisplayDrained { written }, Event::Done) => self.leave_display(Ok(written)),
            (Job::DisplayDrained { .. }, _) => self.leave_display(Err(Error::Protocol(0))),
            (Job::DisplayBack { taken }, Event::Done) => match taken {
                Ok(written) => answer_word(written),
                Err(error) => Turn::Answer(Err(error)),
            },
            (Job::PulseRead, Event::Level(high)) => {
                if high {
                    Turn::Ask(Action::Reset { held: true, settle_ms: 10 }, Job::PulseHeld)
                } else {
                    Turn::Answer(Err(Error::LineHeldLow))
                }
            },
            (Job::PulseHeld, Event::Done) => {
                self.reset_held = true;
                Turn::Ask(Action::Reset { held: false, settle_ms: 10 }, Job::PulseFreed)
            },
            (Job::PulseFreed, Event::Done) => {
                self.reset_held = false;
                let reply: Vec<u8> = Vec::new();
                assert(reply@ =~= Seq::empty());
                answer(reply)
            },
            _ => failure(),
        }
    }
}

} // verus!
