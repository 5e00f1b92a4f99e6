//! The commands that move the board: attaching, resetting, and the tests that
//! need both.

use super::job::{self, Action, HubState, Job, Then, Turn};
use super::request::{Target, RECOVERY_CYCLES};
use super::Hub;
use crate::bytes;
use crate::stm32g0::{self, Stm32G030};
use crate::swd::bring_up;
use crate::swd::link::{self, LinkView, Step};
use crate::swd::memory::Access;
use crate::swd::probe;
use crate::swd::{Error, PadOp, SwdIo, SwdLink};
use vstd::prelude::*;

verus! {

/// The state once the multiplexer is in its passive position.
pub open spec fn passive(state: HubState) -> HubState {
    HubState { selected: Target::Stm32, attached: false, ..state }
}

/// The state once the reset line is held, or let go of.
pub open spec fn with_reset(state: HubState, held: bool) -> HubState {
    HubState { reset_held: held, ..state }
}

/// A missing link: the command fails and nothing happens.
pub open spec fn no_link(before: HubState, after: HubState, turn: Turn) -> bool {
    after == before && job::refused(turn, Error::Protocol(0))
}

/// The end of an attach, after `earlier` steps: the line is reset and switched.
pub open spec fn attached_after(
    before: HubState,
    after: HubState,
    turn: Turn,
    earlier: Seq<Step>,
) -> bool {
    &&& job::link_did(
        HubState { attached: true, ..before },
        after,
        earlier + bring_up::switch_to_swd(),
    )
    &&& job::replied(turn, Seq::empty())
}

/// An attach that finds SWDIO low, after `earlier` steps: a target still
/// clocking out an abandoned data phase looks identical to an unpowered one, so
/// it is given the clocks it is waiting for before it is refused.
pub open spec fn recovered_after(
    before: HubState,
    after: HubState,
    turn: Turn,
    earlier: Seq<Step>,
    seen: Seq<bool>,
    swdio: bool,
    swclk: bool,
) -> bool {
    let steps = earlier + job::recovering(seen, swdio, swclk);
    &&& seen.len() == RECOVERY_CYCLES
    &&& if swdio {
        attached_after(before, after, turn, steps)
    } else {
        job::link_did(before, after, steps) && job::refused(turn, Error::LineHeldLow)
    }
}

/// The first look of an attach.
pub open spec fn attach_saw(
    before: HubState,
    after: HubState,
    turn: Turn,
    swdio: bool,
    swclk: bool,
) -> bool {
    if swdio {
        attached_after(before, after, turn, bring_up::looked_at(swdio, swclk))
    } else {
        job::link_did(before, after, bring_up::looked_at(swdio, swclk)) && job::asked(
            turn,
            Action::ReadReset,
            Job::AttachReset,
        )
    }
}

/// The look of an attach after the target was reset.
pub open spec fn attach_saw_again(
    before: HubState,
    after: HubState,
    turn: Turn,
    swdio: bool,
    swclk: bool,
) -> bool {
    let looked = bring_up::looked_at(swdio, swclk);
    if swdio {
        attached_after(before, after, turn, looked)
    } else {
        exists|seen: Seq<bool>, data: bool, clock: bool| #[trigger]
            recovered_after(before, after, turn, looked, seen, data, clock)
    }
}

/// The levels that a pad test replies with.
pub open spec fn level_bytes(levels: [bool; 4]) -> Seq<u8> {
    seq![
        job::level(levels@[0]),
        job::level(levels@[1]),
        job::level(levels@[2]),
        job::level(levels@[3]),
    ]
}

/// What a pad test does.
pub open spec fn pads_tested(levels: [bool; 4]) -> Seq<Step> {
    seq![
        Step::Pads(probe::pad_test((levels@[0], levels@[2]), (levels@[1], levels@[3]))),
        Step::Pads(seq![PadOp::Release]),
    ]
}

/// How a debugger's error looks to the host.
pub open spec fn transport_error(error: stm32g0::Error) -> Error {
    match error {
        stm32g0::Error::Transport(error) => error,
        _ => Error::Protocol(0),
    }
}

fn to_transport(error: stm32g0::Error) -> (mapped: Error)
    ensures
        mapped == transport_error(error),
{
    match error {
        stm32g0::Error::Transport(error) => error,
        _ => Error::Protocol(0),
    }
}

/// A device halted, identified and let run again.
pub open spec fn examined_of(accesses: Seq<Access>) -> stm32g0::Ran<u32> {
    match stm32g0::halt_of(accesses) {
        None => None,
        Some((Err(error), rest)) => Some((Err(error), rest)),
        Some((Ok(_), rest)) => match stm32g0::identify_of(rest) {
            None => None,
            Some((Err(error), rest)) => Some((Err(error), rest)),
            Some((Ok(idcode), rest)) => match stm32g0::reset_of(rest) {
                None => None,
                Some((Err(error), rest)) => Some((Err(error), rest)),
                Some((Ok(_), rest)) => Some((Ok(idcode), rest)),
            },
        },
    }
}

/// A recovery probe's work on the wire: the port brought up on a line that is
/// ready, giving `middle`, and the device examined through it by accesses to
/// its memory alone.
pub open spec fn probed(
    before: LinkView,
    middle: LinkView,
    after: LinkView,
    outcome: Result<(u32, u32), Error>,
) -> bool {
    &&& middle.went_on(before)
    &&& match bring_up::bring_up(middle.since(before)) {
        Some(Err(error)) => after == middle && outcome == Err::<(u32, u32), Error>(error),
        Some(Ok(dp_id)) => {
            let accesses = after.accesses.skip(middle.accesses.len() as int);
            &&& after.accesses == middle.accesses + accesses
            &&& after.apart == middle.apart
            &&& after.untold() == middle.untold()
            &&& after.framing == middle.framing
            &&& match examined_of(accesses) {
                Some((Ok(device_id), rest)) => rest.len() == 0 && outcome == Ok::<
                    (u32, u32),
                    Error,
                >((dp_id, device_id)),
                Some((Err(error), rest)) => rest.len() == 0 && outcome == Err::<
                    (u32, u32),
                    Error,
                >(transport_error(error)),
                None => false,
            }
        },
        None => false,
    }
}

/// The account of the wire once the target was examined, and what is asked for
/// next: reset is let go of on every path.
pub open spec fn probe_ran(before: HubState, after: HubState, turn: Turn, middle: LinkView) -> bool {
    &&& after == (HubState { link: after.link, ..before })
    &&& before.link is Some
    &&& after.link is Some
    &&& turn matches Turn::Ask(
        Action::Reset { held: false, settle_ms: 0 },
        Job::ProbeCleared { identity },
    ) && probed(before.link->0, middle, after.link->0, identity)
}

/// The reply to a recovery probe.
pub open spec fn probe_reply(turn: Turn, outcome: Result<(u32, u32), Error>) -> bool {
    match outcome {
        Ok((dp_id, device_id)) => job::replied(
            turn,
            bytes::le32(dp_id) + bytes::le32(device_id),
        ),
        Err(error) => job::refused(turn, error),
    }
}

/// Examines the device behind a link that is brought up.
fn examine<I: SwdIo>(link: &mut SwdLink<I>) -> (result: Result<u32, Error>)
    ensures
        ({
            let accesses = final(link)@.accesses.skip(old(link)@.accesses.len() as int);
            &&& final(link)@.accesses == old(link)@.accesses + accesses
            &&& final(link)@.apart == old(link)@.apart
            &&& final(link)@.untold() == old(link)@.untold()
            &&& match examined_of(accesses) {
                Some((Ok(device_id), rest)) => rest.len() == 0 && result == Ok::<u32, Error>(
                    device_id,
                ),
                Some((Err(error), rest)) => rest.len() == 0 && result == Err::<u32, Error>(
                    transport_error(error),
                ),
                None => false,
            }
        }),
{
    let ghost start = link@.accesses;
    let mut target = Stm32G030::new(link);
    assert(target.accesses() == start);
    let halted: Result<(), stm32g0::Error> = target.halt();
    let ghost one = target.accesses();
    let ghost a = target.since(start);
    proof {
        assert(a + Seq::empty() =~= a);
    }
    if let Err(error) = halted {
        return Err(to_transport(error));
    }
    let identified: Result<u32, stm32g0::Error> = target.identify();
    let ghost two = target.accesses();
    let ghost b = target.since(one);
    proof {
        assert(two =~= start + (a + b));
        assert(two.skip(start.len() as int) =~= a + b);
        assert(b + Seq::empty() =~= b);
        assert(stm32g0::halt_of(a + b) == Some((halted, b)));
        assert(stm32g0::identify_of(b) == Some((identified, Seq::<Access>::empty())));
    }
    let idcode: u32 = match identified {
        Ok(idcode) => idcode,
        Err(error) => return Err(to_transport(error)),
    };
    let reset: Result<(), stm32g0::Error> = target.reset();
    proof {
        let three = target.accesses();
        let c = target.since(two);
        assert(three =~= start + (a + (b + c)));
        assert(three.skip(start.len() as int) =~= a + (b + c));
        assert(c + Seq::empty() =~= c);
        assert(stm32g0::halt_of(a + (b + c)) == Some((halted, b + c)));
        assert(stm32g0::identify_of(b + c) == Some((identified, c)));
        assert(stm32g0::reset_of(c) == Some((reset, Seq::<Access>::empty())));
    }
    match reset {
        Ok(_) => Ok(idcode),
        Err(error) => Err(to_transport(error)),
    }
}

impl<I: SwdIo> Hub<I> {
    /// Lets go of both lines, where there is a link.
    pub(super) fn let_go(&mut self)
        ensures
            job::let_go(old(self)@, final(self)@),
            final(self).pins == old(self).pins,
    {
        match &mut self.swd {
            Some(link) => link.disconnect(),
            None => {},
        }
    }

    /// Puts the multiplexer in its passive position before anything else.
    pub(super) fn start_passive(&mut self, then: Then) -> (turn: Turn)
        ensures
            job::let_go(old(self)@, final(self)@),
            final(self).pins == old(self).pins,
            job::asked(
                turn,
                Action::Select { target: Target::Stm32, settle_ms: 5 },
                Job::Passive(then),
            ),
    {
        self.let_go();
        Turn::Ask(Action::Select { target: Target::Stm32, settle_ms: 5 }, Job::Passive(then))
    }

    /// Resets the line, switches it to SWD, and is attached.
    pub(super) fn finish_attach(&mut self) -> (turn: Turn)
        requires
            old(self)@.link is Some,
        ensures
            attached_after(old(self)@, final(self)@, turn, Seq::empty()),
            final(self).pins == old(self).pins,
    {
        match &mut self.swd {
            Some(link) => {
                link.line_reset_and_switch();
            },
            None => {},
        }
        self.attached = true;
        let reply: Vec<u8> = Vec::new();
        assert(reply@ =~= Seq::empty());
        assert(Seq::<Step>::empty() + bring_up::switch_to_swd() =~= bring_up::switch_to_swd());
        Turn::Answer(Ok(reply))
    }

    /// Looks at the lines with nothing here driving them.
    pub(super) fn look(&mut self) -> (levels: (bool, bool))
        requires
            old(self)@.link is Some,
        ensures
            job::link_did(
                old(self)@,
                final(self)@,
                bring_up::looked_at(levels.0, levels.1),
            ),
            final(self).pins == old(self).pins,
    {
        match &mut self.swd {
            Some(link) => link.released_line_state(),
            None => (false, false),
        }
    }

    /// Clocks a parked target free.
    pub(super) fn clock_free(&mut self, cycles: u16) -> (levels: (bool, bool))
        requires
            old(self)@.link is Some,
        ensures
            exists|seen: Seq<bool>|
                seen.len() == cycles && #[trigger] job::link_did(
                    old(self)@,
                    final(self)@,
                    job::recovering(seen, levels.0, levels.1),
                ),
            final(self).pins == old(self).pins,
    {
        let ghost mut seen: Seq<bool> = Seq::empty();
        let levels: (bool, bool) = match &mut self.swd {
            Some(link) => {
                let ghost before = link@;
                let levels: (bool, bool) = link.recover_line(cycles);
                proof {
                    seen = choose|seen: Seq<bool>|
                        {
                            &&& seen.len() == cycles
                            &&& link@.since(before) == seq![
                                Step::Pads(seq![PadOp::Release]),
                                #[trigger] probe::recovery_clocks(seen),
                            ] + bring_up::looked_at(levels.0, levels.1)
                        };
                }
                levels
            },
            None => (false, false),
        };
        assert(job::link_did(old(self)@, self@, job::recovering(seen, levels.0, levels.1)));
        levels
    }

    /// An attach, once the multiplexer is passive.
    pub(super) fn attach(&mut self) -> (turn: Turn)
        ensures
            match old(self)@.link {
                None => no_link(old(self)@, final(self)@, turn),
                Some(_) => exists|swdio: bool, swclk: bool| #[trigger]
                    attach_saw(old(self)@, final(self)@, turn, swdio, swclk),
            },
            final(self).pins == old(self).pins,
    {
        if self.swd.is_none() {
            return Turn::Answer(Err(Error::Protocol(0)));
        }
        let (swdio, swclk): (bool, bool) = self.look();
        let ghost looked = self@;
        let turn: Turn = if swdio {
            let turn: Turn = self.finish_attach();
            proof {
                lemma_attached(old(self)@, looked, self@, turn, bring_up::looked_at(swdio, swclk));
            }
            turn
        } else {
            Turn::Ask(Action::ReadReset, Job::AttachReset)
        };
        assert(attach_saw(old(self)@, self@, turn, swdio, swclk));
        turn
    }

    /// An attach that found SWDIO low and can do nothing more about reset.
    pub(super) fn recover_attach(&mut self) -> (turn: Turn)
        ensures
            match old(self)@.link {
                None => no_link(old(self)@, final(self)@, turn),
                Some(_) => exists|seen: Seq<bool>, swdio: bool, swclk: bool| #[trigger]
                    recovered_after(
                        old(self)@,
                        final(self)@,
                        turn,
                        Seq::empty(),
                        seen,
                        swdio,
                        swclk,
                    ),
            },
            final(self).pins == old(self).pins,
    {
        if self.swd.is_none() {
            return Turn::Answer(Err(Error::Protocol(0)));
        }
        let (swdio, swclk): (bool, bool) = self.clock_free(RECOVERY_CYCLES);
        let ghost clocked = self@;
        let ghost seen = choose|seen: Seq<bool>|
            seen.len() == RECOVERY_CYCLES && #[trigger] job::link_did(
                old(self)@,
                clocked,
                job::recovering(seen, swdio, swclk),
            );
        let ghost steps = job::recovering(seen, swdio, swclk);
        let turn: Turn = if swdio {
            let turn: Turn = self.finish_attach();
            proof {
                lemma_attached(old(self)@, clocked, self@, turn, steps);
            }
            turn
        } else {
            Turn::Answer(Err(Error::LineHeldLow))
        };
        proof {
            assert(Seq::<Step>::empty() + steps =~= steps);
            assert(recovered_after(old(self)@, self@, turn, Seq::empty(), seen, swdio, swclk));
        }
        turn
    }

    /// An attach, once the target was reset.
    pub(super) fn attach_again(&mut self) -> (turn: Turn)
        ensures
            match old(self)@.link {
                None => no_link(old(self)@, final(self)@, turn),
                Some(_) => exists|swdio: bool, swclk: bool| #[trigger]
                    attach_saw_again(old(self)@, final(self)@, turn, swdio, swclk),
            },
            final(self).pins == old(self).pins,
    {
        if self.swd.is_none() {
            return Turn::Answer(Err(Error::Protocol(0)));
        }
        let (swdio, swclk): (bool, bool) = self.look();
        let ghost looked = self@;
        let ghost earlier = bring_up::looked_at(swdio, swclk);
        let turn: Turn = if swdio {
            let turn: Turn = self.finish_attach();
            proof {
                lemma_attached(old(self)@, looked, self@, turn, earlier);
            }
            turn
        } else {
            let turn: Turn = self.recover_attach();
            proof {
                let (seen, data, clock) = choose|seen: Seq<bool>, data: bool, clock: bool| #[trigger]
                    recovered_after(looked, self@, turn, Seq::empty(), seen, data, clock);
                lemma_recovered(old(self)@, looked, self@, turn, earlier, seen, data, clock);
            }
            turn
        };
        assert(attach_saw_again(old(self)@, self@, turn, swdio, swclk));
        turn
    }

    /// The port brought up and the device examined, once reset is let go of.
    pub(super) fn probe_target(&mut self) -> (turn: Turn)
        requires
            old(self)@.link is Some,
        ensures
            exists|middle: LinkView| #[trigger] probe_ran(old(self)@, final(self)@, turn, middle),
            final(self).pins == old(self).pins,
    {
        let ghost before = self@;
        let ghost mut middle: LinkView = before.link->0;
        let outcome: Result<(u32, u32), Error> = match &mut self.swd {
            Some(link) => {
                let brought_up: Result<u32, Error> = link.initialize_prepared();
                proof {
                    middle = link@;
                    link.lemma_framing();
                }
                let outcome: Result<(u32, u32), Error> = match brought_up {
                    Ok(dp_id) => match examine(link) {
                        Ok(device_id) => Ok((dp_id, device_id)),
                        Err(error) => Err(error),
                    },
                    Err(error) => Err(error),
                };
                proof {
                    link.lemma_framing();
                }
                outcome
            },
            None => Err(Error::Protocol(0)),
        };
        let turn: Turn = Turn::Ask(
            Action::Reset { held: false, settle_ms: 0 },
            Job::ProbeCleared { identity: outcome },
        );
        assert(probed(before.link->0, middle, self@.link->0, outcome));
        assert(probe_ran(before, self@, turn, middle));
        turn
    }
}

/// What was done earlier and the end of an attach are one attach.
proof fn lemma_attached(
    before: HubState,
    middle: HubState,
    after: HubState,
    turn: Turn,
    earlier: Seq<Step>,
)
    requires
        job::link_did(before, middle, earlier),
        attached_after(middle, after, turn, Seq::empty()),
    ensures
        attached_after(before, after, turn, earlier),
{
    let switch = bring_up::switch_to_swd();
    assert(Seq::<Step>::empty() + switch =~= switch);
    link::lemma_did_both(
        before.link->0,
        middle.link->0,
        after.link->0,
        earlier,
        switch,
    );
}

/// What was done earlier and a recovery are one recovery.
proof fn lemma_recovered(
    before: HubState,
    middle: HubState,
    after: HubState,
    turn: Turn,
    earlier: Seq<Step>,
    seen: Seq<bool>,
    swdio: bool,
    swclk: bool,
)
    requires
        job::link_did(before, middle, earlier),
        recovered_after(middle, after, turn, Seq::empty(), seen, swdio, swclk),
    ensures
        recovered_after(before, after, turn, earlier, seen, swdio, swclk),
{
    let recovery = job::recovering(seen, swdio, swclk);
    let switch = bring_up::switch_to_swd();
    assert(Seq::<Step>::empty() + recovery =~= recovery);
    if swdio {
        assert(earlier + recovery + switch =~= earlier + (recovery + switch));
        link::lemma_did_both(
            before.link->0,
            middle.link->0,
            after.link->0,
            earlier,
            recovery + switch,
        );
    } else {
        link::lemma_did_both(
            before.link->0,
            middle.link->0,
            after.link->0,
            earlier,
            recovery,
        );
    }
}

} // verus!
