//! The commands that the wire alone answers, and the probes of it.

use super::board;
use super::job::{self, Action, HubState, Job, Turn};
use super::request::{Target, WireTest};
use super::Hub;
use crate::bytes;
use crate::frame::MAX_BLOCK_WORDS;
use crate::swd::bring_up;
use crate::swd::io::Framing;
use crate::swd::link::LinkView;
use crate::swd::memory;
use crate::swd::probe;
use crate::swd::registers;
use crate::swd::wire;
use crate::swd::{Error, SwdIo, WordMemory, MAX_BURST_BITS};
use vstd::prelude::*;

verus! {

/// What an undecoded probe does, and the two fields it sees.
pub open spec fn wire_ran(
    before: LinkView,
    after: LinkView,
    test: WireTest,
    first: u64,
    second: u64,
) -> bool {
    let steps = after.since(before);
    &&& after.went_on(before)
    &&& after.selected is None
    &&& !after.csw
    &&& match test {
        WireTest::Whole => {
            &&& steps.len() == 5
            &&& steps.take(4) == bring_up::switch_to_swd()
            &&& exists|turn: Seq<bool>| #[trigger]
                probe::wire_probed(before.framing, steps[4], false, (first, second), turn)
            &&& first < 0x1_0000_0000_0000 && second == 0
        },
        WireTest::Split => {
            &&& steps.len() == 5
            &&& steps.take(4) == bring_up::switch_to_swd()
            &&& exists|turn: Seq<bool>| #[trigger]
                probe::wire_probed(before.framing, steps[4], true, (first, second), turn)
            &&& first < 8 && second < 0x2_0000_0000
        },
        WireTest::Handover { after_read, before_write } => exists|
            one: u8,
            two: u8,
            three: u8,
            status: u32,
        |
            #[trigger] handed_over(
                before.framing,
                steps,
                after_read,
                before_write,
                one,
                two,
                three,
                status,
            )
                && first == one + 256 * two + 65536 * three && second == status,
    }
}

/// What a handover probe does, and the three acknowledgements and the word it
/// sees.
pub open spec fn handed_over(
    framing: Framing,
    steps: Seq<crate::swd::link::Step>,
    after_read: u8,
    before_write: u8,
    one: u8,
    two: u8,
    three: u8,
    status: u32,
) -> bool {
    &&& steps.len() == 7
    &&& steps.take(4) == bring_up::switch_to_swd()
    &&& probe::handover_acked(framing, steps[4], wire::DP_IDCODE, after_read, one)
    &&& probe::handover_write(
        framing,
        steps[5],
        wire::DP_CTRL_STAT_WRITE,
        wire::POWER_REQUEST,
        before_write,
        two,
    )
    &&& probe::handover_read(framing, steps[6], wire::DP_CTRL_STAT_READ, after_read, three, status)
}

/// A whole undecoded probe: the link is let go of afterwards.
pub open spec fn wire_done(
    before: HubState,
    after: HubState,
    turn: Turn,
    test: WireTest,
    middle: LinkView,
    first: u64,
    second: u64,
) -> bool {
    &&& after == (HubState { link: after.link, attached: false, ..before })
    &&& before.link is Some
    &&& after.link is Some
    &&& wire_ran(before.link->0, middle, test, first, second)
    &&& job::did_afresh(middle, after.link->0, job::letting_go())
    &&& job::replied(turn, bytes::le64(first) + bytes::le64(second))
}

/// The clocks that stand for a boundary, where the host sets them.
pub open spec fn boundary(clocks: Option<(u8, u8)>, after_read: bool) -> Option<u8> {
    match clocks {
        Some((after, before)) => Some(
            if after_read {
                after
            } else {
                before
            },
        ),
        None => None,
    }
}

/// A whole access port write probe.
pub open spec fn write_probe_done(
    before: HubState,
    after: HubState,
    turn: Turn,
    value: u32,
    clocks: Option<(u8, u8)>,
    middle: LinkView,
    got: (u8, u8, u32, u32),
) -> bool {
    &&& after == (HubState { link: after.link, attached: false, ..before })
    &&& before.link is Some
    &&& after.link is Some
    &&& middle.went_on(before.link->0)
    &&& probe::ap_write_probed(
        before.link->0.framing,
        middle.since(before.link->0),
        value,
        boundary(clocks, true),
        boundary(clocks, false),
        got,
    )
    &&& job::did_afresh(middle, after.link->0, job::letting_go())
    &&& job::replied(turn, seq![got.0, got.1] + bytes::le32(got.2) + bytes::le32(got.3))
}

/// The reply where a transfer settles it.
pub open spec fn settled(turn: Turn, outcome: Result<(), Error>, reply: Seq<u8>) -> bool {
    match outcome {
        Ok(_) => job::replied(turn, reply),
        Err(error) => job::refused(turn, error),
    }
}

/// A link that only made transfers.
pub open spec fn transferred(before: HubState, after: HubState) -> bool {
    &&& after == (HubState { link: after.link, ..before })
    &&& before.link is Some
    &&& after.link is Some
    &&& after.link->0.selected == before.link->0.selected
    &&& after.link->0.csw == before.link->0.csw
    &&& after.link->0.went_on(before.link->0)
}

/// The steps between two states of the link.
pub open spec fn steps_between(before: HubState, after: HubState) -> Seq<crate::swd::link::Step> {
    after.link->0.since(before.link->0)
}

/// A register read.
pub open spec fn register_read(
    before: HubState,
    after: HubState,
    turn: Turn,
    access_port: bool,
    register: u8,
) -> bool {
    let steps = steps_between(before, after);
    &&& transferred(before, after)
    &&& if !registers::is_register(register) {
        steps.len() == 0 && job::refused(turn, Error::Protocol(register))
    } else {
        &&& registers::ran(steps, registers::block_read_program(access_port, register, 1))
        &&& match registers::failure(steps) {
            Some(error) => job::refused(turn, error),
            None => job::replied(
                turn,
                bytes::le32(
                    registers::word_at(steps, registers::block_read_place(access_port, 0)),
                ),
            ),
        }
    }
}

/// A block of register reads, and the words they brought.
pub open spec fn register_block_read(
    before: HubState,
    after: HubState,
    turn: Turn,
    access_port: bool,
    register: u8,
    count: nat,
    words: Seq<u32>,
) -> bool {
    let steps = steps_between(before, after);
    &&& transferred(before, after)
    &&& words.len() == count
    &&& if !registers::is_register(register) {
        steps.len() == 0 && job::refused(turn, Error::Protocol(register))
    } else {
        &&& registers::ran(steps, registers::block_read_program(access_port, register, count))
        &&& match registers::failure(steps) {
            Some(error) => job::refused(turn, error),
            None => {
                &&& forall|i: int|
                    0 <= i < count ==> #[trigger] words[i] == (if registers::done(
                        steps,
                        registers::block_read_place(access_port, i),
                    ) {
                        registers::word_at(steps, registers::block_read_place(access_port, i))
                    } else {
                        0
                    })
                &&& job::replied(turn, bytes::words_le(words))
            },
        }
    }
}

/// A block of register writes.
pub open spec fn register_block_written(
    before: HubState,
    after: HubState,
    turn: Turn,
    access_port: bool,
    register: u8,
    words: Seq<u32>,
) -> bool {
    let steps = steps_between(before, after);
    &&& transferred(before, after)
    &&& if !registers::is_register(register) {
        steps.len() == 0 && job::refused(turn, Error::Protocol(register))
    } else {
        &&& registers::ran(steps, registers::block_write_program(access_port, register, words))
        &&& match registers::failure(steps) {
            Some(error) => job::refused(turn, error),
            None => job::replied(turn, Seq::empty()),
        }
    }
}

/// A block of memory read, the words it brought, and how it went.
pub open spec fn memory_read(
    before: HubState,
    after: HubState,
    address: u32,
    count: nat,
    words: Seq<u32>,
    result: Result<(), Error>,
) -> bool {
    &&& after == (HubState { link: after.link, ..before })
    &&& before.link is Some
    &&& after.link is Some
    &&& words.len() == count
    &&& memory::block_read(
        before.link->0,
        after.link->0,
        address,
        Seq::new(count, |i: int| 0u32),
        words,
        result,
    )
    &&& after.link->0.accesses == before.link->0.accesses.push(
        memory::Access::ReadBlock(address, words, result),
    )
}

/// The byte that tells how a probe of a target went.
pub open spec fn probe_status(result: Result<u32, Error>) -> u8 {
    match result {
        Ok(_) => 1,
        Err(Error::Protocol(ack)) => 0x80u8 | ack,
        Err(Error::LineHeldLow) => 2,
        Err(Error::InvalidDpId) => 3,
        Err(Error::PowerTimeout) => 4,
        Err(Error::WaitTimeout) => 5,
        Err(Error::Fault) => 6,
        Err(Error::Parity) => 7,
        Err(Error::Unaligned) => 8,
    }
}

/// What a probe of one position replies: the lines, how it went, the port's
/// identification, and what both selectors read.
pub open spec fn mux_reply(
    swdio: bool,
    swclk: bool,
    status: u8,
    dp_id: u32,
    s0: bool,
    s1: bool,
) -> Seq<u8> {
    seq![job::level(swdio), job::level(swclk), status] + bytes::le32(dp_id) + seq![
        job::level(s0),
        job::level(s1),
    ]
}

/// The probe of one position: the lines are looked at, and only where SWDIO is
/// high is the port brought up.
pub open spec fn position_probed(
    before: LinkView,
    after: LinkView,
    target: Target,
    swdio: bool,
    swclk: bool,
    status: u8,
    dp_id: u32,
    looked: LinkView,
) -> bool {
    &&& job::did_afresh(before, looked, bring_up::looked_at(swdio, swclk))
    &&& if target == Target::Gps {
        after == looked && status == 9 && dp_id == 0
    } else if !swdio {
        after == looked && status == 2 && dp_id == 0
    } else {
        &&& after.went_on(looked)
        &&& exists|result: Result<u32, Error>, data: bool, clock: bool|
            {
                &&& #[trigger] bring_up::initialized(after.since(looked), data, clock, result)
                &&& status == probe_status(result)
                &&& dp_id == (match result {
                    Ok(id) => id,
                    Err(_) => 0,
                })
            }
    }
}

/// A probe of one position: whatever it found, the link is let go of and the
/// multiplexer goes back to its passive position.
pub open spec fn mux_probed(
    before: HubState,
    after: HubState,
    turn: Turn,
    target: Target,
    s0: bool,
    s1: bool,
    swdio: bool,
    swclk: bool,
    status: u8,
    dp_id: u32,
    looked: LinkView,
    middle: LinkView,
) -> bool {
    &&& after == (HubState { link: after.link, ..before })
    &&& before.link is Some
    &&& after.link is Some
    &&& position_probed(before.link->0, middle, target, swdio, swclk, status, dp_id, looked)
    &&& job::did_afresh(middle, after.link->0, job::letting_go())
    &&& turn matches Turn::Ask(
        Action::Select { target: Target::Stm32, settle_ms: 0 },
        Job::MuxBack { reply: Ok(reply) },
    ) && reply@ == mux_reply(swdio, swclk, status, dp_id, s0, s1)
}

fn probe_status_byte(result: &Result<u32, Error>) -> (status: u8)
    ensures
        status == probe_status(*result),
{
    match result {
        Ok(_) => 1,
        Err(Error::Protocol(ack)) => 0x80u8 | *ack,
        Err(Error::LineHeldLow) => 2,
        Err(Error::InvalidDpId) => 3,
        Err(Error::PowerTimeout) => 4,
        Err(Error::WaitTimeout) => 5,
        Err(Error::Fault) => 6,
        Err(Error::Parity) => 7,
        Err(Error::Unaligned) => 8,
    }
}

fn settle(outcome: Result<(), Error>) -> (turn: Turn)
    ensures
        settled(turn, outcome, Seq::empty()),
{
    match outcome {
        Ok(_) => {
            let reply: Vec<u8> = Vec::new();
            assert(reply@ =~= Seq::empty());
            Turn::Answer(Ok(reply))
        },
        Err(error) => Turn::Answer(Err(error)),
    }
}

impl<I: SwdIo> Hub<I> {
    /// An undecoded probe of the wire, once the multiplexer is passive.
    pub(super) fn wire_probe(&mut self, test: Option<WireTest>) -> (turn: Turn)
        ensures
            match (old(self)@.link, test) {
                (Some(_), Some(test)) => exists|middle: LinkView, first: u64, second: u64| #[trigger]
                    wire_done(old(self)@, final(self)@, turn, test, middle, first, second),
                _ => board::no_link(old(self)@, final(self)@, turn),
            },
            final(self).pins == old(self).pins,
    {
        let ghost before = self@;
        let ghost mut middle: LinkView = arbitrary();
        match (&mut self.swd, test) {
            (Some(link), Some(test)) => {
                let (first, second): (u64, u64) = match test {
                    WireTest::Whole => link.wire_probe(false),
                    WireTest::Split => link.wire_probe(true),
                    WireTest::Handover { after_read, before_write } => {
                        let (one, two, three, status): (u8, u8, u8, u32) = link.handover_probe(
                            after_read,
                            before_write,
                        );
                        proof {
                            let steps = link@.since(before.link->0);
                            assert(handed_over(
                                before.link->0.framing,
                                steps,
                                after_read,
                                before_write,
                                one,
                                two,
                                three,
                                status,
                            ));
                        }
                        (one as u64 + 256 * (two as u64) + 65536 * (three as u64), status as u64)
                    },
                };
                proof {
                    middle = link@;
                    assert(wire_ran(before.link->0, middle, test, first, second));
                }
                link.disconnect();
                self.attached = false;
                let mut reply: Vec<u8> = Vec::new();
                bytes::push_le64(&mut reply, first);
                bytes::push_le64(&mut reply, second);
                assert(reply@ =~= bytes::le64(first) + bytes::le64(second));
                let turn: Turn = Turn::Answer(Ok(reply));
                assert(wire_done(before, self@, turn, test, middle, first, second));
                turn
            },
            _ => Turn::Answer(Err(Error::Protocol(0))),
        }
    }

    /// An access port write probe, once the multiplexer is passive.
    pub(super) fn write_probe(&mut self, value: u32, clocks: Option<(u8, u8)>) -> (turn: Turn)
        requires
            clocks matches Some((after, before)) ==> after <= MAX_BURST_BITS && before
                <= MAX_BURST_BITS,
        ensures
            match old(self)@.link {
                None => board::no_link(old(self)@, final(self)@, turn),
                Some(_) => exists|middle: LinkView, got: (u8, u8, u32, u32)| #[trigger]
                    write_probe_done(
                        old(self)@,
                        final(self)@,
                        turn,
                        value,
                        clocks,
                        middle,
                        got,
                    ),
            },
            final(self).pins == old(self).pins,
    {
        let ghost before = self@;
        let (after_read, before_write): (Option<u8>, Option<u8>) = match clocks {
            Some((after, before)) => (Some(after), Some(before)),
            None => (None, None),
        };
        match &mut self.swd {
            Some(link) => {
                let got: (u8, u8, u32, u32) = link.ap_write_handover_probe(
                    value,
                    after_read,
                    before_write,
                );
                let ghost middle = link@;
                link.disconnect();
                self.attached = false;
                let mut reply: Vec<u8> = Vec::new();
                reply.push(got.0);
                reply.push(got.1);
                bytes::push_le32(&mut reply, got.2);
                bytes::push_le32(&mut reply, got.3);
                assert(reply@ =~= seq![got.0, got.1] + bytes::le32(got.2) + bytes::le32(got.3));
                let turn: Turn = Turn::Answer(Ok(reply));
                assert(write_probe_done(before, self@, turn, value, clocks, middle, got));
                turn
            },
            None => Turn::Answer(Err(Error::Protocol(0))),
        }
    }

    pub(super) fn read_register(&mut self, access_port: bool, register: u8) -> (turn: Turn)
        ensures
            match old(self)@.link {
                None => board::no_link(old(self)@, final(self)@, turn),
                Some(_) => register_read(
                    old(self)@,
                    final(self)@,
                    turn,
                    access_port,
                    register,
                ),
            },
            final(self).pins == old(self).pins,
    {
        match &mut self.swd {
            Some(link) => match link.raw_read_register(access_port, register) {
                Ok(value) => {
                    let mut reply: Vec<u8> = Vec::new();
                    bytes::push_le32(&mut reply, value);
                    assert(reply@ =~= bytes::le32(value));
                    Turn::Answer(Ok(reply))
                },
                Err(error) => Turn::Answer(Err(error)),
            },
            None => Turn::Answer(Err(Error::Protocol(0))),
        }
    }

    pub(super) fn read_register_block(
        &mut self,
        access_port: bool,
        register: u8,
        count: usize,
    ) -> (turn: Turn)
        requires
            count <= MAX_BLOCK_WORDS,
        ensures
            match old(self)@.link {
                None => board::no_link(old(self)@, final(self)@, turn),
                Some(_) => exists|words: Seq<u32>| #[trigger]
                    register_block_read(
                        old(self)@,
                        final(self)@,
                        turn,
                        access_port,
                        register,
                        count as nat,
                        words,
                    ),
            },
            final(self).pins == old(self).pins,
    {
        let ghost before = self@;
        match &mut self.swd {
            Some(link) => {
                let mut values: Vec<u32> = vec![0u32; count];
                let result: Result<(), Error> = link.raw_read_register_block(
                    access_port,
                    register,
                    values.as_mut_slice(),
                );
                let turn: Turn = match result {
                    Ok(_) => {
                        let mut reply: Vec<u8> = Vec::new();
                        bytes::push_words(&mut reply, values.as_slice());
                        assert(reply@ =~= bytes::words_le(values@));
                        Turn::Answer(Ok(reply))
                    },
                    Err(error) => Turn::Answer(Err(error)),
                };
                assert(register_block_read(
                    before,
                    self@,
                    turn,
                    access_port,
                    register,
                    count as nat,
                    values@,
                ));
                turn
            },
            None => Turn::Answer(Err(Error::Protocol(0))),
        }
    }

    pub(super) fn write_register_block(
        &mut self,
        access_port: bool,
        register: u8,
        words: &Vec<u32>,
    ) -> (turn: Turn)
        ensures
            match old(self)@.link {
                None => board::no_link(old(self)@, final(self)@, turn),
                Some(_) => register_block_written(
                    old(self)@,
                    final(self)@,
                    turn,
                    access_port,
                    register,
                    words@,
                ),
            },
            final(self).pins == old(self).pins,
    {
        match &mut self.swd {
            Some(link) => {
                let outcome: Result<(), Error> = link.raw_write_register_block(
                    access_port,
                    register,
                    words.as_slice(),
                );
                settle(outcome)
            },
            None => Turn::Answer(Err(Error::Protocol(0))),
        }
    }

    pub(super) fn write_register(&mut self, access_port: bool, register: u8, value: u32) -> (turn:
        Turn)
        ensures
            match old(self)@.link {
                None => board::no_link(old(self)@, final(self)@, turn),
                Some(_) => register_block_written(
                    old(self)@,
                    final(self)@,
                    turn,
                    access_port,
                    register,
                    seq![value],
                ),
            },
            final(self).pins == old(self).pins,
    {
        match &mut self.swd {
            Some(link) => {
                let outcome: Result<(), Error> = link.raw_write_register(
                    access_port,
                    register,
                    value,
                );
                settle(outcome)
            },
            None => Turn::Answer(Err(Error::Protocol(0))),
        }
    }

    pub(super) fn swj_sequence(&mut self, bit_len: u8, bits: u64) -> (turn: Turn)
        ensures
            match old(self)@.link {
                None => board::no_link(old(self)@, final(self)@, turn),
                Some(_) => {
                    &&& transferred(old(self)@, final(self)@)
                    &&& if 1 <= bit_len <= 64 {
                        &&& steps_between(old(self)@, final(self)@) == seq![
                            crate::swd::link::clocked_out(
                                crate::bits::bits_of(bits as nat, bit_len as nat),
                            ),
                        ]
                        &&& job::replied(turn, Seq::empty())
                    } else {
                        &&& steps_between(old(self)@, final(self)@).len() == 0
                        &&& job::refused(turn, Error::Protocol(0))
                    }
                },
            },
            final(self).pins == old(self).pins,
    {
        let ghost before = self@;
        match &mut self.swd {
            Some(link) => {
                let outcome: Result<(), Error> = link.swj_sequence(bit_len, bits);
                proof {
                    let steps = if 1 <= bit_len <= 64 {
                        seq![
                            crate::swd::link::clocked_out(
                                crate::bits::bits_of(bits as nat, bit_len as nat),
                            ),
                        ]
                    } else {
                        Seq::empty()
                    };
                    assert(link@.since(before.link->0) =~= steps);
                }
                settle(outcome)
            },
            None => Turn::Answer(Err(Error::Protocol(0))),
        }
    }

    /// Reads a block of memory. The words are not handed on where it failed.
    pub(super) fn read_memory(&mut self, address: u32, count: usize) -> (read: (
        Result<(), Error>,
        Vec<u32>,
    ))
        requires
            memory::addressable(address, count as nat),
        ensures
            match old(self)@.link {
                None => final(self)@ == old(self)@ && read.0 == Err::<(), Error>(
                    Error::Protocol(0),
                ),
                Some(_) => memory_read(
                    old(self)@,
                    final(self)@,
                    address,
                    count as nat,
                    read.1@,
                    read.0,
                ),
            },
            final(self).pins == old(self).pins,
    {
        let mut words: Vec<u32> = vec![0u32; count];
        assert(words@ =~= Seq::new(count as nat, |i: int| 0u32));
        match &mut self.swd {
            Some(link) => {
                let result: Result<(), Error> = link.read_words(address, words.as_mut_slice());
                (result, words)
            },
            None => (Err(Error::Protocol(0)), words),
        }
    }

    /// Probes the position that the multiplexer was moved to.
    pub(super) fn probe_position(&mut self, target: Target, s0: bool, s1: bool) -> (turn: Turn)
        requires
            old(self)@.link is Some,
        ensures
            exists|
                swdio: bool,
                swclk: bool,
                status: u8,
                dp_id: u32,
                looked: LinkView,
                middle: LinkView,
            |
                #[trigger] mux_probed(
                    old(self)@,
                    final(self)@,
                    turn,
                    target,
                    s0,
                    s1,
                    swdio,
                    swclk,
                    status,
                    dp_id,
                    looked,
                    middle,
                ),
            final(self).pins == old(self).pins,
    {
        let ghost before = self@;
        let ghost mut looked: LinkView = before.link->0;
        let ghost mut middle: LinkView = before.link->0;
        let (swdio, swclk, status, dp_id): (bool, bool, u8, u32) = match &mut self.swd {
            Some(link) => {
                let (swdio, swclk): (bool, bool) = link.released_line_state();
                proof {
                    looked = link@;
                }
                let (status, dp_id): (u8, u32) = if target == Target::Gps {
                    (9, 0)
                } else if !swdio {
                    (2, 0)
                } else {
                    let result: Result<u32, Error> = link.initialize();
                    let id: u32 = match &result {
                        Ok(id) => *id,
                        Err(_) => 0,
                    };
                    (probe_status_byte(&result), id)
                };
                proof {
                    middle = link@;
                    assert(position_probed(
                        before.link->0,
                        middle,
                        target,
                        swdio,
                        swclk,
                        status,
                        dp_id,
                        looked,
                    ));
                }
                link.disconnect();
                (swdio, swclk, status, dp_id)
            },
            None => (false, false, 0, 0),
        };
        let reply: [u8; 9] = [
            job::level_byte(swdio),
            job::level_byte(swclk),
            status,
            (dp_id % 256) as u8,
            (dp_id / 256 % 256) as u8,
            (dp_id / 65536 % 256) as u8,
            (dp_id / 16777216) as u8,
            job::level_byte(s0),
            job::level_byte(s1),
        ];
        assert(reply@ =~= mux_reply(swdio, swclk, status, dp_id, s0, s1));
        let turn: Turn = Turn::Ask(
            Action::Select { target: Target::Stm32, settle_ms: 0 },
            Job::MuxBack { reply: Ok(reply) },
        );
        assert(mux_probed(
            before,
            self@,
            turn,
            target,
            s0,
            s1,
            swdio,
            swclk,
            status,
            dp_id,
            looked,
            middle,
        ));
        turn
    }
}

} // verus!
