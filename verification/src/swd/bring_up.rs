//! Getting a target's debug port to answer.

use crate::bits;
use super::io;
use super::link;
use super::registers;
use super::io::{PadOp, SwdIo};
use super::wire::{
    ABORT_ALL, DP_ABORT, DP_CTRL_STAT_READ, DP_CTRL_STAT_WRITE, DP_IDCODE, DP_SELECT, Error,
    POWER_ACK, POWER_REQUEST,
};
use super::link::{Step, SwdLink};
use super::registers::Program;
use vstd::arithmetic::power2::*;
use vstd::prelude::*;

verus! {

/// Fifty-six high bits: more than the fifty that reset the line.
pub open spec fn line_reset() -> Step {
    link::clocked_out(Seq::new(56, |i: int| true))
}

/// The line reset, the JTAG-to-SWD switch, another line reset and eight idle
/// clocks.
pub open spec fn switch_to_swd() -> Seq<Step> {
    seq![
        line_reset(),
        link::clocked_out(bits::bits_of(0xe79e, 16)),
        line_reset(),
        link::clocked_out(bits::zeros(8)),
    ]
}

/// The lines let go of and then looked at.
pub open spec fn looked_at(swdio: bool, swclk: bool) -> Seq<Step> {
    seq![
        Step::Pads(seq![PadOp::Release]),
        Step::Pads(seq![PadOp::Lines(swdio, swclk)]),
    ]
}

/// Is this an identification that a debug port can have?
pub open spec fn plausible_id(id: u32) -> bool {
    id != 0 && id != u32::MAX && id % 2 == 1
}

/// The power-up poll: CTRL/STAT is read, a millisecond apart, until it
/// acknowledges power or `left` reads have not. Says what `steps` come to, if
/// they are such a poll.
pub open spec fn power_poll(steps: Seq<Step>, left: nat, id: u32) -> Option<Result<u32, Error>>
    decreases left,
{
    if left == 0 {
        if steps == seq![Step::Pads(seq![PadOp::Release])] {
            Some(Err(Error::PowerTimeout))
        } else {
            None
        }
    } else if steps.len() == 0 || !steps[0].moves(DP_CTRL_STAT_READ, 0) {
        None
    } else {
        match steps[0].outcome() {
            Err(error) => if steps.len() == 1 {
                Some(Err(error))
            } else {
                None
            },
            Ok(status) => if status & POWER_ACK == POWER_ACK {
                if steps.len() == 1 {
                    Some(Ok(id))
                } else {
                    None
                }
            } else if steps.len() >= 2 && steps[1] == Step::Pads(seq![PadOp::DelayMs(1)]) {
                power_poll(steps.skip(2), (left - 1) as nat, id)
            } else {
                None
            },
        }
    }
}

/// Is this an outcome on which a bring-up lets go of the lines?
pub open spec fn gave_up(result: Result<u32, Error>) -> bool {
    result == Err::<u32, Error>(Error::InvalidDpId) || result == Err::<u32, Error>(
        Error::PowerTimeout,
    )
}

/// The transfers that clear old errors, select bank zero and ask for power.
pub open spec fn power_up_program() -> Program {
    seq![(DP_ABORT, ABORT_ALL), (DP_SELECT, 0u32), (DP_CTRL_STAT_WRITE, POWER_REQUEST)]
}

/// Polls of CTRL/STAT before power is given up.
pub const POWER_POLLS: u32 = 100;

/// What `steps` come to, if they are the bring-up of a port whose line is
/// ready: its identification, the power-up request, and the poll.
pub open spec fn bring_up(steps: Seq<Step>) -> Option<Result<u32, Error>> {
    if steps.len() == 0 || !steps[0].moves(DP_IDCODE, 0) {
        None
    } else {
        let rest = steps.skip(1);
        match steps[0].outcome() {
            Err(error) => if rest.len() == 0 {
                Some(Err(error))
            } else {
                None
            },
            Ok(id) => if !plausible_id(id) {
                if rest == seq![Step::Pads(seq![PadOp::Release])] {
                    Some(Err(Error::InvalidDpId))
                } else {
                    None
                }
            } else if rest.len() <= 3 && registers::ran(rest, power_up_program())
                && registers::failure(rest) is Some {
                Some(Err(registers::failure(rest)->Some_0))
            } else if rest.len() >= 3 && registers::ran(rest.take(3), power_up_program())
                && registers::failure(rest.take(3)) is None {
                power_poll(rest.skip(3), POWER_POLLS as nat, id)
            } else {
                None
            },
        }
    }
}

/// What bringing a port up does: nothing past a look at the lines where SWDIO
/// is held low, and the switch and the bring-up where it is not.
pub open spec fn initialized(
    steps: Seq<Step>,
    swdio: bool,
    swclk: bool,
    result: Result<u32, Error>,
) -> bool {
    &&& steps.len() >= 2
    &&& steps.take(2) == looked_at(swdio, swclk)
    &&& !swdio ==> steps.len() == 2 && result == Err::<u32, Error>(Error::LineHeldLow)
    &&& swdio ==> steps.len() >= 6 && steps.subrange(2, 6) == switch_to_swd() && bring_up(
        steps.skip(6),
    ) == Some(result)
}

/// A line that is held low is looked at, and no more.
proof fn lemma_held_low(swclk: bool)
    ensures
        initialized(looked_at(false, swclk), false, swclk, Err(Error::LineHeldLow)),
{
    let steps = looked_at(false, swclk);
    assert(steps.take(2) =~= steps);
}

/// A line that is free is looked at and switched, and its port is brought up.
proof fn lemma_brought_up(swclk: bool, brought: Seq<Step>, result: Result<u32, Error>)
    requires
        bring_up(brought) == Some(result),
    ensures
        ({
            let steps = looked_at(true, swclk) + switch_to_swd() + brought;
            &&& initialized(steps, true, swclk, result)
            &&& registers::done(steps, 8) == registers::done(brought, 2)
        }),
{
    let looked = looked_at(true, swclk);
    let switched = switch_to_swd();
    let steps = looked + switched + brought;
    assert(steps.take(2) =~= looked);
    assert(steps.subrange(2, 6) =~= switched);
    assert(steps.skip(6) =~= brought);
    if steps.len() > 8 {
        assert(steps[8] == brought[2]);
    }
}

pub(crate) proof fn lemma_byte_bits_ones(bytes: Seq<u8>, count: nat)
    requires
        count <= 8 * bytes.len(),
        forall|i: int| 0 <= i < bytes.len() ==> bytes[i] == 0xff,
    ensures
        io::byte_bits(bytes, count) == Seq::new(count, |i: int| true),
{
    reveal_with_fuel(bits::bits_of, 9);
    assert forall|i: int| 0 <= i < count implies io::byte_bits(bytes, count)[i] by {
        let b = bits::bits_of(0xff, 8);
        assert(b[0] && b[1] && b[2] && b[3] && b[4] && b[5] && b[6] && b[7]);
        let k = i % 8;
        assert(k == 0 || k == 1 || k == 2 || k == 3 || k == 4 || k == 5 || k == 6 || k == 7);
        assert(bytes[i / 8] == 0xff);
    }
    assert(io::byte_bits(bytes, count) =~= Seq::new(count, |i: int| true));
}

pub(crate) proof fn lemma_switch_bits()
    ensures
        io::byte_bits(seq![0x9eu8, 0xe7u8], 16) == bits::bits_of(0xe79e, 16),
        io::byte_bits(seq![0u8], 8) == bits::zeros(8),
{
    lemma2_to64();
    io::lemma_bits_concat(0x9e, 0xe7, 8, 8);
    bits::lemma_bits_len(0x9e, 8);
    bits::lemma_bits_len(0xe7, 8);
    let two = seq![0x9eu8, 0xe7u8];
    assert(io::byte_bits(two, 16) =~= bits::bits_of(0x9e, 8) + bits::bits_of(0xe7, 8));
    reveal_with_fuel(bits::bits_of, 9);
    bits::lemma_bits_len(0, 8);
    assert(io::byte_bits(seq![0u8], 8) =~= bits::bits_of(0, 8));
    assert(bits::bits_of(0, 8) =~= bits::zeros(8));
}

impl<I: SwdIo> SwdLink<I> {
    /// Resets the line and switches a JTAG-or-SWD port to SWD.
    pub fn line_reset_and_switch(&mut self)
        ensures
            final(self)@.did(old(self)@, switch_to_swd()),
            final(self)@.selected is None,
            !final(self)@.csw,
    {
        let ones: [u8; 7] = [0xff, 0xff, 0xff, 0xff, 0xff, 0xff, 0xff];
        let switch: [u8; 2] = [0x9e, 0xe7];
        let idle: [u8; 1] = [0];
        let ghost first = self@;
        self.sequence(56, &ones);
        let ghost second = self@;
        self.sequence(16, &switch);
        let ghost third = self@;
        self.sequence(56, &ones);
        let ghost fourth = self@;
        self.sequence(8, &idle);
        proof {
            lemma_byte_bits_ones(ones@, 56);
            lemma_switch_bits();
            assert(switch@ =~= seq![0x9eu8, 0xe7u8]);
            assert(idle@ =~= seq![0u8]);
            let a = seq![line_reset()];
            let b = seq![link::clocked_out(bits::bits_of(0xe79e, 16))];
            let d = seq![link::clocked_out(bits::zeros(8))];
            link::lemma_did_both(first, second, third, a, b);
            link::lemma_did_both(first, third, fourth, a + b, a);
            link::lemma_did_both(first, fourth, self@, a + b + a, d);
            assert(a + b + a + d =~= switch_to_swd());
        }
        self.set_up(None, false);
    }

    /// Clocks out up to sixty-four bits of the caller's choosing.
    pub fn swj_sequence(&mut self, bit_len: u8, bits: u64) -> (result: Result<(), Error>)
        ensures
            final(self)@.selected == old(self)@.selected,
            final(self)@.csw == old(self)@.csw,
            result == (if 1 <= bit_len <= 64 {
                Ok(())
            } else {
                Err(Error::Protocol(0))
            }),
            final(self)@.did(
                old(self)@,
                if 1 <= bit_len <= 64 {
                    seq![link::clocked_out(bits::bits_of(bits as nat, bit_len as nat))]
                } else {
                    Seq::empty()
                },
            ),
    {
        if bit_len == 0 || bit_len > 64 {
            proof {
                link::lemma_did_nothing(self@);
            }
            return Err(Error::Protocol(0));
        }
        let bytes: Vec<u8> = le_bytes(bits);
        self.sequence(bit_len as usize, bytes.as_slice());
        proof {
            io::lemma_bits_prefix(bits as nat, bit_len as nat, 64);
            assert(io::byte_bits(bytes@, 64).take(bit_len as int) =~= io::byte_bits(
                bytes@,
                bit_len as nat,
            ));
        }
        Ok(())
    }

    /// The levels of SWDIO and SWCLK with nothing here driving them.
    pub fn released_line_state(&mut self) -> (levels: (bool, bool))
        ensures
            final(self)@.did(old(self)@, looked_at(levels.0, levels.1)),
            final(self)@.selected is None,
            !final(self)@.csw,
    {
        self.disconnect();
        let ghost middle = self@;
        let levels: (bool, bool) = self.look();
        proof {
            let a = seq![Step::Pads(seq![PadOp::Release])];
            let b = seq![Step::Pads(seq![PadOp::Lines(levels.0, levels.1)])];
            link::lemma_did_both(old(self)@, middle, self@, a, b);
            assert(a + b =~= looked_at(levels.0, levels.1));
        }
        levels
    }

    /// Brings the target's debug port up from an unknown state of the line.
    ///
    /// A line that something else holds low is left alone: nothing is driven.
    #[verifier::spinoff_prover]
    pub fn initialize(&mut self) -> (result: Result<u32, Error>)
        ensures
            final(self)@.went_on(old(self)@),
            ({
                let steps = final(self)@.since(old(self)@);
                exists|swdio: bool, swclk: bool| #[trigger]
                    initialized(steps, swdio, swclk, result)
            }),
            !final(self)@.csw,
            final(self)@.selected == (if !gave_up(result) && registers::done(
                final(self)@.since(old(self)@),
                8,
            ) {
                Some(0u32)
            } else {
                None
            }),
    {
        let (swdio, swclk) = self.released_line_state();
        let ghost looked = self@;
        let ghost a = looked_at(swdio, swclk);
        if !swdio {
            proof {
                lemma_held_low(swclk);
                assert(self@.since(old(self)@) =~= a);
            }
            return Err(Error::LineHeldLow);
        }
        self.line_reset_and_switch();
        let ghost switched = self@;
        let result: Result<u32, Error> = self.initialize_prepared();
        proof {
            let b = switch_to_swd();
            let c = self@.since(switched);
            link::lemma_did_both(old(self)@, looked, switched, a, b);
            link::lemma_did_both(old(self)@, switched, self@, a + b, c);
            lemma_brought_up(swclk, c, result);
        }
        result
    }

    /// Brings the debug port up on a line that is ready: reads its
    /// identification, clears old errors, and powers the debug domain.
    pub fn initialize_prepared(&mut self) -> (result: Result<u32, Error>)
        ensures
            final(self)@.went_on(old(self)@),
            bring_up(final(self)@.since(old(self)@)) == Some(result),
            if gave_up(result) {
                final(self)@.selected is None && !final(self)@.csw
            } else {
                &&& final(self)@.csw == old(self)@.csw
                &&& final(self)@.selected == (if registers::done(final(self)@.since(old(self)@), 2) {
                    Some(0u32)
                } else {
                    old(self)@.selected
                })
            },
    {
        let ghost start = self@;
        let id: u32 = match self.dp_read(DP_IDCODE) {
            Ok(id) => id,
            Err(error) => {
                assert(self@.since(start).skip(1) =~= Seq::empty());
                return Err(error);
            },
        };
        let ghost read = self@;
        let ghost first = self@.since(start);
        if id == 0 || id == u32::MAX || id % 2 == 0 {
            self.disconnect();
            proof {
                let b = seq![Step::Pads(seq![PadOp::Release])];
                link::lemma_did_both(start, read, self@, first, b);
                assert((first + b).skip(1) =~= b);
            }
            return Err(Error::InvalidDpId);
        }
        let asked: Result<(), Error> = self.ask_for_power();
        let ghost powering = self@;
        let ghost second = self@.since(read);
        proof {
            link::lemma_did_both(start, read, powering, first, second);
            assert((first + second).skip(1) =~= second);
        }
        if let Err(error) = asked {
            return Err(error);
        }
        let result: Result<u32, Error> = self.await_power(id);
        proof {
            let third = self@.since(powering);
            link::lemma_did_both(start, powering, self@, first + second, third);
            let rest = (first + second + third).skip(1);
            assert(rest =~= second + third);
            assert(rest.take(3) =~= second);
            assert(rest.skip(3) =~= third);
            if rest.len() <= 3 {
                assert(third =~= Seq::empty());
                assert(power_poll(third, POWER_POLLS as nat, id) is None);
            }
        }
        result
    }

    fn ask_for_power(&mut self) -> (result: Result<(), Error>)
        ensures
            final(self)@.went_on(old(self)@),
            ({
                let steps = final(self)@.since(old(self)@);
                &&& registers::ran(steps, power_up_program())
                &&& result == (match registers::failure(steps) {
                    Some(error) => Err(error),
                    None => Ok(()),
                })
                &&& final(self)@.selected == (if registers::done(steps, 1) {
                    Some(0u32)
                } else {
                    old(self)@.selected
                })
            }),
            final(self)@.csw == old(self)@.csw,
    {
        let ghost start = self@;
        let ghost p = seq![(DP_ABORT, ABORT_ALL)];
        let ghost q = seq![(DP_SELECT, 0u32)];
        let ghost r = seq![(DP_CTRL_STAT_WRITE, POWER_REQUEST)];
        assert(p + q + r =~= power_up_program());
        assert(p + (q + r) =~= power_up_program());
        let aborted: Result<(), Error> = self.dp_write(DP_ABORT, ABORT_ALL);
        let ghost one = self@;
        let ghost a = self@.since(start);
        proof {
            assert(a =~= seq![a[0]]);
            registers::lemma_ran_one(a[0], DP_ABORT, ABORT_ALL);
        }
        if let Err(error) = aborted {
            proof {
                registers::lemma_ran_short(a, p, q + r);
            }
            return Err(error);
        }
        let selected: Result<(), Error> = self.dp_write(DP_SELECT, 0);
        let ghost two = self@;
        let ghost b = self@.since(one);
        proof {
            assert(b =~= seq![b[0]]);
            registers::lemma_ran_one(b[0], DP_SELECT, 0);
            registers::lemma_ran_on(a, p, b, q);
            link::lemma_did_both(start, one, two, a, b);
            assert((a + b)[1] == b[0]);
        }
        if let Err(error) = selected {
            proof {
                registers::lemma_ran_short(a + b, p + q, r);
            }
            return Err(error);
        }
        let (_, csw) = self.setup();
        self.set_up(Some(0), csw);
        let ghost marked = self@;
        let powered: Result<(), Error> = self.dp_write(DP_CTRL_STAT_WRITE, POWER_REQUEST);
        proof {
            let c = self@.since(marked);
            assert(c =~= seq![c[0]]);
            registers::lemma_ran_one(c[0], DP_CTRL_STAT_WRITE, POWER_REQUEST);
            registers::lemma_ran_on(a + b, p + q, c, r);
            assert(marked.did(start, a + b));
            link::lemma_did_both(start, marked, self@, a + b, c);
            assert((a + b + c)[1] == b[0]);
        }
        powered
    }

    fn await_power(&mut self, id: u32) -> (result: Result<u32, Error>)
        ensures
            final(self)@.went_on(old(self)@),
            power_poll(final(self)@.since(old(self)@), POWER_POLLS as nat, id) == Some(result),
            if result == Err::<u32, Error>(Error::PowerTimeout) {
                final(self)@.selected is None && !final(self)@.csw
            } else {
                final(self)@.selected == old(self)@.selected && final(self)@.csw == old(self)@.csw
            },
            result != Err::<u32, Error>(Error::InvalidDpId),
    {
        let ghost start = self@;
        let ghost mut steps: Seq<Step> = Seq::empty();
        let mut polls: u32 = 0;
        proof {
            link::lemma_did_nothing(self@);
            assert forall|rest: Seq<Step>| #[trigger]
                power_poll(steps + rest, POWER_POLLS as nat, id) == power_poll(
                rest,
                POWER_POLLS as nat,
                id,
            ) by {
                assert(steps + rest =~= rest);
            }
        }
        while polls < POWER_POLLS
            invariant
                polls <= POWER_POLLS,
                start == old(self)@,
                self@.did(start, steps),
                self@.since(start) == steps,
                self@.selected == start.selected,
                self@.csw == start.csw,
                forall|rest: Seq<Step>| #[trigger]
                    power_poll(steps + rest, POWER_POLLS as nat, id) == power_poll(
                        rest,
                        (POWER_POLLS - polls) as nat,
                        id,
                    ),
            decreases POWER_POLLS - polls,
        {
            let ghost middle = self@;
            let read: Result<u32, Error> = self.dp_read(DP_CTRL_STAT_READ);
            let ghost seen = self@;
            let ghost a = self@.since(middle);
            proof {
                link::lemma_did_both(start, middle, seen, steps, a);
            }
            match read {
                Err(error) => return Err(error),
                Ok(status) => {
                    if status & POWER_ACK == POWER_ACK {
                        return Ok(id);
                    }
                },
            }
            self.pause(1);
            proof {
                let b = seq![Step::Pads(seq![PadOp::DelayMs(1)])];
                link::lemma_did_both(start, seen, self@, steps + a, b);
                let left = (POWER_POLLS - polls) as nat;
                let longer = steps + a + b;
                assert forall|rest: Seq<Step>| #[trigger]
                    power_poll(longer + rest, POWER_POLLS as nat, id) == power_poll(
                    rest,
                    (left - 1) as nat,
                    id,
                ) by {
                    let inner = a + b + rest;
                    assert(longer + rest =~= steps + inner);
                    assert(inner[0] == a[0] && inner[1] == b[0]);
                    assert(inner.skip(2) =~= rest);
                }
                steps = longer;
            }
            polls += 1;
        }
        let ghost waited = self@;
        self.disconnect();
        proof {
            let c = seq![Step::Pads(seq![PadOp::Release])];
            link::lemma_did_both(start, waited, self@, steps, c);
        }
        Err(Error::PowerTimeout)
    }
}

/// The eight bytes of a number, least significant first.
fn le_bytes(value: u64) -> (bytes: Vec<u8>)
    ensures
        bytes@.len() == 8,
        io::byte_bits(bytes@, 64) == bits::bits_of(value as nat, 64),
{
    let mut bytes: Vec<u8> = Vec::new();
    let mut rest: u64 = value;
    let mut count: u8 = 0;
    proof {
        lemma2_to64();
        assert(io::byte_bits(bytes@, 0) + bits::bits_of(value as nat, 64) =~= bits::bits_of(
            value as nat,
            64,
        ));
    }
    while count < 8
        invariant
            count <= 8,
            bytes@.len() == count,
            (rest as nat) < pow2((64 - 8 * count) as nat),
            io::byte_bits(bytes@, (8 * count) as nat) + bits::bits_of(
                rest as nat,
                (64 - 8 * count) as nat,
            ) == bits::bits_of(value as nat, 64),
        decreases 8 - count,
    {
        let byte: u8 = (rest % 256) as u8;
        let ghost before = bytes@;
        bytes.push(byte);
        proof {
            let high = (64 - 8 * count - 8) as nat;
            lemma2_to64();
            lemma_pow2_adds(8, high);
            assert((rest as nat / 256) < pow2(high)) by (nonlinear_arith)
                requires
                    (rest as nat) < pow2(high + 8),
                    pow2(high + 8) == 256 * pow2(high),
            ;
            io::lemma_bits_concat(byte as nat, rest as nat / 256, 8, high);
            bits::lemma_bits_len(byte as nat, 8);
            assert(io::byte_bits(bytes@, (8 * count + 8) as nat) =~= io::byte_bits(
                before,
                (8 * count) as nat,
            ) + bits::bits_of(byte as nat, 8));
            assert(io::byte_bits(bytes@, (8 * count + 8) as nat) + bits::bits_of(
                rest as nat / 256,
                high,
            ) =~= bits::bits_of(value as nat, 64));
        }
        rest = rest / 256;
        count += 1;
    }
    proof {
        assert(io::byte_bits(bytes@, 64) =~= bits::bits_of(value as nat, 64));
    }
    bytes
}

} // verus!
