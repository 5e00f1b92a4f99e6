//! Looking at the wire itself, for when a link does not come up.

use crate::bits;
use super::bring_up;
use super::io;
use super::link;
use super::wire;
use super::io::{Framing, MAX_BURST_BITS, PadOp, SwdIo};
use super::wire::{
    ABORT_ALL, AP_TAR, AP_TAR_READ, DP_ABORT, DP_CTRL_STAT_READ, DP_CTRL_STAT_WRITE, DP_IDCODE,
    DP_RDBUFF, DP_SELECT, POWER_ACK, POWER_REQUEST,
};
use super::bring_up::POWER_POLLS;
use super::link::{Step, SwdLink};
use vstd::arithmetic::power2::*;
use vstd::prelude::*;

verus! {

/// Both lines driven low and read, then driven high and read.
pub open spec fn pad_test(low: (bool, bool), high: (bool, bool)) -> Seq<PadOp> {
    io::uninterrupted(
        seq![
            PadOp::Output,
            PadOp::Data(false),
            PadOp::Clock(false),
            PadOp::HalfCycle,
            PadOp::Lines(low.0, low.1),
            PadOp::Data(true),
            PadOp::Clock(true),
            PadOp::HalfCycle,
            PadOp::Lines(high.0, high.1),
        ],
    )
}

/// SWCLK driven for as many clocks as `seen` has samples, SWDIO released.
pub open spec fn recovery_clocks(seen: Seq<bool>) -> Step {
    Step::Pads(io::uninterrupted(seq![PadOp::Input, PadOp::ClockOutput] + io::sample_bits(seen)))
}

/// What a wire probe does: a DPIDR request, and the reply as it is sampled.
pub open spec fn wire_probed(
    framing: Framing,
    step: Step,
    split: bool,
    seen: (u64, u64),
    turn: Seq<bool>,
) -> bool {
    let reply = if split {
        io::sample_bits(bits::bits_of(seen.0 as nat, 3)) + io::sample_bits(bits::bits_of(seen.1 as nat, 33))
    } else {
        io::sample_bits(bits::bits_of(seen.0 as nat, 48))
    };
    &&& framing.leads(turn)
    &&& step == Step::Pads(
        io::uninterrupted(
            wire::request_ops(DP_IDCODE, turn) + reply + seq![PadOp::Output, PadOp::Data(true)],
        ),
    )
}

/// A read whose trailing boundary is clocked by hand.
pub open spec fn read_by_hand(
    framing: Framing,
    step: Step,
    request: u8,
    ack: u8,
    field: u64,
    turn: Seq<bool>,
    after: Seq<bool>,
) -> bool {
    &&& framing.leads(turn)
    &&& ack < 8
    &&& field < 0x2_0000_0000
    &&& step == Step::Pads(
        io::uninterrupted(
            wire::request_ops(request, turn) + io::sample_bits(bits::bits_of(ack as nat, 3))
                + io::sample_bits(bits::bits_of(field as nat, 33)) + io::sample_bits(after) + seq![
                PadOp::Output,
                PadOp::Data(true),
            ],
        ),
    )
}

/// A read by hand with `after_read` clocks after its data, that got an
/// acknowledgement and a word.
pub open spec fn handover_read(
    framing: Framing,
    step: Step,
    request: u8,
    after_read: u8,
    ack: u8,
    word: u32,
) -> bool {
    exists|field: u64, turn: Seq<bool>, after: Seq<bool>|
        {
            &&& #[trigger] read_by_hand(framing, step, request, ack, field, turn, after)
            &&& after.len() == after_read
            &&& word == field % 0x1_0000_0000
        }
}

/// A read by hand of which only the acknowledgement counts.
pub open spec fn handover_acked(
    framing: Framing,
    step: Step,
    request: u8,
    after_read: u8,
    ack: u8,
) -> bool {
    exists|word: u32| #[trigger] handover_read(framing, step, request, after_read, ack, word)
}

/// A write by hand with `before_write` clocks before its data.
pub open spec fn handover_write(
    framing: Framing,
    step: Step,
    request: u8,
    data: u32,
    before_write: u8,
    ack: u8,
) -> bool {
    exists|turn: Seq<bool>, before: Seq<bool>|
        #[trigger] write_by_hand(framing, step, request, data, ack, turn, before) && before.len()
            == before_write
}

/// A write whose boundary before the data is clocked by hand, and which brings
/// its data whatever the acknowledgement.
pub open spec fn write_by_hand(
    framing: Framing,
    step: Step,
    request: u8,
    data: u32,
    ack: u8,
    turn: Seq<bool>,
    before: Seq<bool>,
) -> bool {
    &&& framing.leads(turn)
    &&& ack < 8
    &&& step == Step::Pads(
        io::uninterrupted(
            wire::request_ops(request, turn) + io::sample_bits(bits::bits_of(ack as nat, 3))
                + io::sample_bits(before) + seq![PadOp::Output] + io::drive_bits(
                io::data_bits(data, bits::odd_parity(data as nat)),
            ) + seq![PadOp::Data(true)],
        ),
    )
}

/// Are `bits` as many as asked for, or, where no number was, the turnaround
/// that hands the bus back?
pub open spec fn as_many(framing: Framing, clocks: Option<u8>, bits: Seq<bool>) -> bool {
    match clocks {
        Some(count) => bits.len() == count,
        None => framing.trails(bits),
    }
}

/// A read by hand whose trailing boundary has `clocks` clocks, where told.
pub open spec fn boundary_read(
    framing: Framing,
    step: Step,
    request: u8,
    clocks: Option<u8>,
) -> bool {
    exists|ack: u8, field: u64, turn: Seq<bool>, after: Seq<bool>|
        #[trigger] read_by_hand(framing, step, request, ack, field, turn, after) && as_many(
            framing,
            clocks,
            after,
        )
}

/// A write by hand whose boundary before the data has `clocks` clocks, where
/// told.
pub open spec fn boundary_write(
    framing: Framing,
    step: Step,
    request: u8,
    data: u32,
    clocks: Option<u8>,
    ack: u8,
) -> bool {
    exists|turn: Seq<bool>, before: Seq<bool>|
        #[trigger] write_by_hand(framing, step, request, data, ack, turn, before) && as_many(
            framing,
            clocks,
            before,
        )
}

/// CTRL/STAT asked for, a millisecond apart, until it acknowledges power or
/// `left` times, whatever each exchange came to.
pub open spec fn power_tried(steps: Seq<Step>, left: nat) -> bool
    decreases left,
{
    if left == 0 {
        steps.len() == 0
    } else {
        &&& steps.len() >= 1
        &&& steps[0].tries_once(DP_CTRL_STAT_READ, 0)
        &&& if steps[0].word_got() & POWER_ACK == POWER_ACK {
            steps.len() == 1
        } else {
            &&& steps.len() >= 2
            &&& steps[1] == Step::Pads(seq![PadOp::DelayMs(1)])
            &&& power_tried(steps.skip(2), (left - 1) as nat)
        }
    }
}

/// What the AP write probe does: the port brought up without retries, a read
/// and a write with the boundary under test, and the word that the target says
/// it has.
pub open spec fn ap_write_probed(
    framing: Framing,
    steps: Seq<Step>,
    value: u32,
    after_read: Option<u8>,
    before_write: Option<u8>,
    got: (u8, u8, u32, u32),
) -> bool {
    let n = steps.len() - 6;
    &&& n >= 8
    &&& steps.take(4) == bring_up::switch_to_swd()
    &&& steps[4].tries_once(DP_IDCODE, 0)
    &&& steps[5].tries_once(DP_ABORT, ABORT_ALL)
    &&& steps[6].tries_once(DP_SELECT, 0)
    &&& steps[7].tries_once(DP_CTRL_STAT_WRITE, POWER_REQUEST)
    &&& power_tried(steps.subrange(8, n), POWER_POLLS as nat)
    &&& boundary_read(framing, steps[n], DP_CTRL_STAT_READ, after_read)
    &&& boundary_write(framing, steps[n + 1], AP_TAR, value, before_write, got.1)
    &&& steps[n + 2].tries_once(DP_CTRL_STAT_READ, 0)
    &&& steps[n + 3].tries_once(DP_ABORT, ABORT_ALL)
    &&& steps[n + 4].tries_once(AP_TAR_READ, 0)
    &&& steps[n + 5].tries_once(DP_RDBUFF, 0)
    &&& got.0 == steps[4].ack_got()
    &&& got.2 == steps[n + 5].word_got()
    &&& got.3 == steps[n + 2].word_got()
}

/// The acknowledgement that a single read of plain framing tells of, given the
/// levels that it senses.
pub open spec fn told_ack(levels: Seq<bool>) -> nat {
    if wire::heard_ack(levels) == wire::TRANSFER_OK && wire::heard_word(levels) is None {
        0
    } else {
        wire::heard_ack(levels)
    }
}

/// The word that it tells of, nothing being zero.
pub open spec fn told_word(levels: Seq<bool>) -> u32 {
    if wire::heard_ack(levels) == wire::TRANSFER_OK && wire::heard_word(levels) is Some {
        wire::heard_word(levels)->0
    } else {
        0
    }
}

/// What a single exchange on plain framing tells of is settled by the levels
/// that it senses.
pub proof fn law_a_single_exchange_is_what_was_sensed(step: Step, request: u8, data: u32)
    requires
        step.tries_once(request, data),
        step.valid(Framing::plain()),
    ensures
        ({
            let levels = io::sensed(step.ops());
            &&& levels.len() == if wire::is_read(request) && wire::heard_ack(levels)
                == wire::TRANSFER_OK {
                38int
            } else {
                5
            }
            &&& wire::is_read(request) ==> step.ack_got() == told_ack(levels)
            &&& wire::is_read(request) ==> step.word_got() == told_word(levels)
            &&& !wire::is_read(request) ==> step.ack_got() == wire::heard_ack(levels)
        }),
{
    link::law_a_plain_try_is_what_was_sensed(step->Once_0);
}

proof fn lemma_boundary_write_senses(
    step: Step,
    request: u8,
    data: u32,
    clocks: Option<u8>,
    ack: u8,
)
    requires
        boundary_write(Framing::plain(), step, request, data, clocks, ack),
    ensures
        ack == wire::heard_ack(io::sensed(step.ops())),
{
    let plain = Framing::plain();
    let (turn, before) = choose|turn: Seq<bool>, before: Seq<bool>|
        #[trigger] write_by_hand(plain, step, request, data, ack, turn, before) && as_many(
            plain,
            clocks,
            before,
        );
    let asked = wire::request_ops(request, turn);
    let acked = bits::bits_of(ack as nat, 3);
    let rest = io::sample_bits(before) + seq![PadOp::Output] + io::drive_bits(
        io::data_bits(data, bits::odd_parity(data as nat)),
    ) + seq![PadOp::Data(true)];
    let ops = asked + io::sample_bits(acked) + rest;
    assert(step.ops() =~= io::uninterrupted(ops));
    io::lemma_uninterrupted_senses(ops);
    lemma2_to64();
    bits::lemma_bits_len(ack as nat, 3);
    bits::law_value_of_undoes_bits_of(ack as nat, 3);
    wire::lemma_request_senses(request, turn);
    io::lemma_sampled_is_sensed(acked);
    io::lemma_sensed_concat(asked, io::sample_bits(acked));
    io::lemma_sensed_concat(asked + io::sample_bits(acked), rest);
    let levels = io::sensed(ops);
    assert(levels =~= turn + acked + io::sensed(rest));
    assert(levels.subrange(1, 4) =~= acked);
}

/// What a read by hand on plain framing brings is settled by the levels that it
/// senses.
pub proof fn law_a_plain_read_by_hand_is_what_was_sensed(
    step: Step,
    request: u8,
    after_read: u8,
    ack: u8,
    word: u32,
)
    requires
        handover_read(Framing::plain(), step, request, after_read, ack, word),
    ensures
        ({
            let levels = io::sensed(step.ops());
            &&& levels.len() == 37 + after_read
            &&& ack == wire::heard_ack(levels)
            &&& word == bits::value_of(levels.subrange(4, 36))
        }),
{
    let plain = Framing::plain();
    let (field, turn, after) = choose|field: u64, turn: Seq<bool>, after: Seq<bool>|
        {
            &&& #[trigger] read_by_hand(plain, step, request, ack, field, turn, after)
            &&& after.len() == after_read
            &&& word == field % 0x1_0000_0000
        };
    let asked = wire::request_ops(request, turn);
    let acked = bits::bits_of(ack as nat, 3);
    let data = bits::bits_of(field as nat, 33);
    let end = seq![PadOp::Output, PadOp::Data(true)];
    let one = asked + io::sample_bits(acked);
    let two = one + io::sample_bits(data);
    let three = two + io::sample_bits(after);
    lemma2_to64();
    lemma2_to64_rest();
    bits::lemma_bits_len(ack as nat, 3);
    bits::law_value_of_undoes_bits_of(ack as nat, 3);
    bits::lemma_bits_len(field as nat, 33);
    bits::lemma_value_of_bits(field as nat, 32);
    io::lemma_bits_prefix(field as nat, 32, 33);
    io::lemma_uninterrupted_senses(three + end);
    wire::lemma_request_senses(request, turn);
    io::lemma_sampled_is_sensed(acked);
    io::lemma_sampled_is_sensed(data);
    io::lemma_sampled_is_sensed(after);
    io::lemma_nothing_sensed(end);
    io::lemma_sensed_concat(asked, io::sample_bits(acked));
    io::lemma_sensed_concat(one, io::sample_bits(data));
    io::lemma_sensed_concat(two, io::sample_bits(after));
    io::lemma_sensed_concat(three, end);
    let levels = io::sensed(step.ops());
    assert(levels =~= turn + acked + data + after);
    assert(levels.subrange(1, 4) =~= acked);
    assert(levels.subrange(4, 36) =~= data.take(32));
}

/// All that a write probe on plain framing returns is settled by the levels
/// that its steps sense.
pub proof fn law_a_plain_write_probe_is_what_was_sensed(
    steps: Seq<Step>,
    value: u32,
    after_read: Option<u8>,
    before_write: Option<u8>,
    got: (u8, u8, u32, u32),
)
    requires
        ap_write_probed(Framing::plain(), steps, value, after_read, before_write, got),
        forall|i: int| 0 <= i < steps.len() ==> (#[trigger] steps[i]).valid(Framing::plain()),
    ensures
        ({
            let n = steps.len() - 6;
            &&& got.0 == told_ack(io::sensed(steps[4].ops()))
            &&& got.1 == wire::heard_ack(io::sensed(steps[n + 1].ops()))
            &&& got.2 == told_word(io::sensed(steps[n + 5].ops()))
            &&& got.3 == told_word(io::sensed(steps[n + 2].ops()))
        }),
{
    let n = steps.len() - 6;
    law_a_single_exchange_is_what_was_sensed(steps[4], DP_IDCODE, 0);
    lemma_boundary_write_senses(steps[n + 1], AP_TAR, value, before_write, got.1);
    law_a_single_exchange_is_what_was_sensed(steps[n + 2], DP_CTRL_STAT_READ, 0);
    law_a_single_exchange_is_what_was_sensed(steps[n + 5], DP_RDBUFF, 0);
}

impl<I: SwdIo> SwdLink<I> {
    /// Clocks the bus with SWDIO released, then reports the released levels.
    ///
    /// A target interrupted part-way through a read data phase keeps driving
    /// SWDIO until it has clocked out the rest of that phase, which reads as a
    /// permanently held-low line. Only SWCLK is driven here, so this can never
    /// contend with whatever the far end is doing.
    pub fn recover_line(&mut self, cycles: u16) -> (levels: (bool, bool))
        ensures
            final(self)@.went_on(old(self)@),
            final(self)@.selected is None,
            !final(self)@.csw,
            exists|seen: Seq<bool>|
                {
                    &&& seen.len() == cycles
                    &&& final(self)@.since(old(self)@) == seq![
                        Step::Pads(seq![PadOp::Release]),
                        #[trigger] recovery_clocks(seen),
                    ] + bring_up::looked_at(levels.0, levels.1)
                },
    {
        self.disconnect();
        let ghost released = self@;
        let ghost before = self@.pads;
        self.io_mut().begin_transaction();
        self.io_mut().set_swdio_input();
        self.io_mut().set_swclk_output();
        let ghost lead = seq![PadOp::Begin, PadOp::Input, PadOp::ClockOutput];
        let mut remaining: u16 = cycles;
        let ghost mut seen: Seq<bool> = Seq::empty();
        assert(self@.pads =~= before + (lead + io::sample_bits(seen)));
        while remaining > 0
            invariant
                remaining <= cycles,
                seen.len() == cycles - remaining,
                lead == seq![PadOp::Begin, PadOp::Input, PadOp::ClockOutput],
                self@.pads == before + (lead + io::sample_bits(seen)),
                self@.steps == released.steps,
                self@.accesses == released.accesses,
                self@.apart == released.apart,
                self@.framing == released.framing,
                self@.selected is None,
                !self@.csw,
            decreases remaining,
        {
            let burst: u8 = if remaining < MAX_BURST_BITS as u16 {
                remaining as u8
            } else {
                MAX_BURST_BITS
            };
            let value: u64 = self.io_mut().read_bits(burst);
            proof {
                let more = bits::bits_of(value as nat, burst as nat);
                bits::lemma_bits_len(value as nat, burst as nat);
                io::lemma_sample_concat(seen, more);
                assert(self@.pads =~= before + (lead + io::sample_bits(seen + more)));
                seen = seen + more;
            }
            remaining -= burst as u16;
        }
        self.io_mut().end_transaction();
        let ghost step = recovery_clocks(seen);
        self.note(Ghost(step));
        let ghost clocked = self@;
        proof {
            assert(self@.pads =~= before + step.ops());
            link::lemma_did_one(released, clocked, step);
        }
        let levels: (bool, bool) = self.released_line_state();
        proof {
            let a = seq![Step::Pads(seq![PadOp::Release])];
            let c = bring_up::looked_at(levels.0, levels.1);
            link::lemma_did_both(old(self)@, released, clocked, a, seq![step]);
            link::lemma_did_both(old(self)@, clocked, self@, a + seq![step], c);
            assert(a + seq![step] =~= seq![
                Step::Pads(seq![PadOp::Release]),
                recovery_clocks(seen),
            ]);
        }
        levels
    }

    /// Drives both pads low and high and reads them back: SWDIO low, SWDIO
    /// high, SWCLK low, SWCLK high.
    pub fn pad_self_test(&mut self) -> (levels: [bool; 4])
        ensures
            final(self)@.did(
                old(self)@,
                seq![
                    Step::Pads(pad_test((levels[0], levels[2]), (levels[1], levels[3]))),
                    Step::Pads(seq![PadOp::Release]),
                ],
            ),
            final(self)@.selected is None,
            !final(self)@.csw,
    {
        self.io_mut().begin_transaction();
        self.io_mut().set_swdio_output();
        self.io_mut().write_swdio(false);
        self.io_mut().write_swclk(false);
        self.io_mut().delay_half_cycle();
        let (swdio_low, swclk_low) = self.io_mut().sample_lines();
        self.io_mut().write_swdio(true);
        self.io_mut().write_swclk(true);
        self.io_mut().delay_half_cycle();
        let (swdio_high, swclk_high) = self.io_mut().sample_lines();
        self.io_mut().end_transaction();
        let ghost step = Step::Pads(pad_test((swdio_low, swclk_low), (swdio_high, swclk_high)));
        self.note(Ghost(step));
        let ghost tested = self@;
        proof {
            assert(self@.pads =~= old(self)@.pads + step.ops());
            link::lemma_did_one(old(self)@, tested, step);
        }
        self.disconnect();
        proof {
            let b = seq![Step::Pads(seq![PadOp::Release])];
            link::lemma_did_both(old(self)@, tested, self@, seq![step], b);
            assert(seq![step] + b =~= seq![step, Step::Pads(seq![PadOp::Release])]);
        }
        [swdio_low, swdio_high, swclk_low, swclk_high]
    }

    /// Hold SWCLK low and drive SWDIO to a known level for a slow physical
    /// continuity measurement. The caller must hold the target in reset and
    /// call `disconnect` when the measurement is complete.
    pub fn diagnostic_drive_swdio(&mut self, high: bool) -> (seen: bool)
        ensures
            final(self)@.did(
                old(self)@,
                seq![
                    Step::Pads(
                        io::uninterrupted(
                            seq![
                                PadOp::Output,
                                PadOp::Clock(false),
                                PadOp::Data(high),
                                PadOp::HalfCycle,
                                PadOp::Sense(seen),
                            ],
                        ),
                    ),
                ],
            ),
            final(self)@.selected == old(self)@.selected,
            final(self)@.csw == old(self)@.csw,
    {
        self.io_mut().begin_transaction();
        self.io_mut().set_swdio_output();
        self.io_mut().write_swclk(false);
        self.io_mut().write_swdio(high);
        self.io_mut().delay_half_cycle();
        let seen: bool = self.io_mut().read_swdio();
        self.io_mut().end_transaction();
        let ghost step = Step::Pads(
            io::uninterrupted(
                seq![
                    PadOp::Output,
                    PadOp::Clock(false),
                    PadOp::Data(high),
                    PadOp::HalfCycle,
                    PadOp::Sense(seen),
                ],
            ),
        );
        self.note(Ghost(step));
        proof {
            assert(self@.pads =~= old(self)@.pads + step.ops());
            link::lemma_did_one(old(self)@, self@, step);
        }
        seen
    }

    /// Drive PA14/SWCLK as BOOT0 while the target is held in reset.
    pub fn diagnostic_drive_boot0(&mut self, high: bool)
        ensures
            final(self)@.did(
                old(self)@,
                seq![
                    Step::Pads(
                        io::uninterrupted(
                            seq![
                                PadOp::Input,
                                PadOp::Clock(high),
                                PadOp::ClockOutput,
                                PadOp::HalfCycle,
                            ],
                        ),
                    ),
                ],
            ),
            final(self)@.selected == old(self)@.selected,
            final(self)@.csw == old(self)@.csw,
    {
        self.io_mut().begin_transaction();
        self.io_mut().set_swdio_input();
        self.io_mut().write_swclk(high);
        self.io_mut().set_swclk_output();
        self.io_mut().delay_half_cycle();
        self.io_mut().end_transaction();
        let ghost step = Step::Pads(
            io::uninterrupted(
                seq![PadOp::Input, PadOp::Clock(high), PadOp::ClockOutput, PadOp::HalfCycle],
            ),
        );
        self.note(Ghost(step));
        proof {
            assert(self@.pads =~= old(self)@.pads + step.ops());
            link::lemma_did_one(old(self)@, self@, step);
        }
    }

    /// Sends a DPIDR read and samples the whole reply as one undecoded field,
    /// or, `split`, as the acknowledgement and the data.
    ///
    /// Reading IDCODE has no side effects, so over-clocking past the data phase
    /// is safe, and it is the only way to see where a backend actually places
    /// the ACK and data bits rather than where it is assumed to.
    pub fn wire_probe(&mut self, split: bool) -> (seen: (u64, u64))
        ensures
            final(self)@.went_on(old(self)@),
            final(self)@.selected is None,
            !final(self)@.csw,
            ({
                let steps = final(self)@.since(old(self)@);
                &&& steps.len() == 5
                &&& steps.take(4) == bring_up::switch_to_swd()
                &&& exists|turn: Seq<bool>| #[trigger]
                    wire_probed(old(self)@.framing, steps[4], split, seen, turn)
                &&& split ==> seen.0 < 8 && seen.1 < 0x2_0000_0000
                &&& !split ==> seen.0 < 0x1_0000_0000_0000 && seen.1 == 0
            }),
    {
        self.line_reset_and_switch();
        let ghost switched = self@;
        let ghost outer = self@.pads;
        self.io_mut().begin_transaction();
        let ghost before = self@.pads;
        wire::ask(self.io_mut(), DP_IDCODE);
        let ghost turn = choose|turn: Seq<bool>| #[trigger]
            wire::asked(before, self@.pads, DP_IDCODE, turn) && self@.framing.leads(turn);
        let seen: (u64, u64) = if split {
            let ack: u64 = self.io_mut().read_bits(3);
            let data: u64 = self.io_mut().read_bits(33);
            (ack, data)
        } else {
            (self.io_mut().read_bits(48), 0)
        };
        self.io_mut().set_swdio_output();
        self.io_mut().write_swdio(true);
        self.io_mut().end_transaction();
        let ghost step = Step::Pads(self@.pads.skip(outer.len() as int));
        self.note(Ghost(step));
        proof {
            let reply = if split {
                io::sample_bits(bits::bits_of(seen.0 as nat, 3)) + io::sample_bits(
                    bits::bits_of(seen.1 as nat, 33),
                )
            } else {
                io::sample_bits(bits::bits_of(seen.0 as nat, 48))
            };
            let ops = wire::request_ops(DP_IDCODE, turn) + reply + seq![PadOp::Output, PadOp::Data(true)];
            assert(self@.pads =~= outer + io::uninterrupted(ops));
            assert(step.ops() =~= io::uninterrupted(ops));
            link::lemma_did_one(switched, self@, step);
            link::lemma_did_both(old(self)@, switched, self@, bring_up::switch_to_swd(), seq![step]);
            let steps = bring_up::switch_to_swd() + seq![step];
            assert(steps.take(4) =~= bring_up::switch_to_swd());
            assert(wire_probed(self@.framing, steps[4], split, seen, turn));
            lemma2_to64();
            lemma2_to64_rest();
        }
        seen
    }

    /// Clocks in `clocks` bits, or as many as the engine's own turnaround.
    fn boundary(&mut self, clocks: Option<u8>)
        requires
            clocks matches Some(count) ==> count <= MAX_BURST_BITS,
        ensures
            exists|bits: Seq<bool>|
                #[trigger] io::sampled(old(self)@.pads, final(self)@.pads, bits) && as_many(
                    old(self)@.framing,
                    clocks,
                    bits,
                ),
            final(self)@.steps == old(self)@.steps,
            final(self)@.accesses == old(self)@.accesses,
            final(self)@.apart == old(self)@.apart,
            final(self)@.framing == old(self)@.framing,
            final(self)@.selected == old(self)@.selected,
            final(self)@.csw == old(self)@.csw,
    {
        match clocks {
            Some(count) => {
                let value: u64 = self.io_mut().read_bits(count);
                proof {
                    let seen = bits::bits_of(value as nat, count as nat);
                    bits::lemma_bits_len(value as nat, count as nat);
                    assert(io::sampled(old(self)@.pads, self@.pads, seen));
                }
            },
            None => {
                let ghost before = self@.pads;
                self.io_mut().trailing_turnaround();
                proof {
                    let turn = choose|turn: Seq<bool>| #[trigger]
                        io::sampled(before, self@.pads, turn) && self@.framing.trails(turn);
                    assert(io::sampled(old(self)@.pads, self@.pads, turn));
                }
            },
        }
    }

    /// Clocks in `count` bits, one at a time.
    fn single_clocks(&mut self, count: u8)
        ensures
            exists|bits: Seq<bool>|
                #[trigger] io::sampled(old(self)@.pads, final(self)@.pads, bits) && bits.len() == count,
            final(self)@.steps == old(self)@.steps,
            final(self)@.accesses == old(self)@.accesses,
            final(self)@.apart == old(self)@.apart,
            final(self)@.framing == old(self)@.framing,
            final(self)@.selected == old(self)@.selected,
            final(self)@.csw == old(self)@.csw,
    {
        let ghost start = self@.pads;
        let ghost mut seen: Seq<bool> = Seq::empty();
        let mut made: u8 = 0;
        assert(self@.pads =~= start + io::sample_bits(seen));
        while made < count
            invariant
                made <= count,
                seen.len() == made,
                start == old(self)@.pads,
                io::sampled(start, self@.pads, seen),
                self@.steps == old(self)@.steps,
                self@.accesses == old(self)@.accesses,
                self@.apart == old(self)@.apart,
                self@.framing == old(self)@.framing,
                self@.selected == old(self)@.selected,
                self@.csw == old(self)@.csw,
            decreases count - made,
        {
            let ghost middle = self@.pads;
            let value: u64 = self.io_mut().read_bits(1);
            proof {
                let more = bits::bits_of(value as nat, 1);
                bits::lemma_bits_len(value as nat, 1);
                io::lemma_sampled_twice(start, middle, self@.pads, seen, more);
                seen = seen + more;
            }
            made += 1;
        }
    }

    fn read_with_handover(&mut self, request: u8, after_read: u8) -> (got: (u8, u32))
        ensures
            ({
                let steps = final(self)@.since(old(self)@);
                &&& final(self)@.did(old(self)@, steps)
                &&& steps.len() == 1
                &&& handover_read(old(self)@.framing, steps[0], request, after_read, got.0, got.1)
            }),
            got.0 < 8,
            final(self)@.selected == old(self)@.selected,
            final(self)@.csw == old(self)@.csw,
    {
        let ghost outer = self@.pads;
        self.io_mut().begin_transaction();
        let ghost before = self@.pads;
        wire::ask(self.io_mut(), request);
        let ghost turn = choose|turn: Seq<bool>| #[trigger]
            wire::asked(before, self@.pads, request, turn) && self@.framing.leads(turn);
        let ack: u8 = self.io_mut().read_bits(3) as u8;
        let field: u64 = self.io_mut().read_bits(33);
        let ghost middle = self@.pads;
        self.single_clocks(after_read);
        let ghost after = choose|bits: Seq<bool>|
            #[trigger] io::sampled(middle, self@.pads, bits) && bits.len() == after_read;
        self.io_mut().set_swdio_output();
        self.io_mut().write_swdio(true);
        self.io_mut().end_transaction();
        let ghost step = Step::Pads(self@.pads.skip(outer.len() as int));
        self.note(Ghost(step));
        proof {
            lemma2_to64();
            lemma2_to64_rest();
            let ops = wire::request_ops(request, turn) + io::sample_bits(bits::bits_of(ack as nat, 3))
                + io::sample_bits(bits::bits_of(field as nat, 33)) + io::sample_bits(after) + seq![
                PadOp::Output,
                PadOp::Data(true),
            ];
            assert(self@.pads =~= outer + io::uninterrupted(ops));
            assert(step.ops() =~= io::uninterrupted(ops));
            link::lemma_did_one(old(self)@, self@, step);
            assert(read_by_hand(self@.framing, step, request, ack, field, turn, after));
            assert(after.len() == after_read);
            let word = (field % 0x1_0000_0000) as u32;
            assert(handover_read(self@.framing, step, request, after_read, ack, word));
        }
        (ack, (field % 0x1_0000_0000) as u32)
    }

    fn write_with_handover(&mut self, request: u8, data: u32, before_write: u8) -> (ack: u8)
        ensures
            ({
                let steps = final(self)@.since(old(self)@);
                &&& final(self)@.did(old(self)@, steps)
                &&& steps.len() == 1
                &&& handover_write(
                    old(self)@.framing,
                    steps[0],
                    request,
                    data,
                    before_write,
                    ack,
                )
            }),
            final(self)@.selected == old(self)@.selected,
            final(self)@.csw == old(self)@.csw,
    {
        let ghost outer = self@.pads;
        self.io_mut().begin_transaction();
        let ghost before = self@.pads;
        wire::ask(self.io_mut(), request);
        let ghost turn = choose|turn: Seq<bool>| #[trigger]
            wire::asked(before, self@.pads, request, turn) && self@.framing.leads(turn);
        let ack: u8 = self.io_mut().read_bits(3) as u8;
        let ghost middle = self@.pads;
        self.single_clocks(before_write);
        let ghost clocks = choose|bits: Seq<bool>|
            #[trigger] io::sampled(middle, self@.pads, bits) && bits.len() == before_write;
        self.io_mut().set_swdio_output();
        let odd: bool = bits::parity(data);
        let field: u64 = data as u64 + (if odd { 0x1_0000_0000 } else { 0 });
        self.io_mut().write_bits(field, 33);
        self.io_mut().write_swdio(true);
        self.io_mut().end_transaction();
        let ghost step = Step::Pads(self@.pads.skip(outer.len() as int));
        self.note(Ghost(step));
        proof {
            lemma2_to64();
            io::lemma_data_field(data, odd);
            let ops = wire::request_ops(request, turn) + io::sample_bits(
                bits::bits_of(ack as nat, 3),
            ) + io::sample_bits(clocks) + seq![PadOp::Output] + io::drive_bits(
                io::data_bits(data, odd),
            ) + seq![PadOp::Data(true)];
            assert(self@.pads =~= outer + io::uninterrupted(ops));
            assert(step.ops() =~= io::uninterrupted(ops));
            link::lemma_did_one(old(self)@, self@, step);
            assert(write_by_hand(self@.framing, step, request, data, ack, turn, clocks));
            assert(clocks.len() == before_write);
            assert(handover_write(self@.framing, step, request, data, before_write, ack));
        }
        ack
    }

    /// Runs read, write, read against the DP with an explicit number of
    /// turnaround clocks at each direction handover, and reports CTRL/STAT.
    ///
    /// The write under test targets CTRL/STAT rather than ABORT: ABORT is
    /// accepted without the data-parity check and clears the very error bit
    /// that would reveal a bad data phase, so it cannot detect this at all.
    pub fn handover_probe(&mut self, after_read: u8, before_write: u8) -> (got: (u8, u8, u8, u32))
        ensures
            final(self)@.went_on(old(self)@),
            final(self)@.selected is None,
            !final(self)@.csw,
            ({
                let steps = final(self)@.since(old(self)@);
                &&& steps.len() == 7
                &&& steps.take(4) == bring_up::switch_to_swd()
                &&& handover_acked(old(self)@.framing, steps[4], DP_IDCODE, after_read, got.0)
                &&& handover_write(
                    old(self)@.framing,
                    steps[5],
                    DP_CTRL_STAT_WRITE,
                    POWER_REQUEST,
                    before_write,
                    got.1,
                )
                &&& handover_read(
                    old(self)@.framing,
                    steps[6],
                    DP_CTRL_STAT_READ,
                    after_read,
                    got.2,
                    got.3,
                )
            }),
    {
        let ghost start = self@;
        self.line_reset_and_switch();
        let ghost switched = self@;
        // After a line reset the DP answers nothing but a DPIDR read.
        let (first_ack, identity) = self.read_with_handover(DP_IDCODE, after_read);
        let ghost one = self@;
        let ghost a = self@.since(switched);
        let second_ack: u8 = self.write_with_handover(
            DP_CTRL_STAT_WRITE,
            POWER_REQUEST,
            before_write,
        );
        let ghost two = self@;
        let ghost b = self@.since(one);
        let (third_ack, status) = self.read_with_handover(DP_CTRL_STAT_READ, after_read);
        proof {
            let c = self@.since(two);
            link::lemma_did_both(start, switched, one, bring_up::switch_to_swd(), a);
            link::lemma_did_both(start, one, two, bring_up::switch_to_swd() + a, b);
            link::lemma_did_both(start, two, self@, bring_up::switch_to_swd() + a + b, c);
            let steps = self@.since(start);
            assert(steps =~= bring_up::switch_to_swd() + a + b + c);
            assert(steps.take(4) =~= bring_up::switch_to_swd());
            assert(steps[4] == a[0] && steps[5] == b[0] && steps[6] == c[0]);
            assert(handover_read(
                self@.framing,
                steps[4],
                DP_IDCODE,
                after_read,
                first_ack,
                identity,
            ));
            assert(handover_acked(self@.framing, steps[4], DP_IDCODE, after_read, first_ack));
        }
        (first_ack, second_ack, third_ack, status)
    }

    /// Brings the DP up, then performs exactly one AP write with no retry,
    /// reporting the ACK of the identity read, the raw ACK of the write, the
    /// TAR that the target then holds, and CTRL/STAT after the write.
    ///
    /// Distinguishes the two ways WDATAERR can arise: a bad data phase, or a
    /// write the DP accepted and then discarded. A retry loop hides the
    /// difference, so this deliberately does not have one.
    pub fn ap_write_probe(&mut self, value: u32) -> (got: (u8, u8, u32, u32))
        ensures
            final(self)@.went_on(old(self)@),
            final(self)@.selected is None,
            !final(self)@.csw,
            ap_write_probed(
                old(self)@.framing,
                final(self)@.since(old(self)@),
                value,
                None,
                None,
                got,
            ),
    {
        self.ap_write_handover_probe(value, None, None)
    }

    /// As `ap_write_probe`, but with the read-to-write boundary parameterised.
    ///
    /// `after_read` replaces the clocks the engine would issue after a read's
    /// data phase, and `before_write` those between a write's ACK and its data
    /// phase. `None` leaves the engine's own choice in place.
    ///
    /// The write goes to TAR rather than CSW: it is fully readable, so whatever
    /// the target actually received can be recovered over the read path.
    pub fn ap_write_handover_probe(
        &mut self,
        value: u32,
        after_read: Option<u8>,
        before_write: Option<u8>,
    ) -> (got: (u8, u8, u32, u32))
        requires
            after_read matches Some(count) ==> count <= MAX_BURST_BITS,
            before_write matches Some(count) ==> count <= MAX_BURST_BITS,
        ensures
            final(self)@.went_on(old(self)@),
            final(self)@.selected is None,
            !final(self)@.csw,
            ap_write_probed(
                old(self)@.framing,
                final(self)@.since(old(self)@),
                value,
                after_read,
                before_write,
                got,
            ),
    {
        let ghost start = self@;
        let dpidr_ack: u8 = self.bring_up_once();
        let ghost one = self@;
        let ghost a = self@.since(start);
        self.await_power_once();
        let ghost two = self@;
        let ghost b = self@.since(one);
        self.read_at_boundary(DP_CTRL_STAT_READ, after_read);
        let ghost three = self@;
        let ghost c = self@.since(two);
        let write_ack: u8 = self.write_at_boundary(AP_TAR, value, before_write);
        let ghost four = self@;
        let ghost d = self@.since(three);
        let (after, readback) = self.read_back_once();
        proof {
            let e = self@.since(four);
            link::lemma_did_both(start, one, two, a, b);
            link::lemma_did_both(start, two, three, a + b, c);
            link::lemma_did_both(start, three, four, a + b + c, d);
            link::lemma_did_both(start, four, self@, a + b + c + d, e);
            let steps = self@.since(start);
            let n = 8 + b.len() as int;
            assert(steps =~= a + b + c + d + e);
            assert(steps.take(4) =~= a.take(4));
            assert(steps.subrange(8, n) =~= b);
            assert(steps[4] == a[4] && steps[5] == a[5] && steps[6] == a[6] && steps[7] == a[7]);
            assert(steps[n] == c[0]);
            assert(steps[n + 1] == d[0]);
            assert(steps[n + 2] == e[0] && steps[n + 3] == e[1]);
            assert(steps[n + 4] == e[2] && steps[n + 5] == e[3]);
        }
        (dpidr_ack, write_ack, readback, after)
    }

    fn bring_up_once(&mut self) -> (ack: u8)
        ensures
            ({
                let steps = final(self)@.since(old(self)@);
                &&& final(self)@.did(old(self)@, steps)
                &&& steps.len() == 8
                &&& steps.take(4) == bring_up::switch_to_swd()
                &&& steps[4].tries_once(DP_IDCODE, 0)
                &&& steps[5].tries_once(DP_ABORT, ABORT_ALL)
                &&& steps[6].tries_once(DP_SELECT, 0)
                &&& steps[7].tries_once(DP_CTRL_STAT_WRITE, POWER_REQUEST)
                &&& ack == steps[4].ack_got()
            }),
            final(self)@.selected is None,
            !final(self)@.csw,
    {
        let ghost start = self@;
        self.line_reset_and_switch();
        let ghost zero = self@;
        let ghost z = bring_up::switch_to_swd();
        let (ack, _) = self.once(DP_IDCODE, 0);
        let ghost one = self@;
        let ghost a = self@.since(zero);
        let _ = self.once(DP_ABORT, ABORT_ALL);
        let ghost two = self@;
        let ghost b = self@.since(one);
        let _ = self.once(DP_SELECT, 0);
        let ghost three = self@;
        let ghost c = self@.since(two);
        let _ = self.once(DP_CTRL_STAT_WRITE, POWER_REQUEST);
        proof {
            let d = self@.since(three);
            link::lemma_did_both(start, zero, one, z, a);
            link::lemma_did_both(start, one, two, z + a, b);
            link::lemma_did_both(start, two, three, z + a + b, c);
            link::lemma_did_both(start, three, self@, z + a + b + c, d);
            let steps = self@.since(start);
            assert(steps =~= z + a + b + c + d);
            assert(steps.take(4) =~= z);
            assert(steps[4] == a[0] && steps[5] == b[0] && steps[6] == c[0] && steps[7] == d[0]);
        }
        ack
    }

    fn await_power_once(&mut self)
        ensures
            final(self)@.went_on(old(self)@),
            power_tried(final(self)@.since(old(self)@), POWER_POLLS as nat),
            final(self)@.selected == old(self)@.selected,
            final(self)@.csw == old(self)@.csw,
    {
        let ghost start = self@;
        let ghost mut steps: Seq<Step> = Seq::empty();
        let mut polls: u32 = 0;
        proof {
            link::lemma_did_nothing(self@);
            assert forall|rest: Seq<Step>| #[trigger]
                power_tried(steps + rest, POWER_POLLS as nat) == power_tried(
                rest,
                POWER_POLLS as nat,
            ) by {
                assert(steps + rest =~= rest);
            }
        }
        while polls < POWER_POLLS
            invariant
                polls <= POWER_POLLS,
                start == old(self)@,
                self@.did(start, steps),
                self@.since(start) == steps,
                self@.selected == start.selected,
                self@.csw == start.csw,
                forall|rest: Seq<Step>| #[trigger]
                    power_tried(steps + rest, POWER_POLLS as nat) == power_tried(
                        rest,
                        (POWER_POLLS - polls) as nat,
                    ),
            decreases POWER_POLLS - polls,
        {
            let ghost middle = self@;
            let (_, status) = self.once(DP_CTRL_STAT_READ, 0);
            let ghost seen = self@;
            let ghost a = self@.since(middle);
            proof {
                link::lemma_did_both(start, middle, seen, steps, a);
            }
            if status & POWER_ACK == POWER_ACK {
                return;
            }
            self.pause(1);
            proof {
                let b = seq![Step::Pads(seq![PadOp::DelayMs(1)])];
                link::lemma_did_both(start, seen, self@, steps + a, b);
                let left = (POWER_POLLS - polls) as nat;
                let longer = steps + a + b;
                assert forall|rest: Seq<Step>| #[trigger]
                    power_tried(longer + rest, POWER_POLLS as nat) == power_tried(
                    rest,
                    (left - 1) as nat,
                ) by {
                    let inner = a + b + rest;
                    assert(longer + rest =~= steps + inner);
                    assert(inner[0] == a[0] && inner[1] == b[0]);
                    assert(inner.skip(2) =~= rest);
                }
                steps = longer;
            }
            polls += 1;
        }
        proof {
            assert(steps + Seq::<Step>::empty() =~= steps);
            assert(power_tried(steps + Seq::<Step>::empty(), POWER_POLLS as nat));
        }
    }

    fn read_at_boundary(&mut self, request: u8, clocks: Option<u8>)
        requires
            clocks matches Some(count) ==> count <= MAX_BURST_BITS,
        ensures
            ({
                let steps = final(self)@.since(old(self)@);
                &&& final(self)@.did(old(self)@, steps)
                &&& steps.len() == 1
                &&& boundary_read(old(self)@.framing, steps[0], request, clocks)
            }),
            final(self)@.selected == old(self)@.selected,
            final(self)@.csw == old(self)@.csw,
    {
        let ghost outer = self@.pads;
        self.io_mut().begin_transaction();
        let ghost before = self@.pads;
        wire::ask(self.io_mut(), request);
        let ghost turn = choose|turn: Seq<bool>| #[trigger]
            wire::asked(before, self@.pads, request, turn) && self@.framing.leads(turn);
        let ack: u8 = self.io_mut().read_bits(3) as u8;
        let field: u64 = self.io_mut().read_bits(33);
        let ghost middle = self@.pads;
        self.boundary(clocks);
        let ghost after = choose|bits: Seq<bool>|
            #[trigger] io::sampled(middle, self@.pads, bits) && as_many(
                self@.framing,
                clocks,
                bits,
            );
        self.io_mut().set_swdio_output();
        self.io_mut().write_swdio(true);
        self.io_mut().end_transaction();
        let ghost step = Step::Pads(self@.pads.skip(outer.len() as int));
        self.note(Ghost(step));
        proof {
            lemma2_to64();
            lemma2_to64_rest();
            let ops = wire::request_ops(request, turn) + io::sample_bits(
                bits::bits_of(ack as nat, 3),
            ) + io::sample_bits(bits::bits_of(field as nat, 33)) + io::sample_bits(after) + seq![
                PadOp::Output,
                PadOp::Data(true),
            ];
            assert(self@.pads =~= outer + io::uninterrupted(ops));
            assert(step.ops() =~= io::uninterrupted(ops));
            link::lemma_did_one(old(self)@, self@, step);
            assert(read_by_hand(self@.framing, step, request, ack, field, turn, after));
            assert(boundary_read(self@.framing, step, request, clocks));
        }
    }

    fn write_at_boundary(&mut self, request: u8, data: u32, clocks: Option<u8>) -> (ack: u8)
        requires
            clocks matches Some(count) ==> count <= MAX_BURST_BITS,
        ensures
            ({
                let steps = final(self)@.since(old(self)@);
                &&& final(self)@.did(old(self)@, steps)
                &&& steps.len() == 1
                &&& boundary_write(old(self)@.framing, steps[0], request, data, clocks, ack)
            }),
            final(self)@.selected == old(self)@.selected,
            final(self)@.csw == old(self)@.csw,
    {
        let ghost outer = self@.pads;
        self.io_mut().begin_transaction();
        let ghost before = self@.pads;
        wire::ask(self.io_mut(), request);
        let ghost turn = choose|turn: Seq<bool>| #[trigger]
            wire::asked(before, self@.pads, request, turn) && self@.framing.leads(turn);
        let ack: u8 = self.io_mut().read_bits(3) as u8;
        let ghost middle = self@.pads;
        self.boundary(clocks);
        let ghost handed = choose|bits: Seq<bool>|
            #[trigger] io::sampled(middle, self@.pads, bits) && as_many(
                self@.framing,
                clocks,
                bits,
            );
        self.io_mut().set_swdio_output();
        let odd: bool = bits::parity(data);
        let field: u64 = data as u64 + (if odd { 0x1_0000_0000 } else { 0 });
        self.io_mut().write_bits(field, 33);
        self.io_mut().write_swdio(true);
        self.io_mut().end_transaction();
        let ghost step = Step::Pads(self@.pads.skip(outer.len() as int));
        self.note(Ghost(step));
        proof {
            lemma2_to64();
            io::lemma_data_field(data, odd);
            let ops = wire::request_ops(request, turn) + io::sample_bits(
                bits::bits_of(ack as nat, 3),
            ) + io::sample_bits(handed) + seq![PadOp::Output] + io::drive_bits(
                io::data_bits(data, odd),
            ) + seq![PadOp::Data(true)];
            assert(self@.pads =~= outer + io::uninterrupted(ops));
            assert(step.ops() =~= io::uninterrupted(ops));
            link::lemma_did_one(old(self)@, self@, step);
            assert(write_by_hand(self@.framing, step, request, data, ack, turn, handed));
            assert(boundary_write(self@.framing, step, request, data, clocks, ack));
        }
        ack
    }

    /// CTRL/STAT, which still answers while a sticky error stands, and then,
    /// with the error cleared, the TAR that the target holds.
    fn read_back_once(&mut self) -> (got: (u32, u32))
        ensures
            ({
                let steps = final(self)@.since(old(self)@);
                &&& final(self)@.did(old(self)@, steps)
                &&& steps.len() == 4
                &&& steps[0].tries_once(DP_CTRL_STAT_READ, 0)
                &&& steps[1].tries_once(DP_ABORT, ABORT_ALL)
                &&& steps[2].tries_once(AP_TAR_READ, 0)
                &&& steps[3].tries_once(DP_RDBUFF, 0)
                &&& got.0 == steps[0].word_got()
                &&& got.1 == steps[3].word_got()
            }),
            final(self)@.selected == old(self)@.selected,
            final(self)@.csw == old(self)@.csw,
    {
        let ghost start = self@;
        let (_, after) = self.once(DP_CTRL_STAT_READ, 0);
        let ghost one = self@;
        let ghost a = self@.since(start);
        let _ = self.once(DP_ABORT, ABORT_ALL);
        let ghost two = self@;
        let ghost b = self@.since(one);
        let _ = self.once(AP_TAR_READ, 0);
        let ghost three = self@;
        let ghost c = self@.since(two);
        let (_, readback) = self.once(DP_RDBUFF, 0);
        proof {
            let d = self@.since(three);
            link::lemma_did_both(start, one, two, a, b);
            link::lemma_did_both(start, two, three, a + b, c);
            link::lemma_did_both(start, three, self@, a + b + c, d);
            let steps = self@.since(start);
            assert(steps =~= a + b + c + d);
            assert(steps[0] == a[0] && steps[1] == b[0] && steps[2] == c[0] && steps[3] == d[0]);
        }
        (after, readback)
    }
}

} // verus!
