//! What is done to the device behind the wire, told by its registers.

use super::board;
use super::job::{self, Action, Event, HubState, Job, Turn};
use super::request::{self, Request, WireTest};
use super::resume;
use super::target::{self, TargetError};
use super::wire;
use crate::bits;
use crate::bytes;
use crate::frame::Command;
use crate::stm32g0;
use crate::swd;
use crate::swd::bring_up;
use crate::swd::io;
use crate::swd::link::{self, LinkView, Step};
use crate::swd::memory::Access;
use crate::swd::probe;
use crate::swd::{Error, PadOp};
use vstd::prelude::*;

verus! {

/// Do the last two accesses let a halted core run and reset it?
pub open spec fn ends_running(accesses: Seq<Access>) -> bool {
    let n = accesses.len() as int;
    &&& n >= 2
    &&& stm32g0::laws::wrote(accesses[n - 2], 0xe000_edf0, 0xa05f_0001)
    &&& stm32g0::laws::wrote(accesses[n - 1], 0xe000_ed0c, 0x05fa_0004)
}

/// Programming the target that the multiplexer points at succeeds, with the
/// identification of its port and its own, only after its core was halted and
/// its whole flash erased, programmed and read back; the core is then let run
/// and reset. A port that does not come up is not worked on. Whatever comes of
/// it, both lines are let go of in the end.
pub proof fn law_a_programmed_target_holds_the_image(
    before: HubState,
    after: HubState,
    image: Seq<u8>,
    result: Result<(u32, u32), TargetError>,
    up: LinkView,
    middle: LinkView,
    brought_up: Result<u32, Error>,
    swdio: bool,
    swclk: bool,
)
    requires
        target::programmed(
            before,
            after,
            image,
            result,
            up,
            middle,
            brought_up,
            swdio,
            swclk,
        ),
        0 < image.len() <= 65536,
    ensures
        ({
            let accesses = middle.accesses.skip(up.accesses.len() as int);
            &&& after.link->0.since(middle) == seq![Step::Pads(seq![PadOp::Release])]
            &&& after.attached == before.attached && after.reset_held == before.reset_held
            &&& result matches Ok((port, device)) ==> {
                &&& brought_up == Ok::<u32, Error>(port)
                &&& holds_and_runs(accesses, image, device)
            }
            &&& result matches Err(TargetError::Wire(error)) ==> brought_up == Err::<u32, Error>(
                error,
            ) && accesses.len() == 0
            &&& result matches Err(TargetError::Device(_)) ==> brought_up is Ok
            &&& result != Err::<(u32, u32), TargetError>(TargetError::NoWire)
        }),
{
    let accesses = middle.accesses.skip(up.accesses.len() as int);
    lemma_let_go(middle, after.link->0);
    if let Ok((_, device)) = result {
        lemma_written(accesses, image, device);
    }
}

/// Was a device programmed with an image and let run, in these accesses?
pub open spec fn holds_and_runs(accesses: Seq<Access>, image: Seq<u8>, device: u32) -> bool {
    &&& ends_running(accesses)
    &&& exists|
        halted: Seq<Access>,
        identified: Seq<Access>,
        unlocked: Seq<Access>,
        erased: Seq<Access>,
        programmed: Seq<Access>,
        verified: Seq<Access>,
    |
        #[trigger] stm32g0::laws::begun_with(accesses, halted, identified, unlocked, device)
            && #[trigger] stm32g0::laws::written_in_order(
            unlocked,
            erased,
            programmed,
            verified,
            image,
        ) && verified.len() >= 2
}

#[verifier::spinoff_prover]
#[verifier::rlimit(60)]
proof fn lemma_written(accesses: Seq<Access>, image: Seq<u8>, device: u32)
    requires
        0 < image.len() <= 65536,
        target::written_of(accesses, image) matches Some((Ok(code), rest)) && code == device
            && rest.len() == 0,
    ensures
        holds_and_runs(accesses, image, device),
{
    let rest = stm32g0::flash_of(accesses, image)->Some_0.1;
    stm32g0::laws::law_a_flash_holds_the_image(accesses, image);
    stm32g0::laws::law_a_reset_runs_and_resets(rest);
    let n = accesses.len() as int;
    assert(rest.len() == 2);
    assert(rest[0] == accesses[n - 2] && rest[1] == accesses[n - 1]);
    let (halted, identified, unlocked, erased, programmed, verified) = choose|
        halted: Seq<Access>,
        identified: Seq<Access>,
        unlocked: Seq<Access>,
        erased: Seq<Access>,
        programmed: Seq<Access>,
        verified: Seq<Access>,
    |
        #[trigger] stm32g0::laws::begun_with(accesses, halted, identified, unlocked, device)
            && #[trigger] stm32g0::laws::written_in_order(
            unlocked,
            erased,
            programmed,
            verified,
            image,
        ) && stm32g0::left_of(verified, rest);
    assert(stm32g0::laws::begun_with(accesses, halted, identified, unlocked, device));
    assert(verified.len() >= 2);
}

/// Identifying the target reads its identification and no more: the device is
/// the one that is programmed here, or it is refused by what it says it is.
pub proof fn law_an_identified_target_is_the_right_one(
    before: HubState,
    after: HubState,
    result: Result<(u32, u32), TargetError>,
    up: LinkView,
    middle: LinkView,
    brought_up: Result<u32, Error>,
    swdio: bool,
    swclk: bool,
)
    requires
        target::identified(before, after, result, up, middle, brought_up, swdio, swclk),
    ensures
        ({
            let accesses = middle.accesses.skip(up.accesses.len() as int);
            &&& after.link->0.since(middle) == seq![Step::Pads(seq![PadOp::Release])]
            &&& after.attached == before.attached && after.reset_held == before.reset_held
            &&& match result {
                Ok((port, device)) => {
                    &&& brought_up == Ok::<u32, Error>(port)
                    &&& accesses == seq![Access::Read(0x4001_5800, Ok(device))]
                    &&& device % 4096 == 0x466
                },
                Err(TargetError::Wire(error)) => brought_up == Err::<u32, Error>(error)
                    && accesses.len() == 0,
                Err(TargetError::Device(stm32g0::Error::InvalidDevice(id))) => {
                    &&& accesses.len() == 1
                    &&& accesses[0] matches Access::Read(address, Ok(code)) && address
                        == 0x4001_5800 && code % 4096 == id && id != 0x466
                },
                Err(TargetError::Device(stm32g0::Error::Transport(error))) => accesses == seq![
                    Access::Read(0x4001_5800, Err(error)),
                ],
                Err(_) => false,
            }
        }),
{
    let accesses = middle.accesses.skip(up.accesses.len() as int);
    lemma_let_go(middle, after.link->0);
    if brought_up is Ok {
        let rest = stm32g0::identify_of(accesses)->Some_0.1;
        assert(accesses.skip(1) == rest);
        assert(accesses =~= seq![accesses[0]]);
    }
}

proof fn lemma_let_go(middle: LinkView, after: LinkView)
    requires
        job::did_afresh(middle, after, job::letting_go()),
    ensures
        after.since(middle) == seq![Step::Pads(seq![PadOp::Release])],
{
    assert(after.since(middle) =~= job::letting_go());
}

/// A recovery probe halts the core of the device, reads the device's
/// identification, and lets the core run again; it tells the port's
/// identification and then the device's, the least significant byte first.
pub proof fn law_a_recovery_probe_examines_the_device(
    before: LinkView,
    middle: LinkView,
    after: LinkView,
    outcome: Result<(u32, u32), Error>,
    turn: Turn,
)
    requires
        board::probed(before, middle, after, outcome),
        board::probe_reply(turn, outcome),
    ensures
        ({
            let accesses = after.accesses.skip(middle.accesses.len() as int);
            match outcome {
                Ok((port, device)) => {
                    &&& bring_up::bring_up(middle.since(before)) == Some(Ok::<u32, Error>(port))
                    &&& stm32g0::laws::wrote(accesses[0], 0xe000_edf0, 0xa05f_0003)
                    &&& accesses.len() >= 5
                    &&& accesses[accesses.len() - 3] == Access::Read(0x4001_5800, Ok(device))
                    &&& accesses[accesses.len() - 4] matches Access::Read(address, Ok(status))
                        && address == 0xe000_edf0 && status & 0x2_0000 != 0
                    &&& device % 4096 == 0x466
                    &&& ends_running(accesses)
                    &&& turn matches Turn::Answer(Ok(reply)) && reply@ == bytes::le32(port)
                        + bytes::le32(device)
                },
                Err(error) => turn matches Turn::Answer(Err(told)) && told == error,
            }
        }),
{
    let accesses = after.accesses.skip(middle.accesses.len() as int);
    if let Ok((port, device)) = outcome {
        let one = stm32g0::halt_of(accesses)->Some_0.1;
        stm32g0::laws::lemma_halt_seen(accesses);
        let two = stm32g0::identify_of(one)->Some_0.1;
        assert(two == one.skip(1));
        stm32g0::laws::law_a_reset_runs_and_resets(two);
        let n = accesses.len() as int;
        assert(two.len() == 2 && one.len() == 3);
        assert(one[0] == accesses[n - 3]);
        assert(one[1] == accesses[n - 2] && one[1] == two[0]);
        assert(one[2] == accesses[n - 1] && one[2] == two[1]);
    }
}

/// A test of the pads drives both lines low and looks at them, then drives both
/// high and looks at them, and lets go of them. It tells how SWDIO looked low
/// and high, and then how SWCLK did.
pub proof fn law_a_pad_test_drives_low_and_high(
    before: HubState,
    middle: HubState,
    asked: Turn,
    after: HubState,
    turn: Turn,
)
    requires
        before.link is Some,
        resume::lines_resumed(before, Job::PadHeld, Event::Done, middle, asked),
        asked matches Turn::Ask(_, job) && resume::lines_resumed(
            middle,
            job,
            Event::Done,
            after,
            turn,
        ),
    ensures
        ({
            let ops = middle.link->0.pads.skip(before.link->0.pads.len() as int);
            &&& asked matches Turn::Ask(action, _) && action == (Action::Reset {
                held: false,
                settle_ms: 0,
            })
            &&& turn matches Turn::Answer(Ok(reply)) && {
                &&& reply@.len() == 4
                &&& forall|i: int| 0 <= i < 4 ==> (#[trigger] reply@[i]) <= 1
                &&& ops.len() == 12
                &&& ops.subrange(1, 10) == seq![
                    PadOp::Output,
                    PadOp::Data(false),
                    PadOp::Clock(false),
                    PadOp::HalfCycle,
                    PadOp::Lines(reply@[0] == 1, reply@[2] == 1),
                    PadOp::Data(true),
                    PadOp::Clock(true),
                    PadOp::HalfCycle,
                    PadOp::Lines(reply@[1] == 1, reply@[3] == 1),
                ]
                &&& ops.last() == PadOp::Release
            }
            &&& !after.attached && !after.reset_held
        }),
{
    let levels = asked->Ask_1->PadFreed_levels;
    let here = board::with_reset(before, true);
    let steps = board::pads_tested(levels);
    assert(job::link_did(here, middle, steps));
    swd::laws::lemma_steps_ops_first(steps);
    swd::laws::lemma_steps_ops_first(steps.skip(1));
    assert(steps.skip(1) =~= seq![steps[1]]);
    assert(steps.skip(1).skip(1) =~= Seq::empty());
    let ops = middle.link->0.pads.skip(before.link->0.pads.len() as int);
    assert(ops =~= link::steps_ops(steps));
    let reply = board::level_bytes(levels);
    assert(ops.subrange(1, 10) =~= seq![
        PadOp::Output,
        PadOp::Data(false),
        PadOp::Clock(false),
        PadOp::HalfCycle,
        PadOp::Lines(reply[0] == 1, reply[2] == 1),
        PadOp::Data(true),
        PadOp::Clock(true),
        PadOp::HalfCycle,
        PadOp::Lines(reply[1] == 1, reply[3] == 1),
    ]);
}

/// A probe of the wire switches the line, asks for the debug port's register 0
/// and samples what comes back: 48 bits at once, or three and then 33. It tells
/// both numbers, eight bytes each, and lets go of the lines.
pub proof fn law_a_wire_probe_tells_what_it_sampled(
    before: HubState,
    after: HubState,
    turn: Turn,
    middle: LinkView,
    split: bool,
    first: u64,
    second: u64,
)
    requires
        wire::wire_done(
            before,
            after,
            turn,
            if split {
                WireTest::Split
            } else {
                WireTest::Whole
            },
            middle,
            first,
            second,
        ),
    ensures
        ({
            let steps = middle.since(before.link->0);
            &&& steps.len() == 5
            &&& steps.take(4) == bring_up::switch_to_swd()
            &&& exists|turn: Seq<bool>|
                steps[4] == Step::Pads(
                    seq![PadOp::Begin] + (#[trigger] swd::wire::request_ops(2, turn) + (if split {
                        io::sample_bits(bits::bits_of(first as nat, 3)) + io::sample_bits(
                            bits::bits_of(second as nat, 33),
                        )
                    } else {
                        io::sample_bits(bits::bits_of(first as nat, 48))
                    }) + seq![PadOp::Output, PadOp::Data(true)]) + seq![PadOp::End],
                )
            &&& split ==> first < 8 && second < 0x2_0000_0000
            &&& !split ==> first < 0x1_0000_0000_0000 && second == 0
            &&& turn matches Turn::Answer(Ok(reply)) && reply@ == bytes::le64(first) + bytes::le64(
                second,
            )
            &&& after.link->0.since(middle) == seq![Step::Pads(seq![PadOp::Release])]
            &&& !after.attached
        }),
{
    lemma_let_go(middle, after.link->0);
    let steps = middle.since(before.link->0);
    let turns = choose|turn: Seq<bool>| #[trigger]
        probe::wire_probed(before.link->0.framing, steps[4], split, (first, second), turn);
    assert(probe::wire_probed(before.link->0.framing, steps[4], split, (first, second), turns));
    let asked = swd::wire::request_ops(2, turns);
}

/// A probe of a write to the access port, by the registers that it asks for in
/// turn: the port is woken, the address register is written between the
/// boundaries under test, and what the target says it holds is read back. It
/// tells the acknowledgement of the port, that of the write, the word that was
/// read back, and the port's status after the write.
pub proof fn law_a_write_probe_tells_what_came_back(
    before: HubState,
    after: HubState,
    turn: Turn,
    value: u32,
    clocks: Option<(u8, u8)>,
    middle: LinkView,
    got: (u8, u8, u32, u32),
)
    requires
        wire::write_probe_done(before, after, turn, value, clocks, middle, got),
    ensures
        ({
            let steps = middle.since(before.link->0);
            let n = steps.len() - 6;
            &&& n >= 8
            &&& steps.take(4) == bring_up::switch_to_swd()
            &&& steps[4].tries_once(2, 0) && steps[5].tries_once(0, 0x1f) && steps[6].tries_once(
                8,
                0,
            ) && steps[7].tries_once(4, 0x5000_0000)
            &&& steps[n + 2].tries_once(6, 0) && steps[n + 3].tries_once(0, 0x1f)
                && steps[n + 4].tries_once(7, 0) && steps[n + 5].tries_once(14, 0)
            &&& probe::boundary_read(
                before.link->0.framing,
                steps[n],
                6,
                match clocks {
                    Some((read, _)) => Some(read),
                    None => None,
                },
            )
            &&& turn matches Turn::Answer(Ok(reply)) && {
                &&& reply@.len() == 10
                &&& reply@[0] == steps[4].ack_got()
                &&& probe::boundary_write(
                    before.link->0.framing,
                    steps[n + 1],
                    5,
                    value,
                    match clocks {
                        Some((_, write)) => Some(write),
                        None => None,
                    },
                    reply@[1],
                )
                &&& reply@.subrange(2, 6) == bytes::le32(steps[n + 5].word_got())
                &&& reply@.subrange(6, 10) == bytes::le32(steps[n + 2].word_got())
            }
            &&& after.link->0.since(middle) == seq![Step::Pads(seq![PadOp::Release])]
            &&& !after.attached
        }),
{
    lemma_let_go(middle, after.link->0);
    let reply = seq![got.0, got.1] + bytes::le32(got.2) + bytes::le32(got.3);
    assert(reply.subrange(2, 6) =~= bytes::le32(got.2));
    assert(reply.subrange(6, 10) =~= bytes::le32(got.3));
}

/// Which probe of the wire a payload asks for, and which write to the access
/// port: without a word it is 0x2300_0052, and two more bytes are the
/// boundaries.
pub proof fn law_a_wire_probe_is_what_was_asked_for(payload: Seq<u8>)
    ensures
        ({
            let asked = request::plain_request(Command::WireProbe, payload);
            let writes = request::plain_request(Command::ApWriteProbe, payload);
            let word = payload[0] + 256 * payload[1] + 65536 * payload[2] + 16777216 * payload[3];
            &&& payload.len() == 0 || payload == seq![0u8] ==> asked == Ok::<Request, Error>(
                Request::WireProbe { test: Some(WireTest::Whole) },
            )
            &&& payload == seq![1u8] ==> asked == Ok::<Request, Error>(
                Request::WireProbe { test: Some(WireTest::Split) },
            )
            &&& payload.len() == 3 && payload[0] == 2 ==> asked == Ok::<Request, Error>(
                Request::WireProbe {
                    test: Some(
                        WireTest::Handover { after_read: payload[1], before_write: payload[2] },
                    ),
                },
            )
            &&& payload.len() == 0 ==> writes == Ok::<Request, Error>(
                Request::ApWriteProbe { value: 0x2300_0052, clocks: None },
            )
            &&& payload.len() == 4 ==> (writes matches Ok(Request::ApWriteProbe { value, clocks })
                && value == word && clocks is None)
            &&& payload.len() == 6 ==> (writes matches Ok(Request::ApWriteProbe { value, clocks })
                && value == word && clocks == Some((payload[4], payload[5])))
        }),
{
}

} // verus!
