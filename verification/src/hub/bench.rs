//! The commands for the bench, from the byte that asks for them to the reply.

use super::board;
use super::flows;
use super::job::{self, Action, Event, HubState, Job, Turn};
use super::laws;
use super::radio::WifiControl;
use super::request::{Request, Target};
use super::resume;
use super::wire;
use crate::bytes;
use crate::frame::Command;
use crate::swd;
use crate::swd::bring_up;
use crate::swd::io;
use crate::swd::link::{self, Step};
use crate::swd::probe;
use crate::swd::{Error, PadOp};
use vstd::prelude::*;

verus! {

/// The operations on the pads between two states of the link.
pub open spec fn ops_between(before: HubState, after: HubState) -> Seq<PadOp> {
    after.link->0.pads.skip(before.link->0.pads.len() as int)
}

/// SWDIO driven for a look with a meter: the multiplexer is put in its passive
/// position and reset is held first; SWCLK is low, SWDIO is at the level that
/// the payload's byte asks for, and the reply is the level that is seen there.
#[verifier::spinoff_prover]
#[verifier::rlimit(80)]
pub proof fn law_swdio_is_driven_as_told(
    before: HubState,
    pins: [u8; 7],
    payload: Seq<u8>,
    control: WifiControl,
    parsed: Result<Request, Error>,
    s0: HubState,
    t0: Turn,
    s1: HubState,
    t1: Turn,
    s2: HubState,
    t2: Turn,
)
    requires
        payload.len() == 1,
        laws::does(before, pins, Command::DiagnosticSwdio, payload, control, s0, t0, parsed),
        flows::went_on_with(s0, t0, Event::Done, s1, t1, control, control),
        flows::went_on_with(s1, t1, Event::Done, s2, t2, control, control),
    ensures
        flows::asks(t0, Action::Select { target: Target::Stm32, settle_ms: 5 }),
        flows::asks(t1, Action::Reset { held: true, settle_ms: 0 }),
        t2 matches Turn::Answer(Ok(reply)) && {
            &&& reply@.len() == 1 && reply@[0] <= 1
            &&& ops_between(s1, s2) == seq![
                PadOp::Begin,
                PadOp::Output,
                PadOp::Clock(false),
                PadOp::Data(payload[0] != 0),
                PadOp::HalfCycle,
                PadOp::Sense(reply@[0] == 1),
                PadOp::End,
            ]
        },
        s2.reset_held,
{
    let high = payload[0] != 0;
    let here = board::with_reset(s1, true);
    let seen = choose|seen: bool| #[trigger] resume::drove(here, s2, t2, high, seen);
    let step = Step::Pads(
        io::uninterrupted(
            seq![
                PadOp::Output,
                PadOp::Clock(false),
                PadOp::Data(high),
                PadOp::HalfCycle,
                PadOp::Sense(seen),
            ],
        ),
    );
    swd::laws::lemma_steps_ops_one(step);
    assert(ops_between(s1, s2) =~= step.ops());
    assert(step.ops() =~= seq![
        PadOp::Begin,
        PadOp::Output,
        PadOp::Clock(false),
        PadOp::Data(high),
        PadOp::HalfCycle,
        PadOp::Sense(seen),
        PadOp::End,
    ]);
}

/// A parked target is given as many clocks as the payload's two bytes say, 128
/// without them, with nothing driven into SWDIO; both lines are then let go of
/// and looked at, and the reply is what they show.
#[verifier::spinoff_prover]
#[verifier::rlimit(80)]
pub proof fn law_a_parked_target_gets_its_clocks(
    before: HubState,
    pins: [u8; 7],
    payload: Seq<u8>,
    control: WifiControl,
    parsed: Result<Request, Error>,
    s0: HubState,
    t0: Turn,
    s1: HubState,
    t1: Turn,
)
    requires
        payload.len() == 0 || payload.len() == 2,
        laws::does(before, pins, Command::RecoverLine, payload, control, s0, t0, parsed),
        flows::went_on_with(s0, t0, Event::Done, s1, t1, control, control),
    ensures
        flows::asks(t0, Action::Select { target: Target::Stm32, settle_ms: 5 }),
        t1 matches Turn::Answer(Ok(reply)) && reply@.len() == 2 && reply@[0] <= 1 && reply@[1] <= 1
            && exists|seen: Seq<bool>|
            {
                &&& seen.len() == (if payload.len() == 0 {
                    128int
                } else {
                    payload[0] + 256 * payload[1]
                })
                &&& ops_between(s0, s1) == seq![
                    PadOp::Release,
                    PadOp::Begin,
                    PadOp::Input,
                    PadOp::ClockOutput,
                ] + #[trigger] io::sample_bits(seen) + seq![
                    PadOp::End,
                    PadOp::Release,
                    PadOp::Lines(reply@[0] == 1, reply@[1] == 1),
                ]
            },
{
    let here = board::passive(s0);
    let cycles = parsed->Ok_0->RecoverLine_cycles;
    let (seen, swdio, swclk) = choose|seen: Seq<bool>, swdio: bool, swclk: bool| #[trigger]
        resume::freed(here, s1, t1, cycles, seen, swdio, swclk);
    lemma_recovering(seen, swdio, swclk);
    assert(ops_between(s0, s1) =~= link::steps_ops(job::recovering(seen, swdio, swclk)));
}

proof fn lemma_recovering(seen: Seq<bool>, swdio: bool, swclk: bool)
    ensures
        link::steps_ops(job::recovering(seen, swdio, swclk)) == seq![
            PadOp::Release,
            PadOp::Begin,
            PadOp::Input,
            PadOp::ClockOutput,
        ] + io::sample_bits(seen) + seq![PadOp::End, PadOp::Release, PadOp::Lines(swdio, swclk)],
{
    let steps = job::recovering(seen, swdio, swclk);
    let clocks = probe::recovery_clocks(seen);
    assert(steps =~= seq![
        Step::Pads(seq![PadOp::Release]),
        clocks,
        Step::Pads(seq![PadOp::Release]),
        Step::Pads(seq![PadOp::Lines(swdio, swclk)]),
    ]);
    let (one, two, three) = (steps.skip(1), steps.skip(1).skip(1), steps.skip(1).skip(1).skip(1));
    swd::laws::lemma_steps_ops_first(steps);
    swd::laws::lemma_steps_ops_first(one);
    swd::laws::lemma_steps_ops_first(two);
    assert(three =~= seq![steps[3]]);
    swd::laws::lemma_steps_ops_one(steps[3]);
    assert(one[0] == clocks);
    assert(two[0] == steps[2]);
    assert(link::steps_ops(steps) =~= seq![
        PadOp::Release,
        PadOp::Begin,
        PadOp::Input,
        PadOp::ClockOutput,
    ] + io::sample_bits(seen) + seq![PadOp::End, PadOp::Release, PadOp::Lines(swdio, swclk)]);
}

/// An attach that finds SWDIO low once more gives the target 128 clocks, looks
/// again, and only where SWDIO is then high is it attached.
pub proof fn law_an_attach_recovers_with_128_clocks(
    before: HubState,
    after: HubState,
    turn: Turn,
    seen: Seq<bool>,
    swdio: bool,
    swclk: bool,
)
    requires
        board::recovered_after(before, after, turn, Seq::empty(), seen, swdio, swclk),
    ensures
        seen.len() == 128,
        swdio ==> after.attached && flows::well(turn),
        !swdio ==> after.attached == before.attached && job::refused(turn, Error::LineHeldLow),
        !swdio ==> ops_between(before, after) == seq![
            PadOp::Release,
            PadOp::Begin,
            PadOp::Input,
            PadOp::ClockOutput,
        ] + io::sample_bits(seen) + seq![PadOp::End, PadOp::Release, PadOp::Lines(false, swclk)],
{
    lemma_recovering(seen, swdio, swclk);
    let steps = job::recovering(seen, swdio, swclk);
    assert(Seq::<Step>::empty() + steps =~= steps);
    if !swdio {
        assert(ops_between(before, after) =~= link::steps_ops(steps));
    }
}

/// A recovery probe, while the board does as it is told: the multiplexer is put
/// in its passive position, reset is held, the line is reset and switched with
/// it held, reset is let go of, and the port is asked only after as many
/// microseconds as the payload's two bytes say, 1000 without them; reset is let
/// go of once more before the reply.
#[verifier::spinoff_prover]
#[verifier::rlimit(80)]
pub proof fn law_a_recovery_probe_goes_step_by_step(
    before: HubState,
    pins: [u8; 7],
    payload: Seq<u8>,
    control: WifiControl,
    parsed: Result<Request, Error>,
    s0: HubState,
    t0: Turn,
    s1: HubState,
    t1: Turn,
    s2: HubState,
    t2: Turn,
    s3: HubState,
    t3: Turn,
    s4: HubState,
    t4: Turn,
)
    requires
        payload.len() == 0 || payload.len() == 2,
        laws::does(before, pins, Command::RecoveryProbe, payload, control, s0, t0, parsed),
        flows::went_on_with(s0, t0, Event::Done, s1, t1, control, control),
        flows::went_on_with(s1, t1, Event::Done, s2, t2, control, control),
        flows::went_on_with(s2, t2, Event::Done, s3, t3, control, control),
        flows::went_on_with(s3, t3, Event::Done, s4, t4, control, control),
    ensures
        flows::asks(t0, Action::Select { target: Target::Stm32, settle_ms: 5 }),
        flows::asks(t1, Action::Reset { held: true, settle_ms: 10 }),
        flows::asks(t2, Action::Reset { held: false, settle_ms: 0 }),
        t3 matches Turn::Ask(Action::DelayUs { delay_us }, _) && delay_us == (if payload.len() == 0 {
            1000int
        } else {
            payload[0] + 256 * payload[1]
        }),
        flows::asks(t4, Action::Reset { held: false, settle_ms: 0 }),
        s1.link == s0.link,
        s2.reset_held && !s3.reset_held,
        s3.link == s2.link,
        s2.link->0.since(s1.link->0) == bring_up::switch_to_swd(),
{
    assert(s2.link->0.since(s1.link->0) =~= bring_up::switch_to_swd());
}

/// The first half of telling both states of the reset line, while the board does
/// as it is told: it is held for ten milliseconds, both lines are let go of and
/// looked at, the reset line is read and then let go of for as long; what was
/// seen is kept.
#[verifier::spinoff_prover]
#[verifier::rlimit(80)]
pub proof fn law_a_held_reset_is_looked_at(
    before: HubState,
    pins: [u8; 7],
    payload: Seq<u8>,
    control: WifiControl,
    parsed: Result<Request, Error>,
    s0: HubState,
    t0: Turn,
    s1: HubState,
    t1: Turn,
    s2: HubState,
    t2: Turn,
    low: bool,
    s3: HubState,
    t3: Turn,
)
    requires
        laws::does(before, pins, Command::ResetLineState, payload, control, s0, t0, parsed),
        flows::went_on_with(s0, t0, Event::Done, s1, t1, control, control),
        flows::went_on_with(s1, t1, Event::Done, s2, t2, control, control),
        flows::went_on_with(s2, t2, Event::Level(low), s3, t3, control, control),
    ensures
        flows::asks(t0, Action::Select { target: Target::Stm32, settle_ms: 5 }),
        flows::asks(t1, Action::Reset { held: true, settle_ms: 10 }),
        flows::asks(t2, Action::ReadReset),
        flows::asks(t3, Action::Reset { held: false, settle_ms: 10 }),
        t3 matches Turn::Ask(_, Job::BothFreed { before: seen }) && {
            &&& ops_between(s1, s2) == seq![PadOp::Release, PadOp::Lines(seen@[0], seen@[1])]
            &&& seen@[2] == low
        },
        s2.reset_held,
{
    let held = board::with_reset(s1, true);
    let (d, c) = choose|d: bool, c: bool| #[trigger]
        resume::looked_then(held, s2, t2, d, c, Job::BothHeldReset { swdio: d, swclk: c });
    lemma_look(held, s2, t2, d, c, Job::BothHeldReset { swdio: d, swclk: c });
}

/// The second half: the same look with reset let go of, and a reply of what was
/// seen before and then of what is seen now, SWDIO, SWCLK and reset each time.
#[verifier::spinoff_prover]
#[verifier::rlimit(80)]
pub proof fn law_both_states_of_reset_are_told(
    control: WifiControl,
    seen: [bool; 3],
    s3: HubState,
    t3: Turn,
    s4: HubState,
    t4: Turn,
    high: bool,
    s5: HubState,
    t5: Turn,
)
    requires
        s3.link is Some,
        t3 matches Turn::Ask(_, job) && job == (Job::BothFreed { before: seen }),
        flows::went_on_with(s3, t3, Event::Done, s4, t4, control, control),
        flows::went_on_with(s4, t4, Event::Level(high), s5, t5, control, control),
    ensures
        flows::asks(t4, Action::ReadReset),
        t5 matches Turn::Answer(Ok(reply)) && {
            &&& reply@.len() == 6
            &&& forall|i: int| 0 <= i < 6 ==> (#[trigger] reply@[i]) <= 1
            &&& (reply@[0] == 1) == seen@[0] && (reply@[1] == 1) == seen@[1] && (reply@[2] == 1)
                == seen@[2]
            &&& ops_between(s3, s4) == seq![
                PadOp::Release,
                PadOp::Lines(reply@[3] == 1, reply@[4] == 1),
            ]
            &&& (reply@[5] == 1) == high
        },
        !s4.reset_held,
        !s5.attached,
{
    let freed = board::with_reset(s3, false);
    let (e, f) = choose|e: bool, f: bool| #[trigger]
        resume::looked_then(
            freed,
            s4,
            t4,
            e,
            f,
            Job::BothFreedReset { before: seen, swdio: e, swclk: f },
        );
    lemma_look(freed, s4, t4, e, f, Job::BothFreedReset { before: seen, swdio: e, swclk: f });
}

proof fn lemma_look(
    before: HubState,
    after: HubState,
    turn: Turn,
    swdio: bool,
    swclk: bool,
    next: Job,
)
    requires
        resume::looked_then(before, after, turn, swdio, swclk, next),
    ensures
        ops_between(before, after) == seq![PadOp::Release, PadOp::Lines(swdio, swclk)],
{
    let steps = bring_up::looked_at(swdio, swclk);
    swd::laws::lemma_steps_ops_first(steps);
    assert(steps.skip(1) =~= seq![steps[1]]);
    swd::laws::lemma_steps_ops_one(steps[1]);
    assert(link::steps_ops(steps) =~= seq![PadOp::Release, PadOp::Lines(swdio, swclk)]);
    assert(ops_between(before, after) =~= link::steps_ops(steps));
}

/// A loopback sends the field that the payload spells, as wide as its first byte
/// says, and replies with the field that came back.
#[verifier::spinoff_prover]
#[verifier::rlimit(80)]
pub proof fn law_a_loopback_replies_with_what_came_back(
    before: HubState,
    pins: [u8; 7],
    payload: Seq<u8>,
    pattern: u64,
    control: WifiControl,
    parsed: Result<Request, Error>,
    s0: HubState,
    t0: Turn,
    s1: HubState,
    t1: Turn,
    seen: u64,
    s2: HubState,
    t2: Turn,
)
    requires
        payload.len() == 9,
        1 <= payload[0] <= 64,
        payload.skip(1) == bytes::le64(pattern),
        laws::does(before, pins, Command::SpiLoopback, payload, control, s0, t0, parsed),
        flows::went_on_with(s0, t0, Event::Done, s1, t1, control, control),
        flows::went_on_with(s1, t1, Event::Field(seen), s2, t2, control, control),
    ensures
        flows::asks(t0, Action::Select { target: Target::Stm32, settle_ms: 5 }),
        flows::asks(t1, Action::Loopback { bits: pattern, width: payload[0] }),
        flows::answers(t2, bytes::le64(seen)),
        !s2.attached,
{
    bytes::law_read64_undoes_le64(pattern);
}

/// A profiled read reads the memory and then tells four numbers, the least
/// significant byte first: the cycles that passed, also where the counter
/// wrapped, those spent in the peripheral and in how many transfers, and how
/// many words were read.
#[verifier::spinoff_prover]
#[verifier::rlimit(80)]
pub proof fn law_a_profile_tells_its_cycles(
    before: HubState,
    pins: [u8; 7],
    payload: Seq<u8>,
    address: u32,
    count: u16,
    control: WifiControl,
    parsed: Result<Request, Error>,
    s0: HubState,
    t0: Turn,
    start: u32,
    s1: HubState,
    t1: Turn,
    now: u32,
    run_cycles: u32,
    run_count: u32,
    s2: HubState,
    t2: Turn,
)
    requires
        payload == bytes::le32(address) + bytes::le16(count),
        0 < count <= 1024,
        laws::does(before, pins, Command::Profile, payload, control, s0, t0, parsed),
        flows::went_on_with(s0, t0, Event::Number(start), s1, t1, control, control),
        t1 is Ask,
        flows::went_on_with(
            s1,
            t1,
            Event::Profile { now, run_cycles, run_count },
            s2,
            t2,
            control,
            control,
        ),
    ensures
        flows::asks(t0, Action::StartProfile),
        flows::asks(t1, Action::EndProfile),
        exists|words: Seq<u32>| #[trigger]
            wire::memory_read(s0, s1, address, count as nat, words, Ok(())),
        flows::answers(
            t2,
            bytes::le32(
                (if now >= start {
                    now - start
                } else {
                    now - start + 0x1_0000_0000
                }) as u32,
            ) + bytes::le32(run_cycles) + bytes::le32(run_count) + bytes::le32(count as u32),
        ),
{
    bytes::law_read32_undoes_le32(address);
    bytes::law_read16_undoes_le16(count);
    assert(payload.take(4) =~= bytes::le32(address));
    assert(bytes::read32(payload) == bytes::read32(payload.take(4)));
    assert(payload.skip(4) =~= bytes::le16(count));
}

} // verus!
