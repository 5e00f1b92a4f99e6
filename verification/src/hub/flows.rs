//! Whole commands, from the byte that asks for them to the reply, told by what
//! the board is asked to do and what the target hears.

use super::board;
use super::job::{self, Action, Event, Goal, HubState, Job, Serial, Then, Turn};
use super::laws;
use super::radio::WifiControl;
use super::request::{self, Request, Target};
use super::resume;
use crate::bytes;
use crate::engine::Engine;
use crate::frame::Command;
use crate::swd;
use crate::swd::bring_up;
use crate::swd::link::{self, LinkView, Step};
use crate::swd::probe;
use crate::swd::{Error, PadOp};
use vstd::prelude::*;
use vstd::utf8::*;

verus! {

/// Is an answer nothing but that it went well?
pub open spec fn well(turn: Turn) -> bool {
    turn matches Turn::Answer(Ok(reply)) && reply@.len() == 0
}

/// Is an answer these bytes?
pub open spec fn answers(turn: Turn, reply: Seq<u8>) -> bool {
    turn matches Turn::Answer(Ok(bytes)) && bytes@ == reply
}

/// Is the board asked for this?
pub open spec fn asks(turn: Turn, action: Action) -> bool {
    turn matches Turn::Ask(asked, _) && asked == action
}

/// What a target heard between two states of the link.
pub open spec fn heard(before: HubState, after: HubState) -> Seq<bool> {
    swd::laws::bits_heard(after.link->0.pads.skip(before.link->0.pads.len() as int))
}

/// One more turn of a command: the board reported an event of the job that was
/// asked for.
pub open spec fn went_on_with(
    before: HubState,
    asked: Turn,
    event: Event,
    after: HubState,
    turn: Turn,
    control: WifiControl,
    control_after: WifiControl,
) -> bool {
    asked matches Turn::Ask(_, job) && super::resumed(
        before,
        control,
        job,
        event,
        after,
        control_after,
        turn,
    )
}

/// What the lines showed when they were last let go of and looked at, if that
/// was among these operations.
pub open spec fn last_look(ops: Seq<PadOp>) -> Option<(bool, bool)>
    decreases ops.len(),
{
    if ops.len() == 0 {
        None
    } else {
        match ops.last() {
            PadOp::Lines(swdio, swclk) => Some((swdio, swclk)),
            _ => last_look(ops.drop_last()),
        }
    }
}

proof fn lemma_last_look_on(a: Seq<PadOp>, b: Seq<PadOp>)
    ensures
        last_look(a + b) == (match last_look(b) {
            Some(look) => Some(look),
            None => last_look(a),
        }),
    decreases b.len(),
{
    if b.len() == 0 {
        assert(a + b =~= a);
    } else {
        assert((a + b).drop_last() =~= a + b.drop_last());
        lemma_last_look_on(a, b.drop_last());
    }
}

proof fn lemma_no_look(ops: Seq<PadOp>)
    requires
        forall|i: int| 0 <= i < ops.len() ==> !(#[trigger] ops[i] is Lines),
    ensures
        last_look(ops) is None,
    decreases ops.len(),
{
    if ops.len() > 0 {
        let earlier = ops.drop_last();
        assert(!(ops[ops.len() - 1] is Lines));
        assert forall|i: int| 0 <= i < earlier.len() implies !(#[trigger] earlier[i] is Lines) by {
            assert(earlier[i] == ops[i]);
        }
        lemma_no_look(earlier);
    }
}

proof fn lemma_drive_no_look(bits: Seq<bool>)
    ensures
        forall|i: int|
            0 <= i < swd::io::drive_bits(bits).len() ==> !(#[trigger] swd::io::drive_bits(
                bits,
            )[i] is Lines),
    decreases bits.len(),
{
    if bits.len() > 0 {
        let earlier = swd::io::drive_bits(bits.drop_last());
        let last = swd::io::drive_bit(bits.last());
        lemma_drive_no_look(bits.drop_last());
        assert forall|i: int| 0 <= i < (earlier + last).len() implies !(#[trigger] (earlier
            + last)[i] is Lines) by {
            if i < earlier.len() {
                assert((earlier + last)[i] == earlier[i]);
            } else {
                assert((earlier + last)[i] == last[i - earlier.len()]);
            }
        }
    }
}

/// Clocking bits out is no look at the lines.
proof fn lemma_clocked_no_look(bits: Seq<bool>)
    ensures
        last_look(link::clocked_out(bits).ops()) is None,
{
    let ops = link::clocked_out(bits).ops();
    let body = swd::io::drive_bits(bits);
    lemma_drive_no_look(bits);
    assert forall|i: int| 0 <= i < ops.len() implies !(#[trigger] ops[i] is Lines) by {
        if 2 <= i < ops.len() - 1 {
            assert(ops[i] == body[i - 2]);
        }
    }
    lemma_no_look(ops);
}

proof fn lemma_switch_no_look()
    ensures
        last_look(link::steps_ops(bring_up::switch_to_swd())) is None,
{
    let steps = bring_up::switch_to_swd();
    let (a, b, c) = (steps.skip(1), steps.skip(2), steps.skip(3));
    swd::laws::lemma_steps_ops_first(steps);
    swd::laws::lemma_steps_ops_first(a);
    swd::laws::lemma_steps_ops_first(b);
    assert(a.skip(1) =~= b);
    assert(b.skip(1) =~= c);
    assert(c =~= seq![steps[3]]);
    swd::laws::lemma_steps_ops_one(steps[3]);
    lemma_clocked_no_look(Seq::new(56, |i: int| true));
    lemma_clocked_no_look(crate::bits::bits_of(0xe79e, 16));
    lemma_clocked_no_look(crate::bits::zeros(8));
    lemma_last_look_on(steps[2].ops(), link::steps_ops(c));
    lemma_last_look_on(steps[1].ops(), link::steps_ops(b));
    lemma_last_look_on(steps[0].ops(), link::steps_ops(a));
}

/// Did a target, whatever else it heard before, just hear its line reset and
/// switched to SWD?
pub open spec fn just_switched(before: HubState, after: HubState) -> bool {
    let bits = heard(before, after);
    bits.len() >= 136 && swd::laws::resets_and_switches(bits.skip(bits.len() - 136))
}

proof fn lemma_switched(before: HubState, after: HubState, earlier: Seq<Step>)
    requires
        before.link is Some,
        after.link is Some,
        after.link->0.did(before.link->0, earlier + bring_up::switch_to_swd()),
    ensures
        just_switched(before, after),
        last_look(after.link->0.pads.skip(before.link->0.pads.len() as int)) == last_look(
            link::steps_ops(earlier),
        ),
{
    let switch = bring_up::switch_to_swd();
    let ops = link::steps_ops(earlier + switch);
    assert(after.link->0.pads.skip(before.link->0.pads.len() as int) =~= ops);
    link::lemma_steps_concat(earlier, switch);
    swd::laws::lemma_switch_ends_it(link::steps_ops(earlier));
    lemma_switch_no_look();
    lemma_last_look_on(link::steps_ops(earlier), link::steps_ops(switch));
}

proof fn lemma_looked(swdio: bool, swclk: bool)
    ensures
        last_look(link::steps_ops(bring_up::looked_at(swdio, swclk))) == Some((swdio, swclk)),
{
    let steps = bring_up::looked_at(swdio, swclk);
    swd::laws::lemma_steps_ops_first(steps);
    assert(steps.skip(1) =~= seq![steps[1]]);
    swd::laws::lemma_steps_ops_one(steps[1]);
    lemma_last_look_on(steps[0].ops(), steps[1].ops());
}

proof fn lemma_recovered(earlier: Seq<Step>, seen: Seq<bool>, swdio: bool, swclk: bool)
    ensures
        last_look(link::steps_ops(earlier + job::recovering(seen, swdio, swclk))) == Some(
            (swdio, swclk),
        ),
{
    let looked = bring_up::looked_at(swdio, swclk);
    let clocks = seq![Step::Pads(seq![PadOp::Release]), probe::recovery_clocks(seen)];
    assert(earlier + job::recovering(seen, swdio, swclk) =~= (earlier + clocks) + looked);
    link::lemma_steps_concat(earlier + clocks, looked);
    lemma_looked(swdio, swclk);
    lemma_last_look_on(link::steps_ops(earlier + clocks), link::steps_ops(looked));
}

/// A target counts as attached only where it has just been switched to SWD: the
/// last that it heard is the line reset and the switch, nothing being amiss is
/// the reply, and, unless its reset was held for that, the last look at the
/// released lines showed SWDIO high.
#[verifier::spinoff_prover]
#[verifier::rlimit(80)]
pub proof fn law_attached_means_just_switched(
    before: HubState,
    asked: Turn,
    event: Event,
    after: HubState,
    turn: Turn,
    control: WifiControl,
    control_after: WifiControl,
)
    requires
        went_on_with(before, asked, event, after, turn, control, control_after),
        !before.attached,
        after.attached,
    ensures
        before.link is Some && after.link is Some,
        just_switched(before, after),
        well(turn),
        asked matches Turn::Ask(_, Job::UnderFreed) || ({
            let ops = after.link->0.pads.skip(before.link->0.pads.len() as int);
            last_look(ops) matches Some((swdio, _)) && swdio
        }),
{
    let the_job = asked->Ask_1;
    match the_job {
        Job::Passive(then) => {
            let here = board::passive(before);
            if then == Then::Attach {
                let (swdio, swclk) = choose|swdio: bool, swclk: bool| #[trigger]
                    board::attach_saw(here, after, turn, swdio, swclk);
                lemma_switched(before, after, bring_up::looked_at(swdio, swclk));
                lemma_looked(swdio, swclk);
            }
        },
        Job::AttachReset => {
            let (seen, swdio, swclk) = choose|seen: Seq<bool>, swdio: bool, swclk: bool| #[trigger]
                board::recovered_after(before, after, turn, Seq::empty(), seen, swdio, swclk);
            let steps = Seq::<Step>::empty() + job::recovering(seen, swdio, swclk);
            lemma_switched(before, after, steps);
            lemma_recovered(Seq::empty(), seen, swdio, swclk);
        },
        Job::AttachFreed => {
            let here = board::with_reset(before, false);
            let (swdio, swclk) = choose|swdio: bool, swclk: bool| #[trigger]
                board::attach_saw_again(here, after, turn, swdio, swclk);
            let looked = bring_up::looked_at(swdio, swclk);
            if swdio {
                lemma_switched(before, after, looked);
                lemma_looked(swdio, swclk);
            } else {
                let (seen, data, clock) = choose|seen: Seq<bool>, data: bool, clock: bool| #[trigger]
                    board::recovered_after(here, after, turn, looked, seen, data, clock);
                lemma_switched(before, after, looked + job::recovering(seen, data, clock));
                lemma_recovered(looked, seen, data, clock);
            }
        },
        Job::UnderFreed => {
            lemma_switched(before, after, Seq::empty());
        },
        _ => {},
    }
}

/// Attaching, while the board does as it is told. The multiplexer is put into
/// its passive position first. A target that holds SWDIO high is attached at
/// once. One that does not is reset, where the reset line is seen high, and
/// looked at again; one that is low even then is given a hundred and
/// twenty-eight clocks, and refused if that does not help.
#[verifier::spinoff_prover]
#[verifier::rlimit(80)]
pub proof fn law_an_attach_goes_step_by_step(
    before: HubState,
    pins: [u8; 7],
    payload: Seq<u8>,
    control: WifiControl,
    parsed: Result<Request, Error>,
    s0: HubState,
    t0: Turn,
    s1: HubState,
    t1: Turn,
    s2: HubState,
    t2: Turn,
    s3: HubState,
    t3: Turn,
    s4: HubState,
    t4: Turn,
    level: bool,
)
    requires
        laws::does(before, pins, Command::Attach, payload, control, s0, t0, parsed),
        t0 is Ask ==> went_on_with(s0, t0, Event::Done, s1, t1, control, control),
        t1 is Ask ==> went_on_with(s1, t1, Event::Level(level), s2, t2, control, control),
        t1 is Ask && t2 is Ask ==> went_on_with(s2, t2, Event::Done, s3, t3, control, control),
        t1 is Ask && t2 is Ask && t3 is Ask ==> went_on_with(
            s3,
            t3,
            Event::Done,
            s4,
            t4,
            control,
            control,
        ),
    ensures
        asks(t0, Action::Select { target: Target::Stm32, settle_ms: 5 }),
        s1.selected == Target::Stm32,
        s1.attached ==> well(t1),
        !s1.attached ==> asks(t1, Action::ReadReset) && ({
            let ops = s1.link->0.pads.skip(s0.link->0.pads.len() as int);
            last_look(ops) matches Some((swdio, _)) && !swdio && heard(s0, s1).len() == 0
        }),
        !s1.attached && level ==> {
            &&& asks(t2, Action::Reset { held: true, settle_ms: 10 })
            &&& asks(t3, Action::Reset { held: false, settle_ms: 10 }) && s3.reset_held
            &&& !s4.reset_held
            &&& if s4.attached {
                well(t4)
            } else {
                job::refused(t4, Error::LineHeldLow)
            }
        },
        !s1.attached && !level ==> if s2.attached {
            well(t2)
        } else {
            job::refused(t2, Error::LineHeldLow)
        },
{
    let (swdio, swclk) = choose|swdio: bool, swclk: bool| #[trigger]
        board::attach_saw(board::passive(s0), s1, t1, swdio, swclk);
    if !swdio {
        let looked = bring_up::looked_at(swdio, swclk);
        assert(s1.link->0.pads.skip(s0.link->0.pads.len() as int) =~= link::steps_ops(looked));
        lemma_looked(swdio, swclk);
        swd::laws::lemma_looking_is_not_heard(swdio, swclk);
    }
}

/// Attaching under reset, while the board does as it is told: the multiplexer
/// goes passive, reset is held, the line is reset and switched, reset is let go
/// of for two milliseconds, and the line is reset and switched again. That is
/// the attach.
#[verifier::spinoff_prover]
#[verifier::rlimit(80)]
pub proof fn law_an_attach_under_reset_goes_step_by_step(
    before: HubState,
    pins: [u8; 7],
    payload: Seq<u8>,
    control: WifiControl,
    parsed: Result<Request, Error>,
    s0: HubState,
    t0: Turn,
    s1: HubState,
    t1: Turn,
    s2: HubState,
    t2: Turn,
    s3: HubState,
    t3: Turn,
)
    requires
        laws::does(before, pins, Command::AttachUnderReset, payload, control, s0, t0, parsed),
        went_on_with(s0, t0, Event::Done, s1, t1, control, control),
        went_on_with(s1, t1, Event::Done, s2, t2, control, control),
        went_on_with(s2, t2, Event::Done, s3, t3, control, control),
    ensures
        asks(t0, Action::Select { target: Target::Stm32, settle_ms: 5 }),
        asks(t1, Action::Reset { held: true, settle_ms: 10 }),
        !s1.attached,
        asks(t2, Action::Reset { held: false, settle_ms: 2 }),
        s2.reset_held && just_switched(s1, s2),
        well(t3),
        s3.attached && !s3.reset_held && just_switched(s2, s3),
{
    lemma_none_before(bring_up::switch_to_swd());
    lemma_switched(s1, s2, Seq::empty());
    lemma_switched(s2, s3, Seq::empty());
}

proof fn lemma_none_before(steps: Seq<Step>)
    ensures
        Seq::<Step>::empty() + steps == steps,
{
    assert(Seq::<Step>::empty() + steps =~= steps);
}

/// Moving the reset line, while the board does as it is told: it is held, or let
/// go of, as the command says, and the reply is the level that it then reads.
#[verifier::spinoff_prover]
#[verifier::rlimit(80)]
pub proof fn law_reset_is_moved_as_told(
    before: HubState,
    pins: [u8; 7],
    command: Command,
    payload: Seq<u8>,
    control: WifiControl,
    parsed: Result<Request, Error>,
    s0: HubState,
    t0: Turn,
    s1: HubState,
    t1: Turn,
    s2: HubState,
    t2: Turn,
    level: bool,
)
    requires
        command == Command::ResetAssert || command == Command::ResetRelease,
        laws::does(before, pins, command, payload, control, s0, t0, parsed),
        went_on_with(s0, t0, Event::Done, s1, t1, control, control),
        went_on_with(s1, t1, Event::Level(level), s2, t2, control, control),
    ensures
        asks(t0, Action::Reset { held: command == Command::ResetAssert, settle_ms: 10 }),
        s2 == (HubState { reset_held: command == Command::ResetAssert, ..before }),
        asks(t1, Action::ReadReset),
        answers(t2, seq![if level { 1u8 } else { 0u8 }]),
{
}

/// Looking at the lines: they are let go of and read, and the reply is what they
/// and the reset line showed, one byte each. Nothing is driven.
#[verifier::spinoff_prover]
#[verifier::rlimit(80)]
pub proof fn law_the_lines_are_told_as_they_are(
    before: HubState,
    pins: [u8; 7],
    payload: Seq<u8>,
    control: WifiControl,
    parsed: Result<Request, Error>,
    s0: HubState,
    t0: Turn,
    s1: HubState,
    t1: Turn,
    s2: HubState,
    t2: Turn,
    level: bool,
)
    requires
        laws::does(before, pins, Command::LineState, payload, control, s0, t0, parsed),
        went_on_with(s0, t0, Event::Done, s1, t1, control, control),
        went_on_with(s1, t1, Event::Level(level), s2, t2, control, control),
    ensures
        asks(t0, Action::Select { target: Target::Stm32, settle_ms: 5 }),
        asks(t1, Action::ReadReset),
        heard(s0, s1).len() == 0,
        !s2.attached,
        ({
            let ops = s1.link->0.pads.skip(s0.link->0.pads.len() as int);
            &&& last_look(ops) is Some
            &&& answers(
                t2,
                seq![
                    if last_look(ops)->Some_0.0 { 1u8 } else { 0u8 },
                    if last_look(ops)->Some_0.1 { 1u8 } else { 0u8 },
                    if level { 1u8 } else { 0u8 },
                ],
            )
        }),
{
    let (swdio, swclk) = choose|swdio: bool, swclk: bool| #[trigger]
        resume::looked_then(
            board::passive(s0),
            s1,
            t1,
            swdio,
            swclk,
            Job::LinesReset { swdio, swclk },
        );
    let looked = bring_up::looked_at(swdio, swclk);
    assert(s1.link->0.pads.skip(s0.link->0.pads.len() as int) =~= link::steps_ops(looked));
    lemma_looked(swdio, swclk);
    swd::laws::lemma_looking_is_not_heard(swdio, swclk);
}

/// The wire's clock is set to what the host asks for, and it is told what the
/// clock then is: both as four bytes, the least significant first.
#[verifier::spinoff_prover]
#[verifier::rlimit(80)]
pub proof fn law_the_clock_is_set_as_told(
    before: HubState,
    pins: [u8; 7],
    payload: Seq<u8>,
    control: WifiControl,
    parsed: Result<Request, Error>,
    s0: HubState,
    t0: Turn,
    s1: HubState,
    t1: Turn,
    asked_hz: u32,
    clock_hz: u32,
)
    requires
        laws::does(before, pins, Command::SetSpeed, payload, control, s0, t0, parsed),
        payload.len() == 4,
        laws::number_at(payload, 0, asked_hz),
        went_on_with(s0, t0, Event::Number(clock_hz), s1, t1, control, control),
    ensures
        asks(t0, Action::SetClock { clock_hz: asked_hz }),
        s1 == before,
        t1 matches Turn::Answer(Ok(reply)) && reply@.len() == 4 && laws::number_at(
            reply@,
            0,
            clock_hz,
        ),
{
    laws::lemma_number_at(payload, 0);
    assert(payload.skip(0) =~= payload);
}

/// What the bridge can do is told as the largest block, 1024 words, and the
/// clock, four bytes each.
#[verifier::spinoff_prover]
#[verifier::rlimit(80)]
pub proof fn law_capabilities_are_told(
    before: HubState,
    pins: [u8; 7],
    payload: Seq<u8>,
    control: WifiControl,
    parsed: Result<Request, Error>,
    s0: HubState,
    t0: Turn,
    s1: HubState,
    t1: Turn,
    clock_hz: u32,
)
    requires
        laws::does(before, pins, Command::Capabilities, payload, control, s0, t0, parsed),
        went_on_with(s0, t0, Event::Number(clock_hz), s1, t1, control, control),
    ensures
        asks(t0, Action::ReadClock),
        s1 == before,
        t1 matches Turn::Answer(Ok(reply)) && reply@.len() == 8 && laws::number_at(reply@, 0, 1024)
            && laws::number_at(reply@, 4, clock_hz),
{
}

/// The small commands. The bridge says what it is, answers a ping with nothing,
/// an echo with as many bytes of 0xa5 as asked for, up to 4096, and its pins as
/// they are; a detached target is let go of. Of the engines, 0 is the hardware
/// and 1 the bit-banged one; a pin map of 0 is the usual one and any other the
/// swapped one; either lets go of the target first.
#[verifier::spinoff_prover]
#[verifier::rlimit(80)]
pub proof fn law_the_small_commands_answer(
    before: HubState,
    pins: [u8; 7],
    command: Command,
    payload: Seq<u8>,
    control: WifiControl,
    after: HubState,
    turn: Turn,
    parsed: Result<Request, Error>,
)
    requires
        laws::does(before, pins, command, payload, control, after, turn, parsed),
    ensures
        command == Command::Hello ==> after == before && answers(turn, seq![0x44u8, 0x41, 0x50, 0x31]),
        command == Command::Ping ==> after == before && well(turn),
        command == Command::PinMap ==> after == before && answers(turn, pins@),
        command == Command::Detach ==> !after.attached && well(turn),
        command == Command::Echo ==> after == before && if payload.len() == 2 && payload[0] + 256
            * payload[1] <= 4096 {
            turn matches Turn::Answer(Ok(reply)) && reply@.len() == payload[0] + 256 * payload[1]
                && forall|i: int| 0 <= i < reply@.len() ==> #[trigger] reply@[i] == 0xa5
        } else {
            job::refused(turn, Error::Protocol(0))
        },
        command == Command::SetEngine ==> if payload == seq![0u8] {
            asks(turn, Action::SetEngine(Engine::Hardware))
        } else if payload == seq![1u8] {
            asks(turn, Action::SetEngine(Engine::BitBang))
        } else {
            job::refused(turn, Error::Protocol(0))
        },
        command == Command::SetPinMap ==> if payload.len() == 1 {
            asks(turn, Action::SetPinMap { swapped: payload[0] != 0 })
        } else {
            job::refused(turn, Error::Protocol(0))
        },
        command == Command::WifiForget ==> after == before && asks(turn, Action::Forget),
        command == Command::WifiStatus ==> after == before && ({
            let name = encode_utf8(control.ssid@);
            answers(
                turn,
                seq![if control.connected { 1u8 } else { 0u8 }] + control.ip@ + seq![
                    name.len() as u8,
                ] + name,
            )
        }),
{
    if command == Command::SetEngine {
        if payload.len() == 1 && payload[0] == 0 {
            assert(payload =~= seq![0u8]);
        } else if payload.len() == 1 && payload[0] == 1 {
            assert(payload =~= seq![1u8]);
        }
    }
}

/// A network that was stored is the one to be joined, and is what the host is
/// told of from then on; one that could not be stored changes nothing. A
/// network that was forgotten leaves nothing to join and nothing to tell of.
#[verifier::spinoff_prover]
#[verifier::rlimit(80)]
pub proof fn law_a_stored_network_is_the_one_to_join(
    before: HubState,
    ssid: String,
    password: String,
    event: Event,
    after: HubState,
    turn: Turn,
    control: WifiControl,
    control_after: WifiControl,
    forgets: bool,
)
    requires
        went_on_with(
            before,
            if forgets {
                Turn::Ask(Action::Forget, Job::Forgotten)
            } else {
                Turn::Ask(Action::Store, Job::Stored { ssid, password })
            },
            event,
            after,
            turn,
            control,
            control_after,
        ),
    ensures
        after == before,
        !(event is Done) ==> control_after == control && job::refused(turn, Error::Protocol(2)),
        event is Done && !forgets ==> {
            &&& well(turn)
            &&& control_after.pending matches Some((name, secret)) && name@ == ssid@ && secret@
                == password@
            &&& !control_after.forget
            &&& control_after.ssid@ == ssid@
        },
        event is Done && forgets ==> {
            &&& well(turn)
            &&& control_after.pending is None && control_after.forget
            &&& !control_after.connected && control_after.ssid@.len() == 0
            &&& control_after.ip@ == seq![0u8, 0, 0, 0]
        },
{
}

/// Pointing the multiplexer at a target, while the board does as it is told:
/// the passive position comes first, and the target's only if the released
/// SWDIO was seen high there, if need be after a reset; the target that is then
/// selected is the one that was asked for.
#[verifier::spinoff_prover]
#[verifier::rlimit(80)]
pub proof fn law_a_selection_needs_a_powered_target(
    s0: HubState,
    t0: Turn,
    target: Target,
    control: WifiControl,
    s1: HubState,
    t1: Turn,
    s2: HubState,
    t2: Turn,
)
    requires
        s0.link is Some,
        t0 == Turn::Ask(
            Action::Select { target: Target::Stm32, settle_ms: 5 },
            Job::Passive(Then::Power { goal: Goal::Move(target) }),
        ),
        went_on_with(s0, t0, Event::Done, s1, t1, control, control),
        asks(t1, Action::ReadReset) || went_on_with(s1, t1, Event::Done, s2, t2, control, control),
    ensures
        heard(s0, s1).len() == 0,
        ({
            let ops = s1.link->0.pads.skip(s0.link->0.pads.len() as int);
            &&& last_look(ops) is Some
            &&& if last_look(ops)->Some_0.0 {
                &&& asks(t1, Action::Select { target, settle_ms: 5 })
                &&& well(t2) && s2.selected == target && !s2.attached
            } else {
                asks(t1, Action::ReadReset)
            }
        }),
{
    let goal = Goal::Move(target);
    let (swdio, swclk) = choose|swdio: bool, swclk: bool| #[trigger]
        resume::power_saw(board::passive(s0), s1, t1, goal, false, swdio, swclk);
    let looked = bring_up::looked_at(swdio, swclk);
    assert(s1.link->0.pads.skip(s0.link->0.pads.len() as int) =~= link::steps_ops(looked));
    lemma_looked(swdio, swclk);
    swd::laws::lemma_looking_is_not_heard(swdio, swclk);
}

/// Bytes sent to the target's UART, while the board does as it is told: no
/// parity, what was received before forgotten, the line driven, the bytes
/// written and waited for, and the line let go of before what the target answers
/// is read and replied with.
#[verifier::spinoff_prover]
#[verifier::rlimit(80)]
pub proof fn law_bytes_are_sent_while_the_line_is_driven(
    control: WifiControl,
    count: u32,
    reply: Vec<u8>,
    s0: HubState,
    t0: Turn,
    s1: HubState,
    t1: Turn,
    s2: HubState,
    t2: Turn,
    s3: HubState,
    t3: Turn,
    s4: HubState,
    t4: Turn,
    s5: HubState,
    t5: Turn,
    s6: HubState,
    t6: Turn,
    s7: HubState,
    t7: Turn,
)
    requires
        t0 == Turn::Ask(
            Action::Uart(super::serial::send_work(0)),
            Job::SendReady { stage: 0 },
        ),
        reply@.len() <= 4096,
        went_on_with(s0, t0, Event::Done, s1, t1, control, control),
        went_on_with(s1, t1, Event::Done, s2, t2, control, control),
        went_on_with(s2, t2, Event::Done, s3, t3, control, control),
        went_on_with(s3, t3, Event::Number(count), s4, t4, control, control),
        went_on_with(s4, t4, Event::Done, s5, t5, control, control),
        went_on_with(s5, t5, Event::Done, s6, t6, control, control),
        went_on_with(s6, t6, Event::Bytes(reply), s7, t7, control, control),
    ensures
        asks(t0, Action::Uart(Serial::Parity { even: false })),
        asks(t1, Action::Uart(Serial::Clear)),
        asks(t2, Action::Uart(Serial::Transmit { driven: true })),
        asks(t3, Action::Uart(Serial::WriteFrame)),
        asks(t4, Action::Uart(Serial::Drain { ticks: 200 })),
        asks(t5, Action::Uart(Serial::Transmit { driven: false })),
        asks(t6, Action::Uart(Serial::Read { capacity: 4096, ticks: 200 })),
        answers(t7, reply@),
        s7 == s0,
{
}

/// Listening to the target's UART, while the board does as it is told: no
/// parity, the line let go of, and whatever arrives within the window, which is
/// the one that the host names, two seconds at most, or a second.
#[verifier::spinoff_prover]
#[verifier::rlimit(80)]
pub proof fn law_the_uart_is_listened_to_for_its_window(
    before: HubState,
    pins: [u8; 7],
    payload: Seq<u8>,
    control: WifiControl,
    parsed: Result<Request, Error>,
    got: Vec<u8>,
    none: Vec<u8>,
    s0: HubState,
    t0: Turn,
    s1: HubState,
    t1: Turn,
    s2: HubState,
    t2: Turn,
    s3: HubState,
    t3: Turn,
    s4: HubState,
    t4: Turn,
    s5: HubState,
    t5: Turn,
)
    requires
        laws::does(before, pins, Command::UartReceive, payload, control, s0, t0, parsed),
        payload.len() == 0 || payload.len() == 2,
        0 < got@.len() < 4096,
        none@.len() == 0,
        went_on_with(s0, t0, Event::Done, s1, t1, control, control),
        went_on_with(s1, t1, Event::Done, s2, t2, control, control),
        went_on_with(s2, t2, Event::Done, s3, t3, control, control),
        went_on_with(s3, t3, Event::Bytes(got), s4, t4, control, control),
        went_on_with(s4, t4, Event::Bytes(none), s5, t5, control, control),
    ensures
        ({
            let named = if payload.len() == 0 {
                1000int
            } else {
                payload[0] + 256 * payload[1]
            };
            let window = if named < 2000 {
                named
            } else {
                2000
            };
            &&& asks(t0, Action::Uart(Serial::Parity { even: false }))
            &&& asks(t1, Action::Uart(Serial::Transmit { driven: false }))
            &&& asks(t2, Action::Uart(Serial::Open { window_ms: window as u16 }))
            &&& asks(t3, Action::Uart(Serial::ReadOn { capacity: 4096 }))
            &&& asks(t4, Action::Uart(Serial::ReadOn { capacity: (4096 - got@.len()) as usize }))
            &&& answers(t5, got@)
            &&& s5 == before
        }),
{
    if payload.len() == 2 {
        assert(bytes::read16(payload) == payload[0] + 256 * payload[1]);
    }
    assert(got@ + none@ =~= got@);
    assert(Seq::<u8>::empty() + got@ =~= got@);
}

/// Capturing what a target says out of reset, while the board does as it is
/// told: the UART is routed as the host says, set up and emptied, the target is
/// reset, what it then says is read, and the UART is routed back before the
/// reply.
#[verifier::spinoff_prover]
#[verifier::rlimit(80)]
pub proof fn law_a_capture_resets_and_listens(
    before: HubState,
    pins: [u8; 7],
    payload: Seq<u8>,
    control: WifiControl,
    parsed: Result<Request, Error>,
    got: Vec<u8>,
    s0: HubState,
    t0: Turn,
    s1: HubState,
    t1: Turn,
    s2: HubState,
    t2: Turn,
    s3: HubState,
    t3: Turn,
    s4: HubState,
    t4: Turn,
    s5: HubState,
    t5: Turn,
    s6: HubState,
    t6: Turn,
    s7: HubState,
    t7: Turn,
    s8: HubState,
    t8: Turn,
)
    requires
        laws::does(before, pins, Command::UartResetCapture, payload, control, s0, t0, parsed),
        payload == Seq::<u8>::empty() || payload == seq![0u8] || payload == seq![1u8],
        got@.len() <= 4096,
        went_on_with(s0, t0, Event::Done, s1, t1, control, control),
        went_on_with(s1, t1, Event::Done, s2, t2, control, control),
        went_on_with(s2, t2, Event::Done, s3, t3, control, control),
        went_on_with(s3, t3, Event::Done, s4, t4, control, control),
        went_on_with(s4, t4, Event::Done, s5, t5, control, control),
        went_on_with(s5, t5, Event::Done, s6, t6, control, control),
        went_on_with(s6, t6, Event::Bytes(got), s7, t7, control, control),
        went_on_with(s7, t7, Event::Done, s8, t8, control, control),
    ensures
        asks(t0, Action::Uart(Serial::Receive { swapped: payload == seq![1u8] })),
        asks(t1, Action::Uart(Serial::Parity { even: false })),
        asks(t2, Action::Uart(Serial::Clear)),
        asks(t3, Action::Uart(Serial::Transmit { driven: false })),
        asks(t4, Action::Reset { held: true, settle_ms: 10 }),
        s5.reset_held,
        asks(t5, Action::Reset { held: false, settle_ms: 10 }),
        !s6.reset_held,
        asks(t6, Action::Uart(Serial::Read { capacity: 4096, ticks: 200 })),
        asks(t7, Action::Uart(Serial::Receive { swapped: false })),
        answers(t8, got@),
{
    if payload.len() == 1 {
        assert(payload[0] == 0 || payload[0] == 1);
        assert(payload[0] == 1 ==> payload =~= seq![1u8]);
        assert(payload[0] == 0 ==> payload != seq![1u8]);
    } else {
        assert(payload.len() == 0);
    }
}

/// Asking the application to enter its bootloader, while the board does as it
/// is told: the request is written while the line is driven, and the line is let
/// go of before the answer is read. One that answers is given a hundred
/// milliseconds; one that does not is reset, by way of its boot pin.
#[verifier::spinoff_prover]
#[verifier::rlimit(80)]
pub proof fn law_a_bootloader_is_asked_for(
    before: HubState,
    pins: [u8; 7],
    control: WifiControl,
    parsed: Result<Request, Error>,
    got: Vec<u8>,
    s0: HubState,
    t0: Turn,
    s1: HubState,
    t1: Turn,
    s2: HubState,
    t2: Turn,
    s3: HubState,
    t3: Turn,
    s4: HubState,
    t4: Turn,
    s5: HubState,
    t5: Turn,
    s6: HubState,
    t6: Turn,
    s7: HubState,
    t7: Turn,
)
    requires
        laws::does(
            before,
            pins,
            Command::EnterRomBoot,
            Seq::empty(),
            control,
            s0,
            t0,
            parsed,
        ),
        got@.len() <= 4096,
        went_on_with(s0, t0, Event::Done, s1, t1, control, control),
        went_on_with(s1, t1, Event::Done, s2, t2, control, control),
        went_on_with(s2, t2, Event::Done, s3, t3, control, control),
        went_on_with(s3, t3, Event::Done, s4, t4, control, control),
        went_on_with(s4, t4, Event::Done, s5, t5, control, control),
        went_on_with(s5, t5, Event::Done, s6, t6, control, control),
        went_on_with(s6, t6, Event::Bytes(got), s7, t7, control, control),
    ensures
        asks(t0, Action::Uart(Serial::Parity { even: false })),
        asks(t1, Action::Uart(Serial::Clear)),
        asks(t2, Action::Uart(Serial::Transmit { driven: true })),
        asks(t3, Action::Uart(Serial::WriteRomBoot)),
        asks(t4, Action::Uart(Serial::Drain { ticks: 100 })),
        asks(t5, Action::Uart(Serial::Transmit { driven: false })),
        asks(t6, Action::Uart(Serial::Read { capacity: 4096, ticks: 100 })),
        got@.len() > 0 ==> asks(t7, Action::DelayMs { delay_ms: 100 }),
        got@.len() == 0 ==> asks(t7, Action::Reset { held: true, settle_ms: 0 }),
{
}

/// Synchronising with the bootloader, while the board does as it is told: even
/// parity, the byte that the baud rate is taken from written while the line is
/// driven, the line let go of before the answer is read, and the application's
/// parity put back before the reply, which is all that was heard.
#[verifier::spinoff_prover]
#[verifier::rlimit(80)]
pub proof fn law_a_bootloader_is_synchronised_with(
    control: WifiControl,
    so_far: Vec<u8>,
    got: Vec<u8>,
    s0: HubState,
    t0: Turn,
    s1: HubState,
    t1: Turn,
    s2: HubState,
    t2: Turn,
    s3: HubState,
    t3: Turn,
    s4: HubState,
    t4: Turn,
    s5: HubState,
    t5: Turn,
    s6: HubState,
    t6: Turn,
    s7: HubState,
    t7: Turn,
    s8: HubState,
    t8: Turn,
    s9: HubState,
    t9: Turn,
    s10: HubState,
    t10: Turn,
)
    requires
        t0 == Turn::Ask(
            Action::DelayMs { delay_ms: 100 },
            Job::RomSync { stage: 0, got: so_far },
        ),
        so_far@.len() + got@.len() <= 4096,
        went_on_with(s0, t0, Event::Done, s1, t1, control, control),
        went_on_with(s1, t1, Event::Done, s2, t2, control, control),
        went_on_with(s2, t2, Event::Done, s3, t3, control, control),
        went_on_with(s3, t3, Event::Done, s4, t4, control, control),
        went_on_with(s4, t4, Event::Done, s5, t5, control, control),
        went_on_with(s5, t5, Event::Done, s6, t6, control, control),
        went_on_with(s6, t6, Event::Done, s7, t7, control, control),
        went_on_with(s7, t7, Event::Bytes(got), s8, t8, control, control),
        went_on_with(s8, t8, Event::Done, s9, t9, control, control),
        went_on_with(s9, t9, Event::Done, s10, t10, control, control),
    ensures
        asks(t1, Action::Uart(Serial::Parity { even: true })),
        asks(t2, Action::Uart(Serial::Clear)),
        asks(t3, Action::Uart(Serial::Transmit { driven: true })),
        asks(t4, Action::Uart(Serial::WriteSync)),
        asks(t5, Action::Uart(Serial::Drain { ticks: 100 })),
        asks(t6, Action::Uart(Serial::Transmit { driven: false })),
        asks(
            t7,
            Action::Uart(
                Serial::Read { capacity: (4096 - so_far@.len()) as usize, ticks: 100 },
            ),
        ),
        asks(t8, Action::Uart(Serial::Transmit { driven: false })),
        asks(t9, Action::Uart(Serial::Parity { even: false })),
        answers(t10, so_far@ + got@),
        s10 == s0,
{
}

/// A display frame, while the board does as it is told and the target is seen to
/// be powered: the line is driven, the frame written and waited for, the line
/// let go of, and how much was taken is replied, in four bytes.
#[verifier::spinoff_prover]
#[verifier::rlimit(80)]
pub proof fn law_a_display_frame_is_written_and_counted(
    control: WifiControl,
    count: u32,
    s0: HubState,
    t0: Turn,
    s1: HubState,
    t1: Turn,
    s2: HubState,
    t2: Turn,
    s3: HubState,
    t3: Turn,
    s4: HubState,
    t4: Turn,
    s5: HubState,
    t5: Turn,
)
    requires
        s0.link is Some,
        t0 == Turn::Ask(
            Action::Select { target: Target::Stm32, settle_ms: 5 },
            Job::Passive(Then::Power { goal: Goal::Display }),
        ),
        went_on_with(s0, t0, Event::Done, s1, t1, control, control),
        last_look(s1.link->0.pads.skip(s0.link->0.pads.len() as int)) matches Some((swdio, _))
            && swdio,
        went_on_with(s1, t1, Event::Done, s2, t2, control, control),
        went_on_with(s2, t2, Event::Number(count), s3, t3, control, control),
        went_on_with(s3, t3, Event::Done, s4, t4, control, control),
        went_on_with(s4, t4, Event::Done, s5, t5, control, control),
    ensures
        asks(t1, Action::Uart(Serial::Transmit { driven: true })),
        asks(t2, Action::Uart(Serial::WriteFrame)),
        asks(t3, Action::Uart(Serial::Drain { ticks: 100 })),
        asks(t4, Action::Uart(Serial::Transmit { driven: false })),
        t5 matches Turn::Answer(Ok(reply)) && reply@.len() == 4 && laws::number_at(reply@, 0, count),
{
    let goal = Goal::Display;
    let (swdio, swclk) = choose|swdio: bool, swclk: bool| #[trigger]
        resume::power_saw(board::passive(s0), s1, t1, goal, false, swdio, swclk);
    let looked = bring_up::looked_at(swdio, swclk);
    assert(s1.link->0.pads.skip(s0.link->0.pads.len() as int) =~= link::steps_ops(looked));
    lemma_looked(swdio, swclk);
}

/// A probe of one position of the multiplexer, while the board does as it is
/// told: that position is selected, both selectors are read back, and the
/// passive position is selected again before the reply. That is nine bytes: the
/// two lines as they were seen, how it went, the port's identification, and the
/// two selectors. Only where SWDIO was high, and not on the position that is no
/// debug port, was anything driven.
#[verifier::spinoff_prover]
#[verifier::rlimit(80)]
pub proof fn law_a_position_is_probed_and_left(
    before: HubState,
    pins: [u8; 7],
    payload: Seq<u8>,
    control: WifiControl,
    parsed: Result<Request, Error>,
    high0: bool,
    high1: bool,
    s0: HubState,
    t0: Turn,
    s1: HubState,
    t1: Turn,
    s2: HubState,
    t2: Turn,
    s3: HubState,
    t3: Turn,
)
    requires
        laws::does(before, pins, Command::MuxProbe, payload, control, s0, t0, parsed),
        payload.len() == 1,
        payload[0] <= 3,
        went_on_with(s0, t0, Event::Done, s1, t1, control, control),
        went_on_with(s1, t1, Event::Levels(high0, high1), s2, t2, control, control),
        went_on_with(s2, t2, Event::Done, s3, t3, control, control),
    ensures
        ({
            let target = if payload[0] == 0 {
                Target::Stm32
            } else if payload[0] == 1 {
                Target::Gps
            } else if payload[0] == 2 {
                Target::Dwm0
            } else {
                Target::Dwm1
            };
            &&& asks(t0, Action::Select { target, settle_ms: 5 })
            &&& asks(t1, Action::ReadSelectors)
            &&& asks(t2, Action::Select { target: Target::Stm32, settle_ms: 0 })
            &&& s3.selected == Target::Stm32 && !s3.attached
            &&& t3 matches Turn::Answer(Ok(reply)) && {
                &&& reply@.len() == 9
                &&& reply@[0] <= 1 && reply@[1] <= 1
                &&& reply@[0] == 0 && payload[0] != 1 ==> reply@[2] == 2
                &&& payload[0] == 1 ==> reply@[2] == 9
                &&& reply@[2] != 1 ==> laws::number_at(reply@, 3, 0)
                &&& reply@[7] == (if high0 { 1u8 } else { 0u8 })
                &&& reply@[8] == (if high1 { 1u8 } else { 0u8 })
            }
        }),
{
    let target = request::target_of(payload[0])->0;
    let (swdio, swclk, status, dp_id, looked, middle) = choose|
        swdio: bool,
        swclk: bool,
        status: u8,
        dp_id: u32,
        looked: LinkView,
        middle: LinkView,
    |
        #[trigger] super::wire::mux_probed(
            s1,
            s2,
            t2,
            target,
            high0,
            high1,
            swdio,
            swclk,
            status,
            dp_id,
            looked,
            middle,
        );
    assert forall|ack: u8| #[trigger] (0x80u8 | ack) != 1 by {
        assert(0x80u8 | ack != 1) by (bit_vector);
    }
}

} // verus!
