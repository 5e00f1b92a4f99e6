//! Stopping, starting and inspecting the target's core.
//!
//! Every command is decided here and carried out by whatever drives the core:
//! [`CoreRequest::start`] says what to ask of the core first and [`next`] goes
//! on with what it answered, with the lines to print on the way.

use crate::report;
use crate::text;
use vstd::prelude::*;

verus! {

/// Long enough for a core that is asleep or waiting on a slow bus, short enough
/// that a target which will never halt says so rather than hanging.
pub const HALT_TIMEOUT_MS: u64 = 500;

/// How long to wait between two looks at a running core.
pub const LOOK_MS: u64 = 2;

/// What a person asks of the core.
#[derive(Debug)]
pub enum CoreRequest {
    Status,
    Halt,
    Run,
    Step { count: usize },
    ResetHalt,
    Reset,
    Registers,
    Read { address: u64, words: usize },
    Write { address: u64, values: Vec<u32> },
    RunTo { address: u64, timeout_ms: u64 },
    BreakSet { address: u64 },
    BreakClear { address: u64 },
    BreakInfo,
}

/// One thing to ask of the core. Addresses, counts and words are the request's.
#[derive(Clone, Copy, Debug, Eq, PartialEq, Structural)]
pub enum CoreOp {
    AskStatus,
    AskHalted,
    Halt,
    Run,
    Step,
    ResetAndHalt,
    Reset,
    /// Read every register, one line each.
    ReadRegisters,
    ReadWords,
    WriteWords,
    SetBreakpoint,
    ClearBreakpoint,
    /// Has the time that the request grants run out since the core was let run?
    AskLate,
    Pause,
    ReadPc,
    AskUnits,
}

/// What the core answered.
#[derive(Debug)]
pub enum CoreEvent {
    Done,
    Failed,
    Yes(bool),
    Told(String),
    Lines(Vec<String>),
    Pc(u64),
    Words(Vec<u32>),
    Units(u32),
}

/// What a command is waiting for.
#[derive(Clone, Copy, Debug, Eq, PartialEq, Structural)]
pub enum CoreStage {
    Only,
    StepAsked,
    StepHalting,
    Stepping { done: usize },
    RegistersAsked,
    RegistersHalting,
    RegistersReading { was_running: bool },
    RegistersResuming,
    Writing,
    ReadingBack,
    ToAsked,
    ToHalting,
    ToSetting,
    ToRunning,
    ToLooking,
    ToLate,
    ToPausing,
    ToClearing { reached: bool },
    ToReadingPc { cleared: bool },
}

/// How a command ends.
#[derive(Clone, Copy, Debug, Eq, PartialEq, Structural)]
pub enum CoreEnd {
    Good,
    /// What was asked for last failed.
    LastFailed,
    /// The breakpoint could not be cleared.
    ClearFailed,
    /// The core did not reach the address in time.
    NotReached,
    /// The target did not take every word.
    NotTaken,
}

#[derive(Clone, Copy, Debug, Eq, PartialEq, Structural)]
pub enum CoreMove {
    Ask(CoreOp, CoreStage),
    Over(CoreEnd),
}

/// Is this one line printed?
pub open spec fn says(said: Seq<String>, line: Seq<char>) -> bool {
    said.len() == 1 && said[0]@ == line
}

/// Is one line printed, and the command over?
pub open spec fn concludes(said: Seq<String>, next: CoreMove, line: Seq<char>) -> bool {
    says(said, line) && next == CoreMove::Over(CoreEnd::Good)
}

/// Is nothing printed, and this asked for next?
pub open spec fn goes_to(said: Seq<String>, next: CoreMove, op: CoreOp, stage: CoreStage) -> bool {
    said.len() == 0 && next == CoreMove::Ask(op, stage)
}

/// Is nothing printed, and the command over like this?
pub open spec fn ends(said: Seq<String>, next: CoreMove, end: CoreEnd) -> bool {
    said.len() == 0 && next == CoreMove::Over(end)
}

/// What a request asks of the core first.
pub open spec fn first_move(request: CoreRequest) -> CoreMove {
    match request {
        CoreRequest::Status => CoreMove::Ask(CoreOp::AskStatus, CoreStage::Only),
        CoreRequest::Halt => CoreMove::Ask(CoreOp::Halt, CoreStage::Only),
        CoreRequest::Run => CoreMove::Ask(CoreOp::Run, CoreStage::Only),
        CoreRequest::Step { .. } => CoreMove::Ask(CoreOp::AskHalted, CoreStage::StepAsked),
        CoreRequest::ResetHalt => CoreMove::Ask(CoreOp::ResetAndHalt, CoreStage::Only),
        CoreRequest::Reset => CoreMove::Ask(CoreOp::Reset, CoreStage::Only),
        CoreRequest::Registers => CoreMove::Ask(CoreOp::AskHalted, CoreStage::RegistersAsked),
        CoreRequest::Read { .. } => CoreMove::Ask(CoreOp::ReadWords, CoreStage::Only),
        CoreRequest::Write { .. } => CoreMove::Ask(CoreOp::WriteWords, CoreStage::Writing),
        CoreRequest::RunTo { .. } => CoreMove::Ask(CoreOp::AskHalted, CoreStage::ToAsked),
        CoreRequest::BreakSet { .. } => CoreMove::Ask(CoreOp::SetBreakpoint, CoreStage::Only),
        CoreRequest::BreakClear { .. } => CoreMove::Ask(CoreOp::ClearBreakpoint, CoreStage::Only),
        CoreRequest::BreakInfo => CoreMove::Ask(CoreOp::AskUnits, CoreStage::Only),
    }
}

/// Are these the words at an address, a line each?
pub open spec fn prints_words(said: Seq<String>, address: u64, words: Seq<u32>) -> bool {
    said.len() == words.len() && forall|i: int|
        0 <= i < words.len() ==> (#[trigger] said[i])@ == report::word_line(
            (address + 4 * i) as nat,
            words[i],
        )
}

/// Are these the words written at an address, each with the one read back?
pub open spec fn prints_written(
    said: Seq<String>,
    address: u64,
    wrote: Seq<u32>,
    read: Seq<u32>,
) -> bool {
    said.len() == wrote.len() && forall|i: int|
        0 <= i < wrote.len() ==> (#[trigger] said[i])@ == report::written_line(
            (address + 4 * i) as nat,
            wrote[i],
            read[i],
        )
}

/// The end of a request that asks one thing of the core.
pub open spec fn concluded(
    request: CoreRequest,
    event: CoreEvent,
    said: Seq<String>,
    next: CoreMove,
) -> bool {
    match (request, event) {
        (CoreRequest::Status, CoreEvent::Told(status)) => concludes(
            said,
            next,
            "status="@ + status@,
        ),
        (CoreRequest::Halt, CoreEvent::Pc(pc)) => concludes(
            said,
            next,
            "halted pc="@ + text::address(pc as nat),
        ),
        (CoreRequest::Run, CoreEvent::Done) => concludes(said, next, "running"@),
        (CoreRequest::ResetHalt, CoreEvent::Pc(pc)) => concludes(
            said,
            next,
            "reset and halted pc="@ + text::address(pc as nat),
        ),
        (CoreRequest::Reset, CoreEvent::Done) => concludes(said, next, "reset and running"@),
        (CoreRequest::Read { address, .. }, CoreEvent::Words(words)) => prints_words(
            said,
            address,
            words@,
        ) && next == CoreMove::Over(CoreEnd::Good),
        (CoreRequest::BreakSet { address }, CoreEvent::Done) => concludes(
            said,
            next,
            "breakpoint set at "@ + text::address(address as nat),
        ),
        (CoreRequest::BreakClear { address }, CoreEvent::Done) => concludes(
            said,
            next,
            "breakpoint cleared at "@ + text::address(address as nat),
        ),
        (CoreRequest::BreakInfo, CoreEvent::Units(units)) => concludes(
            said,
            next,
            "hardware breakpoint units="@ + text::decimal(units as nat),
        ),
        _ => ends(said, next, CoreEnd::LastFailed),
    }
}

/// Stepping on, or the end of it.
pub open spec fn steps_on(next: CoreMove, count: usize, done: int) -> bool {
    if done < count {
        next == CoreMove::Ask(CoreOp::Step, CoreStage::Stepping { done: done as usize })
    } else {
        next == CoreMove::Over(CoreEnd::Good)
    }
}

/// What a command goes on with, once the core has answered.
pub open spec fn went_on(
    request: CoreRequest,
    stage: CoreStage,
    event: CoreEvent,
    said: Seq<String>,
    next: CoreMove,
) -> bool {
    match (stage, event) {
        (CoreStage::Only, _) => concluded(request, event, said, next),
        (CoreStage::StepAsked, CoreEvent::Yes(halted)) => if halted {
            said.len() == 0 && (request matches CoreRequest::Step { count } && steps_on(next, count, 0))
        } else {
            goes_to(said, next, CoreOp::Halt, CoreStage::StepHalting)
        },
        (CoreStage::StepHalting, CoreEvent::Pc(_)) => said.len() == 0 && (
        request matches CoreRequest::Step { count } && steps_on(next, count, 0)),
        (CoreStage::Stepping { done }, CoreEvent::Pc(pc)) => says(
            said,
            "step="@ + text::decimal((done + 1) as nat) + " pc="@ + text::address(pc as nat),
        ) && (request matches CoreRequest::Step { count } && steps_on(next, count, done + 1)),
        (CoreStage::RegistersAsked, CoreEvent::Yes(halted)) => if halted {
            goes_to(
                said,
                next,
                CoreOp::ReadRegisters,
                CoreStage::RegistersReading { was_running: false },
            )
        } else {
            goes_to(said, next, CoreOp::Halt, CoreStage::RegistersHalting)
        },
        (CoreStage::RegistersHalting, CoreEvent::Pc(_)) => goes_to(
            said,
            next,
            CoreOp::ReadRegisters,
            CoreStage::RegistersReading { was_running: true },
        ),
        (CoreStage::RegistersReading { was_running }, CoreEvent::Lines(lines)) => {
            &&& said == lines@
            &&& next == (if was_running {
                CoreMove::Ask(CoreOp::Run, CoreStage::RegistersResuming)
            } else {
                CoreMove::Over(CoreEnd::Good)
            })
        },
        (CoreStage::RegistersResuming, CoreEvent::Done) => ends(said, next, CoreEnd::Good),
        (CoreStage::Writing, CoreEvent::Done) => goes_to(
            said,
            next,
            CoreOp::ReadWords,
            CoreStage::ReadingBack,
        ),
        (CoreStage::ReadingBack, CoreEvent::Words(read)) => {
            request matches CoreRequest::Write { address, values } && prints_written(
                said,
                address,
                values@,
                read@,
            ) && next == CoreMove::Over(
                if values@ == read@ {
                    CoreEnd::Good
                } else {
                    CoreEnd::NotTaken
                },
            )
        },
        (CoreStage::ToAsked, CoreEvent::Yes(halted)) => if halted {
            goes_to(said, next, CoreOp::SetBreakpoint, CoreStage::ToSetting)
        } else {
            goes_to(said, next, CoreOp::Halt, CoreStage::ToHalting)
        },
        (CoreStage::ToHalting, CoreEvent::Pc(_)) => goes_to(
            said,
            next,
            CoreOp::SetBreakpoint,
            CoreStage::ToSetting,
        ),
        (CoreStage::ToSetting, CoreEvent::Done) => goes_to(
            said,
            next,
            CoreOp::Run,
            CoreStage::ToRunning,
        ),
        (CoreStage::ToRunning, CoreEvent::Done) => goes_to(
            said,
            next,
            CoreOp::AskHalted,
            CoreStage::ToLooking,
        ),
        (CoreStage::ToLooking, CoreEvent::Yes(halted)) => if halted {
            goes_to(
                said,
                next,
                CoreOp::ClearBreakpoint,
                CoreStage::ToClearing { reached: true },
            )
        } else {
            goes_to(said, next, CoreOp::AskLate, CoreStage::ToLate)
        },
        (CoreStage::ToLate, CoreEvent::Yes(late)) => if late {
            goes_to(
                said,
                next,
                CoreOp::ClearBreakpoint,
                CoreStage::ToClearing { reached: false },
            )
        } else {
            goes_to(said, next, CoreOp::Pause, CoreStage::ToPausing)
        },
        (CoreStage::ToPausing, CoreEvent::Done) => goes_to(
            said,
            next,
            CoreOp::AskHalted,
            CoreStage::ToLooking,
        ),
        (CoreStage::ToClearing { reached }, _) => if reached {
            goes_to(
                said,
                next,
                CoreOp::ReadPc,
                CoreStage::ToReadingPc { cleared: event is Done },
            )
        } else if event is Done {
            ends(said, next, CoreEnd::NotReached)
        } else {
            ends(said, next, CoreEnd::LastFailed)
        },
        (CoreStage::ToReadingPc { cleared }, CoreEvent::Pc(pc)) => if cleared {
            concludes(said, next, "halted at breakpoint pc="@ + text::address(pc as nat))
        } else {
            ends(said, next, CoreEnd::ClearFailed)
        },
        _ => ends(said, next, CoreEnd::LastFailed),
    }
}

/// Does an answer fit the request: words that lie in the address space, and as
/// many back as were written?
pub open spec fn fits(request: CoreRequest, stage: CoreStage, event: CoreEvent) -> bool {
    &&& stage matches CoreStage::Stepping { done } ==> done < usize::MAX
    &&& match stage {
        CoreStage::StepAsked | CoreStage::StepHalting | CoreStage::Stepping { .. } => request is Step,
        CoreStage::ReadingBack => request is Write,
        _ => true,
    }
    &&& event matches CoreEvent::Words(words) ==> match request {
        CoreRequest::Read { address, .. } => report::addressed(address, words@.len()),
        CoreRequest::Write { address, values } => words@.len() == values@.len()
            && report::addressed(address, words@.len()),
        _ => true,
    }
}

impl CoreRequest {
    /// What a request asks of the core first.
    pub fn start(&self) -> (first: CoreMove)
        ensures
            first == first_move(*self),
    {
        match self {
            CoreRequest::Status => CoreMove::Ask(CoreOp::AskStatus, CoreStage::Only),
            CoreRequest::Halt => CoreMove::Ask(CoreOp::Halt, CoreStage::Only),
            CoreRequest::Run => CoreMove::Ask(CoreOp::Run, CoreStage::Only),
            CoreRequest::Step { .. } => CoreMove::Ask(CoreOp::AskHalted, CoreStage::StepAsked),
            CoreRequest::ResetHalt => CoreMove::Ask(CoreOp::ResetAndHalt, CoreStage::Only),
            CoreRequest::Reset => CoreMove::Ask(CoreOp::Reset, CoreStage::Only),
            CoreRequest::Registers => CoreMove::Ask(CoreOp::AskHalted, CoreStage::RegistersAsked),
            CoreRequest::Read { .. } => CoreMove::Ask(CoreOp::ReadWords, CoreStage::Only),
            CoreRequest::Write { .. } => CoreMove::Ask(CoreOp::WriteWords, CoreStage::Writing),
            CoreRequest::RunTo { .. } => CoreMove::Ask(CoreOp::AskHalted, CoreStage::ToAsked),
            CoreRequest::BreakSet { .. } => CoreMove::Ask(CoreOp::SetBreakpoint, CoreStage::Only),
            CoreRequest::BreakClear { .. } => CoreMove::Ask(
                CoreOp::ClearBreakpoint,
                CoreStage::Only,
            ),
            CoreRequest::BreakInfo => CoreMove::Ask(CoreOp::AskUnits, CoreStage::Only),
        }
    }
}

/// One line, and the end.
fn conclude(line: String) -> (next: (Vec<String>, CoreMove))
    ensures
        concludes(next.0@, next.1, line@),
{
    let mut said: Vec<String> = Vec::new();
    said.push(line);
    (said, CoreMove::Over(CoreEnd::Good))
}

/// Nothing to print, and the next thing to ask.
fn go(op: CoreOp, stage: CoreStage) -> (next: (Vec<String>, CoreMove))
    ensures
        goes_to(next.0@, next.1, op, stage),
{
    (Vec::new(), CoreMove::Ask(op, stage))
}

/// Nothing to print, and the end.
fn end(how: CoreEnd) -> (next: (Vec<String>, CoreMove))
    ensures
        ends(next.0@, next.1, how),
{
    (Vec::new(), CoreMove::Over(how))
}

fn address_line(before: &str, address: u64) -> (line: String)
    ensures
        line@ == before@ + text::address(address as nat),
{
    let mut line: String = before.to_owned();
    text::push_address(&mut line, address);
    line
}

fn conclude_only(request: &CoreRequest, event: CoreEvent) -> (next: (Vec<String>, CoreMove))
    requires
        fits(*request, CoreStage::Only, event),
    ensures
        concluded(*request, event, next.0@, next.1),
{
    match (request, event) {
        (CoreRequest::Status, CoreEvent::Told(status)) => {
            let mut line: String = "status=".to_owned();
            line.push_str(status.as_str());
            conclude(line)
        },
        (CoreRequest::Halt, CoreEvent::Pc(pc)) => conclude(address_line("halted pc=", pc)),
        (CoreRequest::Run, CoreEvent::Done) => conclude("running".to_owned()),
        (CoreRequest::ResetHalt, CoreEvent::Pc(pc)) => conclude(
            address_line("reset and halted pc=", pc),
        ),
        (CoreRequest::Reset, CoreEvent::Done) => conclude("reset and running".to_owned()),
        (CoreRequest::Read { address, .. }, CoreEvent::Words(words)) => {
            let said: Vec<String> = report::words_at(*address, &words);
            (said, CoreMove::Over(CoreEnd::Good))
        },
        (CoreRequest::BreakSet { address }, CoreEvent::Done) => conclude(
            address_line("breakpoint set at ", *address),
        ),
        (CoreRequest::BreakClear { address }, CoreEvent::Done) => conclude(
            address_line("breakpoint cleared at ", *address),
        ),
        (CoreRequest::BreakInfo, CoreEvent::Units(units)) => {
            let mut line: String = "hardware breakpoint units=".to_owned();
            text::push_decimal(&mut line, units as u64);
            conclude(line)
        },
        _ => end(CoreEnd::LastFailed),
    }
}

fn step_on(request: &CoreRequest, done: usize) -> (next: CoreMove)
    requires
        request is Step,
    ensures
        request matches CoreRequest::Step { count } && steps_on(next, *count, done as int),
{
    match request {
        CoreRequest::Step { count } => if done < *count {
            CoreMove::Ask(CoreOp::Step, CoreStage::Stepping { done })
        } else {
            CoreMove::Over(CoreEnd::Good)
        },
        _ => CoreMove::Over(CoreEnd::Good),
    }
}

/// Goes on with a command, once the core has answered: the lines to print, and
/// what to ask next.
///
/// Registers are read of a halted core only: reading one of a running core
/// reports whatever it happened to contain mid-instruction, which is worse than
/// refusing. A breakpoint that was set to run to is cleared whether it was
/// reached or not: leaving a unit armed outlives this process and surprises the
/// next one.
pub fn next(request: &CoreRequest, stage: CoreStage, event: CoreEvent) -> (next: (
    Vec<String>,
    CoreMove,
))
    requires
        fits(*request, stage, event),
    ensures
        went_on(*request, stage, event, next.0@, next.1),
{
    match (stage, event) {
        (CoreStage::Only, event) => conclude_only(request, event),
        (CoreStage::StepAsked, CoreEvent::Yes(halted)) => if halted {
            (Vec::new(), step_on(request, 0))
        } else {
            go(CoreOp::Halt, CoreStage::StepHalting)
        },
        (CoreStage::StepHalting, CoreEvent::Pc(_)) => (Vec::new(), step_on(request, 0)),
        (CoreStage::Stepping { done }, CoreEvent::Pc(pc)) => {
            let mut line: String = "step=".to_owned();
            text::push_decimal(&mut line, done as u64 + 1);
            line.push_str(" pc=");
            text::push_address(&mut line, pc);
            let mut said: Vec<String> = Vec::new();
            said.push(line);
            (said, step_on(request, done + 1))
        },
        (CoreStage::RegistersAsked, CoreEvent::Yes(halted)) => if halted {
            go(CoreOp::ReadRegisters, CoreStage::RegistersReading { was_running: false })
        } else {
            go(CoreOp::Halt, CoreStage::RegistersHalting)
        },
        (CoreStage::RegistersHalting, CoreEvent::Pc(_)) => go(
            CoreOp::ReadRegisters,
            CoreStage::RegistersReading { was_running: true },
        ),
        (CoreStage::RegistersReading { was_running }, CoreEvent::Lines(lines)) => {
            if was_running {
                (lines, CoreMove::Ask(CoreOp::Run, CoreStage::RegistersResuming))
            } else {
                (lines, CoreMove::Over(CoreEnd::Good))
            }
        },
        (CoreStage::RegistersResuming, CoreEvent::Done) => end(CoreEnd::Good),
        (CoreStage::Writing, CoreEvent::Done) => go(CoreOp::ReadWords, CoreStage::ReadingBack),
        (CoreStage::ReadingBack, CoreEvent::Words(read)) => match request {
            CoreRequest::Write { address, values } => {
                let (said, taken): (Vec<String>, bool) = report::written_at(
                    *address,
                    values,
                    &read,
                );
                if taken {
                    (said, CoreMove::Over(CoreEnd::Good))
                } else {
                    (said, CoreMove::Over(CoreEnd::NotTaken))
                }
            },
            _ => end(CoreEnd::LastFailed),
        },
        (CoreStage::ToAsked, CoreEvent::Yes(halted)) => if halted {
            go(CoreOp::SetBreakpoint, CoreStage::ToSetting)
        } else {
            go(CoreOp::Halt, CoreStage::ToHalting)
        },
        (CoreStage::ToHalting, CoreEvent::Pc(_)) => go(CoreOp::SetBreakpoint, CoreStage::ToSetting),
        (CoreStage::ToSetting, CoreEvent::Done) => go(CoreOp::Run, CoreStage::ToRunning),
        (CoreStage::ToRunning, CoreEvent::Done) => go(CoreOp::AskHalted, CoreStage::ToLooking),
        (CoreStage::ToLooking, CoreEvent::Yes(halted)) => if halted {
            go(CoreOp::ClearBreakpoint, CoreStage::ToClearing { reached: true })
        } else {
            go(CoreOp::AskLate, CoreStage::ToLate)
        },
        (CoreStage::ToLate, CoreEvent::Yes(late)) => if late {
            go(CoreOp::ClearBreakpoint, CoreStage::ToClearing { reached: false })
        } else {
            go(CoreOp::Pause, CoreStage::ToPausing)
        },
        (CoreStage::ToPausing, CoreEvent::Done) => go(CoreOp::AskHalted, CoreStage::ToLooking),
        (CoreStage::ToClearing { reached }, event) => {
            let cleared: bool = matches!(event, CoreEvent::Done);
            if reached {
                go(CoreOp::ReadPc, CoreStage::ToReadingPc { cleared })
            } else if cleared {
                end(CoreEnd::NotReached)
            } else {
                end(CoreEnd::LastFailed)
            }
        },
        (CoreStage::ToReadingPc { cleared }, CoreEvent::Pc(pc)) => if cleared {
            conclude(address_line("halted at breakpoint pc=", pc))
        } else {
            end(CoreEnd::ClearFailed)
        },
        _ => end(CoreEnd::LastFailed),
    }
}

/// The words that typed numbers are written as: their lowest thirty-two bits.
pub fn to_words(values: &Vec<u64>) -> (words: Vec<u32>)
    ensures
        words@.len() == values@.len(),
        forall|i: int|
            0 <= i < values@.len() ==> #[trigger] words@[i] == values@[i] % 0x1_0000_0000,
{
    let mut words: Vec<u32> = Vec::new();
    let mut at: usize = 0;
    while at < values.len()
        invariant
            at <= values@.len(),
            words@.len() == at,
            forall|i: int| 0 <= i < at ==> #[trigger] words@[i] == values@[i] % 0x1_0000_0000,
        decreases values@.len() - at,
    {
        words.push((values[at] % 0x1_0000_0000) as u32);
        at += 1;
    }
    words
}

/// What a core that did not reach its address in time is told of.
pub fn not_reached(address: u64, timeout_ms: u64) -> (told: String)
    ensures
        told@ == "the core did not reach "@ + text::address(address as nat) + " within "@
            + text::decimal(timeout_ms as nat) + " ms"@,
{
    let mut told: String = address_line("the core did not reach ", address);
    told.push_str(" within ");
    text::push_decimal(&mut told, timeout_ms);
    told.push_str(" ms");
    told
}

/// Once a breakpoint to run to was set and the core let run, the command ends
/// only after the breakpoint was asked to be cleared, or after a question to the
/// core failed.
pub proof fn law_a_breakpoint_run_to_is_cleared(
    request: CoreRequest,
    stage: CoreStage,
    event: CoreEvent,
    said: Seq<String>,
    next: CoreMove,
)
    requires
        stage is ToLooking || stage is ToLate || stage is ToPausing,
        went_on(request, stage, event, said, next),
    ensures
        next matches CoreMove::Over(how) ==> how == CoreEnd::LastFailed,
        next matches CoreMove::Ask(op, then_stage) ==> op == CoreOp::ClearBreakpoint || then_stage
            is ToLooking || then_stage is ToLate || then_stage is ToPausing,
{
}

/// A core that was running when its registers were asked for is let run again
/// after they were read, and one that was halted is left halted.
pub proof fn law_reading_registers_leaves_the_core_as_it_was(
    request: CoreRequest,
    halted: bool,
    pc: u64,
    lines: Vec<String>,
    said: Seq<String>,
    first: CoreMove,
    said_next: Seq<String>,
    second: CoreMove,
    said_last: Seq<String>,
    last: CoreMove,
)
    requires
        went_on(request, CoreStage::RegistersAsked, CoreEvent::Yes(halted), said, first),
        !halted ==> went_on(
            request,
            CoreStage::RegistersHalting,
            CoreEvent::Pc(pc),
            said_next,
            second,
        ),
        went_on(
            request,
            (CoreStage::RegistersReading { was_running: !halted }),
            CoreEvent::Lines(lines),
            said_last,
            last,
        ),
    ensures
        halted ==> first == CoreMove::Ask(
            CoreOp::ReadRegisters,
            (CoreStage::RegistersReading { was_running: false }),
        ) && last == CoreMove::Over(CoreEnd::Good),
        !halted ==> first == CoreMove::Ask(CoreOp::Halt, CoreStage::RegistersHalting) && second
            == CoreMove::Ask(
            CoreOp::ReadRegisters,
            (CoreStage::RegistersReading { was_running: true }),
        ) && last == CoreMove::Ask(CoreOp::Run, CoreStage::RegistersResuming),
{
}

/// A whole command: what was asked of the core, what it answered to each of
/// these, and what was printed then.
pub open spec fn talked(
    request: CoreRequest,
    moves: Seq<CoreMove>,
    events: Seq<CoreEvent>,
    said: Seq<Seq<String>>,
) -> bool {
    &&& moves.len() == events.len() + 1
    &&& said.len() == events.len()
    &&& moves[0] == first_move(request)
    &&& forall|i: int|
        0 <= i < events.len() ==> answered_on(
            request,
            moves[i],
            #[trigger] events[i],
            said[i],
            moves[i + 1],
        )
}

/// Was the core's answer to one move gone on with?
pub open spec fn answered_on(
    request: CoreRequest,
    asked: CoreMove,
    event: CoreEvent,
    said: Seq<String>,
    next: CoreMove,
) -> bool {
    asked matches CoreMove::Ask(_, stage) && went_on(request, stage, event, said, next)
}

/// Is this asked for?
pub open spec fn asks(asked: CoreMove, op: CoreOp) -> bool {
    asked matches CoreMove::Ask(asked_op, _) && asked_op == op
}

/// Did the core answer with this yes or no?
pub open spec fn yes(event: CoreEvent, value: bool) -> bool {
    event matches CoreEvent::Yes(answer) && answer == value
}

/// How many questions come before the first that a halted core is needed for:
/// whether it is halted and, if it was not, to halt it.
pub open spec fn halting(events: Seq<CoreEvent>) -> int {
    if yes(events[0], true) {
        1
    } else {
        2
    }
}

/// Where in a command what is asked stands.
spec fn stands(request: CoreRequest, events: Seq<CoreEvent>, at: int, asked: CoreMove) -> bool {
    let h = halting(events);
    match asked {
        CoreMove::Over(_) => at > 0,
        CoreMove::Ask(op, stage) => match request {
            CoreRequest::Status => at == 0 && op == CoreOp::AskStatus && stage == CoreStage::Only,
            CoreRequest::Halt => at == 0 && op == CoreOp::Halt && stage == CoreStage::Only,
            CoreRequest::Run => at == 0 && op == CoreOp::Run && stage == CoreStage::Only,
            CoreRequest::ResetHalt => at == 0 && op == CoreOp::ResetAndHalt && stage
                == CoreStage::Only,
            CoreRequest::Reset => at == 0 && op == CoreOp::Reset && stage == CoreStage::Only,
            CoreRequest::Read { .. } => at == 0 && op == CoreOp::ReadWords && stage
                == CoreStage::Only,
            CoreRequest::BreakSet { .. } => at == 0 && op == CoreOp::SetBreakpoint && stage
                == CoreStage::Only,
            CoreRequest::BreakClear { .. } => at == 0 && op == CoreOp::ClearBreakpoint && stage
                == CoreStage::Only,
            CoreRequest::BreakInfo => at == 0 && op == CoreOp::AskUnits && stage == CoreStage::Only,
            CoreRequest::Write { .. } => {
                ||| at == 0 && op == CoreOp::WriteWords && stage == CoreStage::Writing
                ||| at == 1 && op == CoreOp::ReadWords && stage == CoreStage::ReadingBack
                    && events[0] is Done
            },
            CoreRequest::Step { count } => {
                ||| at == 0 && op == CoreOp::AskHalted && stage == CoreStage::StepAsked
                ||| at == 1 && op == CoreOp::Halt && stage == CoreStage::StepHalting && yes(
                    events[0],
                    false,
                )
                ||| op == CoreOp::Step && at > 0 && events[0] is Yes && (
                stage matches CoreStage::Stepping { done } && done < count && at == h + done)
            },
            CoreRequest::Registers => {
                ||| at == 0 && op == CoreOp::AskHalted && stage == CoreStage::RegistersAsked
                ||| at == 1 && op == CoreOp::Halt && stage == CoreStage::RegistersHalting && yes(
                    events[0],
                    false,
                )
                ||| at == h && op == CoreOp::ReadRegisters && events[0] is Yes && (
                stage matches CoreStage::RegistersReading { was_running } && was_running == yes(
                    events[0],
                    false,
                ))
                ||| at == 3 && op == CoreOp::Run && stage == CoreStage::RegistersResuming && yes(
                    events[0],
                    false,
                )
            },
            CoreRequest::RunTo { .. } => {
                ||| at == 0 && op == CoreOp::AskHalted && stage == CoreStage::ToAsked
                ||| at == 1 && op == CoreOp::Halt && stage == CoreStage::ToHalting && yes(
                    events[0],
                    false,
                )
                ||| at > 0 && events[0] is Yes && {
                    let turn = (at - h - 2) % 3;
                    match stage {
                        CoreStage::ToSetting => at == h && op == CoreOp::SetBreakpoint,
                        CoreStage::ToRunning => at == h + 1 && op == CoreOp::Run,
                        CoreStage::ToLooking => at >= h + 2 && turn == 0 && op == CoreOp::AskHalted,
                        CoreStage::ToLate => at >= h + 3 && turn == 1 && op == CoreOp::AskLate
                            && yes(events[at - 1], false),
                        CoreStage::ToPausing => at >= h + 4 && turn == 2 && op == CoreOp::Pause
                            && yes(events[at - 1], false),
                        CoreStage::ToClearing { reached } => {
                            &&& at >= h + 3
                            &&& op == CoreOp::ClearBreakpoint
                            &&& yes(events[at - 1], true)
                            &&& turn == (if reached {
                                1int
                            } else {
                                2
                            })
                        },
                        CoreStage::ToReadingPc { cleared } => {
                            &&& at >= h + 4
                            &&& turn == 2
                            &&& op == CoreOp::ReadPc
                            &&& cleared == (events[at - 1] is Done)
                            &&& yes(events[at - 2], true)
                        },
                        _ => false,
                    }
                }
            },
        },
    }
}

#[verifier::spinoff_prover]
#[verifier::rlimit(40)]
proof fn lemma_simple_stands(
    request: CoreRequest,
    events: Seq<CoreEvent>,
    at: int,
    asked: CoreMove,
    said: Seq<String>,
    next: CoreMove,
)
    requires
        0 < at <= events.len(),
        stands(request, events, at - 1, asked),
        answered_on(request, asked, events[at - 1], said, next),
        !(request is RunTo || request is Step || request is Registers),
    ensures
        stands(request, events, at, next),
{
}

#[verifier::spinoff_prover]
#[verifier::rlimit(40)]
proof fn lemma_halted_stands(
    request: CoreRequest,
    events: Seq<CoreEvent>,
    at: int,
    asked: CoreMove,
    said: Seq<String>,
    next: CoreMove,
)
    requires
        0 < at <= events.len(),
        stands(request, events, at - 1, asked),
        answered_on(request, asked, events[at - 1], said, next),
        request is Step || request is Registers,
    ensures
        stands(request, events, at, next),
{
}

#[verifier::spinoff_prover]
#[verifier::rlimit(40)]
proof fn lemma_run_to_stands(
    request: CoreRequest,
    events: Seq<CoreEvent>,
    at: int,
    asked: CoreMove,
    said: Seq<String>,
    next: CoreMove,
)
    requires
        0 < at <= events.len(),
        stands(request, events, at - 1, asked),
        answered_on(request, asked, events[at - 1], said, next),
        request is RunTo,
    ensures
        stands(request, events, at, next),
{
}

proof fn lemma_stands(
    request: CoreRequest,
    moves: Seq<CoreMove>,
    events: Seq<CoreEvent>,
    said: Seq<Seq<String>>,
    at: int,
)
    requires
        talked(request, moves, events, said),
        0 <= at < moves.len(),
    ensures
        stands(request, events, at, moves[at]),
    decreases at,
{
    if at > 0 {
        lemma_stands(request, moves, events, said, at - 1);
        let (asked, event, lines, next) = (moves[at - 1], events[at - 1], said[at - 1], moves[at]);
        assert(answered_on(request, asked, event, lines, next));
        if request is RunTo {
            lemma_run_to_stands(request, events, at, asked, lines, next);
        } else if request is Step || request is Registers {
            lemma_halted_stands(request, events, at, asked, lines, next);
        } else {
            lemma_simple_stands(request, events, at, asked, lines, next);
        }
    }
}

/// What a command asks of the core, whatever the core answers: each of the
/// simple ones asks for the one thing that it is named after, and for nothing
/// more. A write is followed by a read. Stepping, the registers and running to
/// an address ask whether the core is halted first, and halt one that is not;
/// only the registers, of a core that was not, and running to an address let it
/// run. Nothing resets a core but the two requests to reset it.
pub proof fn law_a_command_asks_for_what_it_says(
    request: CoreRequest,
    moves: Seq<CoreMove>,
    events: Seq<CoreEvent>,
    said: Seq<Seq<String>>,
    at: int,
    op: CoreOp,
)
    requires
        talked(request, moves, events, said),
        0 <= at < moves.len(),
        asks(moves[at], op),
    ensures
        op == CoreOp::Reset <==> request is Reset,
        op == CoreOp::ResetAndHalt <==> request is ResetHalt,
        request is Status ==> at == 0 && op == CoreOp::AskStatus,
        request is Halt ==> at == 0 && op == CoreOp::Halt,
        request is Run ==> at == 0 && op == CoreOp::Run,
        request is Reset ==> at == 0,
        request is ResetHalt ==> at == 0,
        request is Read ==> at == 0 && op == CoreOp::ReadWords,
        request is BreakSet ==> at == 0 && op == CoreOp::SetBreakpoint,
        request is BreakClear ==> at == 0 && op == CoreOp::ClearBreakpoint,
        request is BreakInfo ==> at == 0 && op == CoreOp::AskUnits,
        request is Write ==> op == (if at == 0 {
            CoreOp::WriteWords
        } else {
            CoreOp::ReadWords
        }) && at <= 1,
        op == CoreOp::Halt ==> request is Halt || (at == 1 && yes(events[0], false)),
        op == CoreOp::Step ==> request is Step && at >= halting(events),
        op == CoreOp::Run ==> request is Run || (request is Registers && at == 3 && yes(
            events[0],
            false,
        )) || (request is RunTo && at == halting(events) + 1),
        op == CoreOp::WriteWords ==> request is Write,
        op == CoreOp::SetBreakpoint ==> request is BreakSet || (request is RunTo && at == halting(
            events,
        )),
        op == CoreOp::ClearBreakpoint ==> request is BreakClear || (request is RunTo && at
            >= halting(events) + 3),
        request is Step || request is Registers || request is RunTo ==> (at == 0 ==> op
            == CoreOp::AskHalted),
        request is Step && at > 0 && op != CoreOp::Step ==> op == CoreOp::Halt,
        request is Registers && at == halting(events) ==> op == CoreOp::ReadRegisters,
        request is Registers && at > 0 && op != CoreOp::ReadRegisters ==> op == CoreOp::Halt || op
            == CoreOp::Run,
{
    lemma_stands(request, moves, events, said, at);
}

/// Is this the kind of answer that an operation has?
pub open spec fn answers(op: CoreOp, event: CoreEvent) -> bool {
    match op {
        CoreOp::AskStatus => event is Told,
        CoreOp::AskHalted | CoreOp::AskLate => event is Yes,
        CoreOp::Halt | CoreOp::Step | CoreOp::ResetAndHalt | CoreOp::ReadPc => event is Pc,
        CoreOp::Run
        | CoreOp::Reset
        | CoreOp::WriteWords
        | CoreOp::SetBreakpoint
        | CoreOp::ClearBreakpoint
        | CoreOp::Pause => event is Done,
        CoreOp::ReadRegisters => event is Lines,
        CoreOp::ReadWords => event is Words,
        CoreOp::AskUnits => event is Units,
    }
}

/// How a command ends. One whose last question the core did not answer fails
/// for that; every other is carried to its end. A command to step takes exactly
/// the steps it was told; one to write is good if the same words came back; one
/// to run to an address is good only if the core was seen halted, the
/// breakpoint was cleared after that and the program counter was read, and
/// gives up only after the time was up and the breakpoint was cleared.
pub proof fn law_how_a_command_ends(
    request: CoreRequest,
    moves: Seq<CoreMove>,
    events: Seq<CoreEvent>,
    said: Seq<Seq<String>>,
    op: CoreOp,
    how: CoreEnd,
)
    requires
        talked(request, moves, events, said),
        events.len() > 0,
        asks(moves[events.len() - 1], op),
        moves.last() == CoreMove::Over(how),
    ensures
        ({
            let n = events.len() as int;
            let last = events[n - 1];
            let h = halting(events);
            &&& how == CoreEnd::LastFailed <==> !answers(op, last)
            &&& how == CoreEnd::NotTaken ==> (request matches CoreRequest::Write { values, .. }
                && (last matches CoreEvent::Words(read) && read@ != values@))
            &&& how == CoreEnd::NotReached ==> {
                &&& request is RunTo
                &&& n >= 2 && op == CoreOp::ClearBreakpoint
                &&& asks(moves[n - 2], CoreOp::AskLate) && yes(events[n - 2], true)
            }
            &&& how == CoreEnd::ClearFailed ==> {
                &&& request is RunTo
                &&& n >= 3 && op == CoreOp::ReadPc
                &&& asks(moves[n - 2], CoreOp::ClearBreakpoint) && !(events[n - 2] is Done)
            }
            &&& how == CoreEnd::Good ==> match request {
                CoreRequest::Step { count } => {
                    &&& n == h + count
                    &&& forall|i: int| h <= i < n ==> asks(#[trigger] moves[i], CoreOp::Step)
                },
                CoreRequest::Registers => n == (if yes(events[0], true) {
                    2int
                } else {
                    4
                }),
                CoreRequest::Write { values, .. } => n == 2 && (last matches CoreEvent::Words(read)
                    && read@ == values@),
                CoreRequest::RunTo { .. } => {
                    &&& n >= 5 && op == CoreOp::ReadPc
                    &&& asks(moves[n - 2], CoreOp::ClearBreakpoint) && events[n - 2] is Done
                    &&& asks(moves[n - 3], CoreOp::AskHalted) && yes(events[n - 3], true)
                    &&& asks(moves[h], CoreOp::SetBreakpoint) && events[h] is Done
                    &&& asks(moves[h + 1], CoreOp::Run) && events[h + 1] is Done
                },
                _ => n == 1,
            }
        }),
{
    let n = events.len() as int;
    lemma_stands(request, moves, events, said, n - 1);
    assert(answered_on(request, moves[n - 1], events[n - 1], said[n - 1], moves[n]));
    if n >= 2 {
        lemma_stands(request, moves, events, said, n - 2);
        assert(answered_on(request, moves[n - 2], events[n - 2], said[n - 2], moves[n - 1]));
    }
    if n >= 3 {
        lemma_stands(request, moves, events, said, n - 3);
        assert(answered_on(request, moves[n - 3], events[n - 3], said[n - 3], moves[n - 2]));
    }
    let h = halting(events);
    if request is RunTo && h + 1 < n - 1 {
        lemma_stands(request, moves, events, said, h);
        lemma_stands(request, moves, events, said, h + 1);
        assert(answered_on(request, moves[h], events[h], said[h], moves[h + 1]));
        assert(answered_on(request, moves[h + 1], events[h + 1], said[h + 1], moves[h + 2]));
        assert(answered_on(request, moves[h + 2], events[h + 2], said[h + 2], moves[h + 3]));
    }
    if request is Step {
        assert forall|i: int| h <= i < n implies asks(#[trigger] moves[i], CoreOp::Step) by {
            lemma_stands(request, moves, events, said, i);
            assert(answered_on(request, moves[i], events[i], said[i], moves[i + 1]));
        }
    }
}

/// A core that runs to an address is looked at until it has halted or the time
/// is up, with a pause between two looks, and each look is followed by the
/// question of the time unless the core had halted.
pub proof fn law_a_run_to_looks_and_waits(
    request: CoreRequest,
    moves: Seq<CoreMove>,
    events: Seq<CoreEvent>,
    said: Seq<Seq<String>>,
    at: int,
)
    requires
        talked(request, moves, events, said),
        request is RunTo,
        0 <= at < events.len(),
        at > 1,
        answers(moves[at]->Ask_0, events[at]),
    ensures
        asks(moves[at], CoreOp::Run) ==> asks(moves[at + 1], CoreOp::AskHalted),
        asks(moves[at], CoreOp::SetBreakpoint) ==> asks(moves[at + 1], CoreOp::Run),
        asks(moves[at], CoreOp::AskHalted) ==> asks(
            moves[at + 1],
            if yes(events[at], true) {
                CoreOp::ClearBreakpoint
            } else {
                CoreOp::AskLate
            },
        ),
        asks(moves[at], CoreOp::AskLate) ==> asks(
            moves[at + 1],
            if yes(events[at], true) {
                CoreOp::ClearBreakpoint
            } else {
                CoreOp::Pause
            },
        ),
        asks(moves[at], CoreOp::Pause) ==> asks(moves[at + 1], CoreOp::AskHalted),
{
    lemma_stands(request, moves, events, said, at);
    assert(answered_on(request, moves[at], events[at], said[at], moves[at + 1]));
}

} // verus!
