//! The bridge's command interpreter.
//!
//! A command is decided here and carried out by the board around it. The wire
//! itself is worked from here; whatever else a command needs — the reset line,
//! the multiplexer, the UART, the radio's storage, a delay — is asked for one
//! [`Action`] at a time, and the command goes on when the board reports back.
//! [`Hub::bridge_command`] starts a command and [`Hub::bridge_event`] goes on
//! with it, until the answer is there.

pub mod bench;
pub mod board;
pub mod devices;
pub mod flows;
pub mod job;
pub mod laws;
pub mod radio;
pub mod request;
pub mod resume;
pub mod serial;
pub mod target;
pub mod wire;

pub use self::job::{Action, Event, Job, Serial};
pub use self::radio::WifiControl;
pub use self::request::{Request, Target};
pub use self::target::TargetError;

use crate::bytes;
use crate::frame::{Command, Status, MAX_BLOCK_WORDS};
use crate::swd::memory;
use crate::swd::{Error, SwdIo, SwdLink, MAX_BURST_BITS};
use crate::wifi;
use self::job::{Goal, HubState, Then, Turn};
use vstd::prelude::*;
use vstd::utf8::*;

verus! {

/// The bridge: the wire, and what is known of the board around it.
pub struct Hub<I> {
    pub swd: Option<SwdLink<I>>,
    pub selected: Target,
    pub attached: bool,
    /// Whether *this* firmware is holding the shared reset line down.
    ///
    /// Tracked as intent rather than sampled from the pad: on the STM32G0 NRST
    /// is bidirectional, so the target pulls it low during its own resets, and
    /// a guard that reads the pin cannot tell that apart from a command that
    /// left reset asserted.
    pub reset_held: bool,
    /// The level that SWCLK had when the target's power was last looked for.
    pub clock_high: bool,
    /// The board's pins: SWDIO, SWCLK, reset, both selectors, and the UART's
    /// transmit and receive lines.
    pub pins: [u8; 7],
}

impl<I: SwdIo> View for Hub<I> {
    type V = HubState;

    open spec fn view(&self) -> HubState {
        HubState {
            link: match self.swd {
                Some(link) => Some(link@),
                None => None,
            },
            selected: self.selected,
            attached: self.attached,
            reset_held: self.reset_held,
            clock_high: self.clock_high,
        }
    }
}

/// Something for the board to do first, or the reply to the host.
#[derive(Debug)]
pub enum Move {
    Ask(Action, Job),
    Reply(Status, Vec<u8>),
}

/// Does a command work on the target's bus, so that it needs an attached
/// target?
pub open spec fn touches_target_bus(command: Command) -> bool {
    command == Command::ReadRegister || command == Command::Profile || command
        == Command::MemoryRead || command == Command::ReadRegisterBlock || command
        == Command::WriteRegister || command == Command::WriteRegisterBlock || command
        == Command::SwjSequence
}

/// Does a command read the target's memory?
///
/// A core held in reset answers its whole address space with zeros while the
/// debug ROM keeps responding, so a bulk read looks like it succeeded and
/// returns a plausible blank device. Deliberately not the raw DP/AP commands:
/// connect-under-reset is built on talking to the debug port precisely while
/// reset is asserted.
pub open spec fn reads_target_memory(command: Command) -> bool {
    command == Command::MemoryRead || command == Command::Profile
}

/// Why a command is turned away, if it is.
pub open spec fn turned_away(state: HubState, command: Command) -> Option<Status> {
    if touches_target_bus(command) && !state.attached {
        Some(Status::NotAttached)
    } else if reads_target_memory(command) && state.reset_held {
        Some(Status::TargetInReset)
    } else {
        None
    }
}

/// The status and the payload that an answer makes.
pub open spec fn reply_of(answer: Result<Seq<u8>, Error>) -> (Status, Seq<u8>) {
    match answer {
        Ok(payload) => (Status::Okay, payload),
        Err(Error::WaitTimeout) => (Status::Wait, Seq::empty()),
        Err(Error::Fault) => (Status::Fault, Seq::empty()),
        Err(Error::Parity) => (Status::Parity, Seq::empty()),
        Err(Error::Protocol(ack)) => (Status::Transport, seq![ack]),
        Err(Error::InvalidDpId) => (Status::Transport, seq![1u8]),
        Err(Error::PowerTimeout) => (Status::Transport, seq![2u8]),
        Err(Error::Unaligned) => (Status::Transport, seq![3u8]),
        Err(Error::LineHeldLow) => (Status::Transport, seq![4u8]),
    }
}

/// Is a move the one that a turn of the interpreter makes?
pub open spec fn moved(turn: Turn, next: Move) -> bool {
    match turn {
        Turn::Ask(action, job) => next == Move::Ask(action, job),
        Turn::Answer(answer) => {
            let expected = reply_of(
                match answer {
                    Ok(payload) => Ok(payload@),
                    Err(error) => Err(error),
                },
            );
            next matches Move::Reply(status, payload) && status == expected.0 && payload@
                == expected.1
        },
    }
}

/// Does a request stay within what the wire can clock and the target can
/// address?
pub open spec fn admissible_request(request: Request) -> bool {
    match request {
        Request::MemoryRead { address, count } => memory::addressable(address, count as nat),
        Request::Profile { address, count } => memory::addressable(address, count as nat),
        Request::ApWriteProbe { clocks: Some((after, before)), .. } => after <= MAX_BURST_BITS
            && before <= MAX_BURST_BITS,
        _ => true,
    }
}

/// Does a command with its payload stay within what the wire can clock and the
/// target can address?
pub open spec fn admissible(command: Command, payload: Seq<u8>) -> bool {
    match request::plain_request(command, payload) {
        Ok(request) => admissible_request(request),
        Err(_) => true,
    }
}

/// Can a job be gone on with? Every job that the interpreter asks for can.
pub open spec fn sound(job: Job) -> bool {
    match job {
        Job::Passive(Then::ApWrite { clocks: Some((after, before)), .. }) => after
            <= MAX_BURST_BITS && before <= MAX_BURST_BITS,
        Job::RomSync { got, .. } => got@.len() <= request::RESPONSE_BYTES,
        Job::Receiving { got } => got@.len() < request::RESPONSE_BYTES,
        Job::ProfileStarted { address, count } => memory::addressable(address, count as nat)
            && count <= MAX_BLOCK_WORDS,
        Job::Stored { ssid, .. } => encode_utf8(ssid@).len() <= wifi::MAX_SSID,
        _ => true,
    }
}

/// Is what a turn asks for, where it asks for something, a sound job?
pub open spec fn sound_turn(turn: Turn) -> bool {
    turn matches Turn::Ask(_, job) ==> sound(job)
}

/// The work that a request starts with, once the multiplexer is passive.
pub open spec fn passive_work(request: Request) -> Option<Then> {
    match request {
        Request::Attach => Some(Then::Attach),
        Request::AttachUnderReset => Some(Then::UnderReset),
        Request::PadSelfTest => Some(Then::PadTest),
        Request::RecoveryProbe { delay_us } => Some(Then::Probe { delay_us }),
        Request::DiagnosticSwdio { high } => Some(Then::Drive { high }),
        Request::RecoverLine { cycles } => Some(Then::Recover { cycles }),
        Request::WireProbe { test } => Some(Then::Wire { test }),
        Request::ApWriteProbe { value, clocks } => Some(Then::ApWrite { value, clocks }),
        Request::SpiLoopback { bits, width } => Some(Then::Loopback { bits, width }),
        Request::LineState => Some(Then::Lines),
        Request::ResetLineState => Some(Then::ResetLines),
        _ => None,
    }
}

/// A request that needs the wire's engine, once there is a wire.
pub open spec fn engine_asked(
    before: HubState,
    after: HubState,
    turn: Turn,
    lets_go: bool,
    action: Action,
    next: Job,
) -> bool {
    if before.link is None {
        board::no_link(before, after, turn)
    } else {
        &&& job::asked(turn, action, next)
        &&& if lets_go {
            job::let_go(before, after)
        } else {
            after == before
        }
    }
}

/// A block of memory read and replied with.
pub open spec fn memory_replied(
    before: HubState,
    after: HubState,
    turn: Turn,
    address: u32,
    count: nat,
    words: Seq<u32>,
    result: Result<(), Error>,
) -> bool {
    &&& wire::memory_read(before, after, address, count, words, result)
    &&& wire::settled(turn, result, bytes::words_le(words))
}

/// What a request does first.
pub open spec fn started(
    before: HubState,
    pins: [u8; 7],
    request: Request,
    control: WifiControl,
    after: HubState,
    turn: Turn,
) -> bool {
    match request {
        Request::Hello => after == before && job::replied(turn, seq![0x44u8, 0x41, 0x50, 0x31]),
        Request::EnterRomBoot => {
            &&& job::let_go(before, after)
            &&& turn matches Turn::Ask(Action::Uart(work), Job::RomBoot { stage, got }) && work
                == serial::rom_boot_work(0) && stage == 0 && got@.len() == 0
        },
        Request::UartReceive { window_ms } => after == before && job::asked(
            turn,
            Action::Uart(serial::receive_work(0, window_ms)),
            Job::ReceiveReady { stage: 0, window_ms },
        ),
        Request::UartResetCapture { swapped } => job::let_go(before, after) && job::asked(
            turn,
            Action::Uart(Serial::Receive { swapped }),
            Job::CaptureRouted,
        ),
        Request::MuxProbe { target } => job::let_go(before, after) && job::asked(
            turn,
            Action::Select { target, settle_ms: 5 },
            Job::MuxMoved { target },
        ),
        Request::Detach => job::let_go(HubState { attached: false, ..before }, after)
            && job::replied(turn, Seq::empty()),
        Request::ReadRegister { access_port, register } => match before.link {
            None => board::no_link(before, after, turn),
            Some(_) => wire::register_read(before, after, turn, access_port, register),
        },
        Request::ReadRegisterBlock { access_port, register, count } => match before.link {
            None => board::no_link(before, after, turn),
            Some(_) => exists|words: Seq<u32>| #[trigger]
                wire::register_block_read(
                    before,
                    after,
                    turn,
                    access_port,
                    register,
                    count as nat,
                    words,
                ),
        },
        Request::WriteRegisterBlock { access_port, register, words } => match before.link {
            None => board::no_link(before, after, turn),
            Some(_) => wire::register_block_written(
                before,
                after,
                turn,
                access_port,
                register,
                words@,
            ),
        },
        Request::WriteRegister { access_port, register, value } => match before.link {
            None => board::no_link(before, after, turn),
            Some(_) => wire::register_block_written(
                before,
                after,
                turn,
                access_port,
                register,
                seq![value],
            ),
        },
        Request::SwjSequence { bit_len, bits } => match before.link {
            None => board::no_link(before, after, turn),
            Some(_) => {
                &&& wire::transferred(before, after)
                &&& if 1 <= bit_len <= 64 {
                    &&& wire::steps_between(before, after) == seq![
                        crate::swd::link::clocked_out(
                            crate::bits::bits_of(bits as nat, bit_len as nat),
                        ),
                    ]
                    &&& job::replied(turn, Seq::empty())
                } else {
                    &&& wire::steps_between(before, after).len() == 0
                    &&& job::refused(turn, Error::Protocol(0))
                }
            },
        },
        Request::SetSpeed { clock_hz } => engine_asked(
            before,
            after,
            turn,
            false,
            Action::SetClock { clock_hz },
            Job::Speed,
        ),
        Request::SetEngine { engine } => engine_asked(
            before,
            after,
            turn,
            true,
            Action::SetEngine(engine),
            Job::EngineSet,
        ),
        Request::SetPinMap { choice } => engine_asked(
            before,
            after,
            turn,
            true,
            Action::SetPinMap { swapped: choice != 0 },
            Job::PinMapSet { choice },
        ),
        Request::Capabilities => engine_asked(
            before,
            after,
            turn,
            false,
            Action::ReadClock,
            Job::ClockRead,
        ),
        Request::Profile { address, count } => engine_asked(
            before,
            after,
            turn,
            false,
            Action::StartProfile,
            Job::ProfileStarted { address, count },
        ),
        Request::MemoryRead { address, count } => match before.link {
            None => board::no_link(before, after, turn),
            Some(_) => exists|words: Seq<u32>, result: Result<(), Error>| #[trigger]
                memory_replied(before, after, turn, address, count as nat, words, result),
        },
        Request::Ping => after == before && job::replied(turn, Seq::empty()),
        Request::WifiStatus => after == before && job::replied(turn, radio::status(control)),
        Request::WifiSet { ssid, password } => after == before && job::asked(
            turn,
            Action::Store,
            Job::Stored { ssid, password },
        ),
        Request::WifiForget => after == before && job::asked(
            turn,
            Action::Forget,
            Job::Forgotten,
        ),
        Request::PinMap => after == before && job::replied(turn, pins@),
        Request::Echo { length } => after == before && job::replied(
            turn,
            Seq::new(length as nat, |i: int| 0xa5u8),
        ),
        Request::ResetAssert => after == before && job::asked(
            turn,
            Action::Reset { held: true, settle_ms: 10 },
            Job::ResetMoved { held: true },
        ),
        Request::ResetRelease => after == before && job::asked(
            turn,
            Action::Reset { held: false, settle_ms: 10 },
            Job::ResetMoved { held: false },
        ),
        _ => match passive_work(request) {
            Some(then) => job::let_go(before, after) && job::asked(
                turn,
                Action::Select { target: Target::Stm32, settle_ms: 5 },
                Job::Passive(then),
            ),
            None => false,
        },
    }
}

/// What follows a profiled read's first half.
pub open spec fn profile_resumed(
    before: HubState,
    job: Job,
    event: Event,
    after: HubState,
    turn: Turn,
) -> bool {
    match (job, event) {
        (Job::ProfileStarted { address, count }, Event::Number(start)) => match before.link {
            None => board::no_link(before, after, turn),
            Some(_) => exists|words: Seq<u32>, result: Result<(), Error>|
                #[trigger] wire::memory_read(before, after, address, count as nat, words, result)
                    && match result {
                    Ok(_) => job::asked(
                        turn,
                        Action::EndProfile,
                        Job::ProfileEnded { started: start, count },
                    ),
                    Err(error) => job::refused(turn, error),
                },
        },
        (
            Job::ProfileEnded { started: start, count },
            Event::Profile { now, run_cycles, run_count },
        ) => after == before && job::replied(
            turn,
            bytes::le32(((now - start) % 0x1_0000_0000) as u32) + bytes::le32(run_cycles)
                + bytes::le32(run_count) + bytes::le32(count as u32),
        ),
        _ => resume::failed(before, after, turn),
    }
}

/// What follows once the radio's storage reports back.
pub open spec fn store_resumed(
    control: WifiControl,
    job: Job,
    event: Event,
    control_after: WifiControl,
    turn: Turn,
) -> bool {
    match job {
        Job::Stored { ssid, password } => if event == Event::Done {
            &&& radio::pending_network(control_after) == Some((ssid@, password@))
            &&& !control_after.forget
            &&& control_after.connected == control.connected
            &&& control_after.ip == control.ip
            &&& control_after.ssid@ == ssid@
            &&& job::replied(turn, Seq::empty())
        } else {
            control_after == control && job::refused(turn, Error::Protocol(2))
        },
        _ => if event == Event::Done {
            &&& control_after.pending is None
            &&& control_after.forget
            &&& !control_after.connected
            &&& control_after.ip@ == seq![0u8, 0, 0, 0]
            &&& control_after.ssid@.len() == 0
            &&& job::replied(turn, Seq::empty())
        } else {
            control_after == control && job::refused(turn, Error::Protocol(2))
        },
    }
}

/// The family of commands that a job belongs to.
pub enum Family {
    Attach,
    Lines,
    Probe,
    Engine,
    Power,
    Rom,
    Capture,
    Send,
    Profile,
    Store,
}

pub open spec fn family(job: Job) -> Family {
    match job {
        Job::Passive(_) => Family::Attach,
        Job::AttachReset | Job::AttachHeld | Job::AttachFreed | Job::UnderHeld
        | Job::UnderFreed => Family::Attach,
        Job::PadHeld | Job::PadFreed { .. } | Job::DriveHeld { .. } | Job::LinesReset { .. }
        | Job::BothHeld | Job::BothHeldReset { .. } | Job::BothFreed { .. }
        | Job::BothFreedReset { .. } | Job::ResetMoved { .. } | Job::ResetRead => Family::Lines,
        Job::ProbeHeld { .. } | Job::ProbeFreed { .. } | Job::ProbeDelayed
        | Job::ProbeCleared { .. } | Job::MuxMoved { .. } | Job::MuxRead { .. }
        | Job::MuxBack { .. } => Family::Probe,
        Job::Speed | Job::Looped | Job::EngineSet | Job::PinMapSet { .. }
        | Job::ClockRead => Family::Engine,
        Job::PowerReset { .. } | Job::PowerHeld { .. } | Job::PowerFreed { .. }
        | Job::Moved { .. } | Job::DisplayDriven | Job::DisplayWritten | Job::DisplayDrained { .. }
        | Job::DisplayBack { .. } | Job::PulseRead | Job::PulseHeld | Job::PulseFreed => Family::Power,
        Job::RomBoot { .. } | Job::RomReset { .. } | Job::RomSync { .. } | Job::RomListen { .. }
        | Job::RomRestore { .. } => Family::Rom,
        Job::ReceiveReady { .. } | Job::Receiving { .. } | Job::CaptureRouted
        | Job::Capturing { .. } | Job::CaptureBack { .. } => Family::Capture,
        Job::SendReady { .. } | Job::SendWritten | Job::SendDrained { .. } | Job::SendBack { .. }
        | Job::SendAnswered => Family::Send,
        Job::ProfileStarted { .. } | Job::ProfileEnded { .. } => Family::Profile,
        Job::Stored { .. } | Job::Forgotten => Family::Store,
    }
}

/// What a job does when the board reports back.
pub open spec fn resumed(
    before: HubState,
    control: WifiControl,
    job: Job,
    event: Event,
    after: HubState,
    control_after: WifiControl,
    turn: Turn,
) -> bool {
    &&& family(job) is Store || control_after == control
    &&& match family(job) {
        Family::Attach => match job {
            Job::Passive(then) => if event == Event::Done {
                resume::went_passive(before, then, after, turn)
            } else {
                resume::failed(before, after, turn)
            },
            _ => resume::attach_resumed(before, job, event, after, turn),
        },
        Family::Lines => resume::lines_resumed(before, job, event, after, turn),
        Family::Probe => resume::probe_resumed(before, job, event, after, turn),
        Family::Engine => resume::engine_resumed(before, job, event, after, turn),
        Family::Power => resume::power_resumed(before, job, event, after, turn),
        Family::Rom => serial::rom_resumed(before, job, event, after, turn),
        Family::Capture => serial::capture_resumed(before, job, event, after, turn),
        Family::Send => after == before && serial::send_resumed(job, event, turn),
        Family::Profile => profile_resumed(before, job, event, after, turn),
        Family::Store => after == before && store_resumed(
            control,
            job,
            event,
            control_after,
            turn,
        ),
    }
}

fn family_of(job: &Job) -> (of: Family)
    ensures
        of == family(*job),
{
    match job {
        Job::Passive(_) => Family::Attach,
        Job::AttachReset | Job::AttachHeld | Job::AttachFreed | Job::UnderHeld
        | Job::UnderFreed => Family::Attach,
        Job::PadHeld | Job::PadFreed { .. } | Job::DriveHeld { .. } | Job::LinesReset { .. }
        | Job::BothHeld | Job::BothHeldReset { .. } | Job::BothFreed { .. }
        | Job::BothFreedReset { .. } | Job::ResetMoved { .. } | Job::ResetRead => Family::Lines,
        Job::ProbeHeld { .. } | Job::ProbeFreed { .. } | Job::ProbeDelayed
        | Job::ProbeCleared { .. } | Job::MuxMoved { .. } | Job::MuxRead { .. }
        | Job::MuxBack { .. } => Family::Probe,
        Job::Speed | Job::Looped | Job::EngineSet | Job::PinMapSet { .. }
        | Job::ClockRead => Family::Engine,
        Job::PowerReset { .. } | Job::PowerHeld { .. } | Job::PowerFreed { .. }
        | Job::Moved { .. } | Job::DisplayDriven | Job::DisplayWritten | Job::DisplayDrained { .. }
        | Job::DisplayBack { .. } | Job::PulseRead | Job::PulseHeld | Job::PulseFreed => Family::Power,
        Job::RomBoot { .. } | Job::RomReset { .. } | Job::RomSync { .. } | Job::RomListen { .. }
        | Job::RomRestore { .. } => Family::Rom,
        Job::ReceiveReady { .. } | Job::Receiving { .. } | Job::CaptureRouted
        | Job::Capturing { .. } | Job::CaptureBack { .. } => Family::Capture,
        Job::SendReady { .. } | Job::SendWritten | Job::SendDrained { .. } | Job::SendBack { .. }
        | Job::SendAnswered => Family::Send,
        Job::ProfileStarted { .. } | Job::ProfileEnded { .. } => Family::Profile,
        Job::Stored { .. } | Job::Forgotten => Family::Store,
    }
}

/// The status and the payload that an answer makes.
fn reply(answer: Result<Vec<u8>, Error>) -> (next: Move)
    ensures
        moved(Turn::Answer(answer), next),
{
    let mut payload: Vec<u8> = Vec::new();
    assert(payload@ =~= Seq::empty());
    let status: Status = match answer {
        Ok(payload) => return Move::Reply(Status::Okay, payload),
        Err(Error::WaitTimeout) => Status::Wait,
        Err(Error::Fault) => Status::Fault,
        Err(Error::Parity) => Status::Parity,
        Err(Error::Protocol(ack)) => {
            payload.push(ack);
            assert(payload@ =~= seq![ack]);
            Status::Transport
        },
        Err(Error::InvalidDpId) => {
            payload.push(1);
            assert(payload@ =~= seq![1u8]);
            Status::Transport
        },
        Err(Error::PowerTimeout) => {
            payload.push(2);
            assert(payload@ =~= seq![2u8]);
            Status::Transport
        },
        Err(Error::Unaligned) => {
            payload.push(3);
            assert(payload@ =~= seq![3u8]);
            Status::Transport
        },
        Err(Error::LineHeldLow) => {
            payload.push(4);
            assert(payload@ =~= seq![4u8]);
            Status::Transport
        },
    };
    Move::Reply(status, payload)
}

fn to_move(turn: Turn) -> (next: Move)
    ensures
        moved(turn, next),
{
    match turn {
        Turn::Ask(action, job) => Move::Ask(action, job),
        Turn::Answer(answer) => reply(answer),
    }
}

fn empty_answer() -> (turn: Turn)
    ensures
        job::replied(turn, Seq::empty()),
{
    let reply: Vec<u8> = Vec::new();
    assert(reply@ =~= Seq::empty());
    Turn::Answer(Ok(reply))
}

fn addressable(address: u32, count: usize) -> (yes: bool)
    requires
        count <= MAX_BLOCK_WORDS,
    ensures
        yes == memory::addressable(address, count as nat),
{
    address % 4 != 0 || address as u64 + 4 * (count as u64) <= 0x1_0000_0000
}

/// Does a command with its payload stay within what the wire can clock and the
/// target can address?
pub fn is_admissible(command: Command, payload: &[u8]) -> (yes: bool)
    ensures
        yes == admissible(command, payload@),
{
    match command {
        Command::WriteRegisterBlock | Command::WifiSet => return true,
        _ => {},
    }
    match request::parse(command, payload) {
        Ok(Request::MemoryRead { address, count }) => addressable(address, count),
        Ok(Request::Profile { address, count }) => addressable(address, count),
        Ok(Request::ApWriteProbe { clocks: Some((after, before)), .. }) => after <= MAX_BURST_BITS
            && before <= MAX_BURST_BITS,
        _ => true,
    }
}

impl<I: SwdIo> Hub<I> {
    /// A bridge whose board is at rest: the multiplexer passive, reset let go
    /// of, and no target attached.
    pub fn new(swd: Option<SwdLink<I>>, pins: [u8; 7]) -> (hub: Hub<I>)
        ensures
            hub.swd == swd,
            hub.selected == Target::Stm32,
            !hub.attached,
            !hub.reset_held,
            !hub.clock_high,
            hub.pins == pins,
    {
        Hub {
            swd,
            selected: Target::Stm32,
            attached: false,
            reset_held: false,
            clock_high: false,
            pins,
        }
    }

    /// Why a command is turned away, if it is, whatever its payload.
    pub fn gate(&self, command: Command) -> (status: Option<Status>)
        ensures
            status == turned_away(self@, command),
    {
        let touches: bool = match command {
            Command::ReadRegister | Command::Profile | Command::MemoryRead
            | Command::ReadRegisterBlock | Command::WriteRegister | Command::WriteRegisterBlock
            | Command::SwjSequence => true,
            _ => false,
        };
        if touches && !self.attached {
            return Some(Status::NotAttached);
        }
        let reads: bool = match command {
            Command::MemoryRead | Command::Profile => true,
            _ => false,
        };
        if reads && self.reset_held {
            return Some(Status::TargetInReset);
        }
        None
    }

    /// Asks for the wire's engine, where there is a wire.
    fn ask_engine(&mut self, lets_go: bool, action: Action, next: Job) -> (turn: Turn)
        ensures
            engine_asked(old(self)@, final(self)@, turn, lets_go, action, next),
            final(self).pins == old(self).pins,
    {
        if self.swd.is_none() {
            return Turn::Answer(Err(Error::Protocol(0)));
        }
        if lets_go {
            self.let_go();
        }
        Turn::Ask(action, next)
    }

    fn reply_memory(&mut self, address: u32, count: usize) -> (turn: Turn)
        requires
            memory::addressable(address, count as nat),
        ensures
            match old(self)@.link {
                None => board::no_link(old(self)@, final(self)@, turn),
                Some(_) => exists|words: Seq<u32>, result: Result<(), Error>| #[trigger]
                    memory_replied(
                        old(self)@,
                        final(self)@,
                        turn,
                        address,
                        count as nat,
                        words,
                        result,
                    ),
            },
            final(self).pins == old(self).pins,
    {
        let ghost before = self@;
        let (result, words): (Result<(), Error>, Vec<u32>) = self.read_memory(address, count);
        let ghost told = result;
        let turn: Turn = match result {
            Ok(_) => {
                let mut reply: Vec<u8> = Vec::new();
                bytes::push_words(&mut reply, words.as_slice());
                assert(reply@ =~= bytes::words_le(words@));
                Turn::Answer(Ok(reply))
            },
            Err(error) => Turn::Answer(Err(error)),
        };
        proof {
            if before.link is Some {
                assert(memory_replied(
                    before,
                    self@,
                    turn,
                    address,
                    count as nat,
                    words@,
                    told,
                ));
            }
        }
        turn
    }

    /// Starts the requests that leave the board alone.
    fn start_plain(&mut self, request: Request, control: &WifiControl) -> (turn: Turn)
        requires
            admissible_request(request),
            passive_work(request) is None,
            radio::well_formed(*control),
            request matches Request::ReadRegisterBlock { count, .. } ==> count <= MAX_BLOCK_WORDS,
        ensures
            started(old(self)@, old(self).pins, request, *control, final(self)@, turn),
            final(self).pins == old(self).pins,
    {
        match request {
            Request::Hello => {
                let reply: Vec<u8> = vec![0x44u8, 0x41, 0x50, 0x31];
                assert(reply@ =~= seq![0x44u8, 0x41, 0x50, 0x31]);
                Turn::Answer(Ok(reply))
            },
            Request::EnterRomBoot => self.start_rom_boot(),
            Request::UartReceive { window_ms } => self.start_receive(window_ms),
            Request::UartResetCapture { swapped } => self.start_capture(swapped),
            Request::MuxProbe { target } => {
                self.let_go();
                Turn::Ask(Action::Select { target, settle_ms: 5 }, Job::MuxMoved { target })
            },
            Request::Detach => {
                self.attached = false;
                self.let_go();
                empty_answer()
            },
            Request::ReadRegister { access_port, register } => self.read_register(
                access_port,
                register,
            ),
            Request::ReadRegisterBlock { access_port, register, count } => self.read_register_block(
                access_port,
                register,
                count,
            ),
            Request::WriteRegisterBlock { access_port, register, words } => self.write_register_block(
                access_port,
                register,
                &words,
            ),
            Request::WriteRegister { access_port, register, value } => self.write_register(
                access_port,
                register,
                value,
            ),
            Request::SwjSequence { bit_len, bits } => self.swj_sequence(bit_len, bits),
            Request::SetSpeed { clock_hz } => self.ask_engine(
                false,
                Action::SetClock { clock_hz },
                Job::Speed,
            ),
            Request::SetEngine { engine } => self.ask_engine(
                true,
                Action::SetEngine(engine),
                Job::EngineSet,
            ),
            Request::SetPinMap { choice } => self.ask_engine(
                true,
                Action::SetPinMap { swapped: choice != 0 },
                Job::PinMapSet { choice },
            ),
            Request::Capabilities => self.ask_engine(false, Action::ReadClock, Job::ClockRead),
            Request::Profile { address, count } => self.ask_engine(
                false,
                Action::StartProfile,
                Job::ProfileStarted { address, count },
            ),
            Request::MemoryRead { address, count } => self.reply_memory(address, count),
            Request::Ping => empty_answer(),
            Request::WifiStatus => Turn::Answer(Ok(control.status())),
            Request::WifiSet { ssid, password } => Turn::Ask(
                Action::Store,
                Job::Stored { ssid, password },
            ),
            Request::WifiForget => Turn::Ask(Action::Forget, Job::Forgotten),
            Request::PinMap => {
                let reply: Vec<u8> = vstd::slice::slice_to_vec(self.pins.as_slice());
                assert(reply@ =~= self.pins@);
                Turn::Answer(Ok(reply))
            },
            Request::Echo { length } => {
                let reply: Vec<u8> = vec![0xa5u8; length];
                assert(reply@ =~= Seq::new(length as nat, |i: int| 0xa5u8));
                Turn::Answer(Ok(reply))
            },
            Request::ResetAssert => Turn::Ask(
                Action::Reset { held: true, settle_ms: 10 },
                Job::ResetMoved { held: true },
            ),
            _ => Turn::Ask(
                Action::Reset { held: false, settle_ms: 10 },
                Job::ResetMoved { held: false },
            ),
        }
    }

    /// Starts a request.
    fn try_bridge_command(&mut self, request: Request, control: &WifiControl) -> (turn: Turn)
        requires
            admissible_request(request),
            radio::well_formed(*control),
            request matches Request::ReadRegisterBlock { count, .. } ==> count <= MAX_BLOCK_WORDS,
            request matches Request::Profile { count, .. } ==> count <= MAX_BLOCK_WORDS,
            request matches Request::WifiSet { ssid, .. } ==> encode_utf8(ssid@).len()
                <= wifi::MAX_SSID,
        ensures
            started(old(self)@, old(self).pins, request, *control, final(self)@, turn),
            sound_turn(turn),
            final(self).pins == old(self).pins,
    {
        let then: Then = match &request {
            Request::Attach => Then::Attach,
            Request::AttachUnderReset => Then::UnderReset,
            Request::PadSelfTest => Then::PadTest,
            Request::RecoveryProbe { delay_us } => Then::Probe { delay_us: *delay_us },
            Request::DiagnosticSwdio { high } => Then::Drive { high: *high },
            Request::RecoverLine { cycles } => Then::Recover { cycles: *cycles },
            Request::WireProbe { test } => Then::Wire { test: *test },
            Request::ApWriteProbe { value, clocks } => Then::ApWrite {
                value: *value,
                clocks: *clocks,
            },
            Request::SpiLoopback { bits, width } => Then::Loopback { bits: *bits, width: *width },
            Request::LineState => Then::Lines,
            Request::ResetLineState => Then::ResetLines,
            _ => return self.start_plain(request, control),
        };
        self.start_passive(then)
    }

    /// Starts a command that the host sent.
    pub fn bridge_command(
        &mut self,
        command: Command,
        payload: &[u8],
        control: &WifiControl,
    ) -> (next: Move)
        requires
            turned_away(old(self)@, command) is None ==> admissible(command, payload@),
            radio::well_formed(*control),
        ensures
            match turned_away(old(self)@, command) {
                Some(reason) => {
                    &&& final(self)@ == old(self)@
                    &&& next matches Move::Reply(status, reply) && status == reason
                        && reply@.len() == 0
                },
                None => exists|parsed: Result<Request, Error>, turn: Turn|
                    #![trigger request::requested(command, payload@, parsed), moved(turn, next)]
                    {
                        &&& request::requested(command, payload@, parsed)
                        &&& moved(turn, next)
                        &&& match parsed {
                            Err(error) => final(self)@ == old(self)@ && job::refused(turn, error),
                            Ok(request) => started(
                                old(self)@,
                                old(self).pins,
                                request,
                                *control,
                                final(self)@,
                                turn,
                            ),
                        }
                    },
            },
            next matches Move::Ask(_, job) ==> sound(job),
            final(self).pins == old(self).pins,
    {
        if let Some(status) = self.gate(command) {
            return Move::Reply(status, Vec::new());
        }
        let parsed: Result<Request, Error> = request::parse(command, payload);
        let ghost told = parsed;
        let turn: Turn = match parsed {
            Err(error) => Turn::Answer(Err(error)),
            Ok(request) => {
                proof {
                    lemma_unpacked_fits(payload@);
                }
                self.try_bridge_command(request, control)
            },
        };
        let ghost turned = turn;
        let next: Move = to_move(turn);
        proof {
            assert(request::requested(command, payload@, told));
            assert(moved(turned, next));
        }
        next
    }

    /// Starts to point the multiplexer at a target, which needs the target's
    /// power proven first: driving a selector high into an unpowered board
    /// back-feeds its supply.
    pub fn select(&mut self, target: Target) -> (next: Move)
        ensures
            job::let_go(old(self)@, final(self)@),
            next == Move::Ask(
                Action::Select { target: Target::Stm32, settle_ms: 5 },
                Job::Passive(Then::Power { goal: Goal::Move(target) }),
            ),
            final(self).pins == old(self).pins,
    {
        to_move(self.start_passive(Then::Power { goal: Goal::Move(target) }))
    }

    /// Starts to write a frame to the display, which needs the target's power
    /// proven first, for the same reason. The answer is how many bytes of the
    /// frame were taken.
    pub fn write_display(&mut self) -> (next: Move)
        ensures
            job::let_go(old(self)@, final(self)@),
            next == Move::Ask(
                Action::Select { target: Target::Stm32, settle_ms: 5 },
                Job::Passive(Then::Power { goal: Goal::Display }),
            ),
            final(self).pins == old(self).pins,
    {
        to_move(self.start_passive(Then::Power { goal: Goal::Display }))
    }

    /// Starts to write bytes to the target's UART and to capture whatever it
    /// answers, in one round trip: the plane is request and response, so a
    /// separate capture would race the reply.
    pub fn send_uart(&mut self) -> (next: Move)
        ensures
            *final(self) == *old(self),
            next == Move::Ask(Action::Uart(serial::send_work(0)), Job::SendReady { stage: 0 }),
    {
        to_move(self.start_send())
    }

    /// Starts to pulse the shared reset line, which only a line that is pulled
    /// up can be.
    pub fn pulse_reset_all(&mut self) -> (next: Move)
        ensures
            *final(self) == *old(self),
            next == Move::Ask(Action::ReadReset, Job::PulseRead),
    {
        Move::Ask(Action::ReadReset, Job::PulseRead)
    }

    fn resume_profile(&mut self, job: Job, event: Event) -> (turn: Turn)
        requires
            sound(job),
        ensures
            profile_resumed(old(self)@, job, event, final(self)@, turn),
            family(job) is Profile ==> sound_turn(turn),
            final(self).pins == old(self).pins,
    {
        let ghost before = self@;
        match (job, event) {
            (Job::ProfileStarted { address, count }, Event::Number(start)) => {
                let (result, words): (Result<(), Error>, Vec<u32>) = self.read_memory(
                    address,
                    count,
                );
                let ghost told = result;
                let turn: Turn = match result {
                    Ok(_) => Turn::Ask(
                        Action::EndProfile,
                        Job::ProfileEnded { started: start, count },
                    ),
                    Err(error) => Turn::Answer(Err(error)),
                };
                proof {
                    if before.link is Some {
                        assert(wire::memory_read(
                            before,
                            self@,
                            address,
                            count as nat,
                            words@,
                            told,
                        ));
                    }
                }
                turn
            },
            (
                Job::ProfileEnded { started: start, count },
                Event::Profile { now, run_cycles, run_count },
            ) => {
                let elapsed: u32 = crate::cycles::elapsed(start, now);
                let mut reply: Vec<u8> = Vec::new();
                bytes::push_le32(&mut reply, elapsed);
                bytes::push_le32(&mut reply, run_cycles);
                bytes::push_le32(&mut reply, run_count);
                bytes::push_le32(&mut reply, count as u32);
                assert(reply@ =~= bytes::le32(elapsed) + bytes::le32(run_cycles) + bytes::le32(
                    run_count,
                ) + bytes::le32(count as u32));
                Turn::Answer(Ok(reply))
            },
            _ => Turn::Answer(Err(Error::Protocol(0))),
        }
    }

    fn resume_store(&mut self, job: Job, event: Event, control: &mut WifiControl) -> (turn: Turn)
        requires
            sound(job),
            radio::well_formed(*old(control)),
        ensures
            *final(self) == *old(self),
            store_resumed(*old(control), job, event, *final(control), turn),
            radio::well_formed(*final(control)),
            turn is Answer,
    {
        let done: bool = match event {
            Event::Done => true,
            _ => false,
        };
        if !done {
            return Turn::Answer(Err(Error::Protocol(2)));
        }
        match job {
            Job::Stored { ssid, password } => control.ask(ssid, password),
            _ => control.ask_to_forget(),
        }
        empty_answer()
    }

    /// Goes on with a job.
    fn try_bridge_event(&mut self, job: Job, event: Event, control: &mut WifiControl) -> (turn:
        Turn)
        requires
            sound(job),
            radio::well_formed(*old(control)),
        ensures
            resumed(
                old(self)@,
                *old(control),
                job,
                event,
                final(self)@,
                *final(control),
                turn,
            ),
            sound_turn(turn),
            radio::well_formed(*final(control)),
            final(self).pins == old(self).pins,
    {
        match family_of(&job) {
            Family::Attach => {
                if let Job::Passive(then) = job {
                    let done: bool = match event {
                        Event::Done => true,
                        _ => false,
                    };
                    if done {
                        self.resume_passive(then)
                    } else {
                        Turn::Answer(Err(Error::Protocol(0)))
                    }
                } else {
                    self.resume_attach(job, event)
                }
            },
            Family::Lines => self.resume_lines(job, event),
            Family::Probe => self.resume_probe(job, event),
            Family::Engine => self.resume_engine(job, event),
            Family::Power => self.resume_power(job, event),
            Family::Rom => self.resume_rom(job, event),
            Family::Capture => self.resume_capture(job, event),
            Family::Send => self.resume_send(job, event),
            Family::Profile => self.resume_profile(job, event),
            Family::Store => self.resume_store(job, event, control),
        }
    }

    /// Goes on with a command once the board reports back.
    pub fn bridge_event(&mut self, job: Job, event: Event, control: &mut WifiControl) -> (next:
        Move)
        requires
            sound(job),
            radio::well_formed(*old(control)),
        ensures
            exists|turn: Turn| #[trigger]
                moved(turn, next) && resumed(
                    old(self)@,
                    *old(control),
                    job,
                    event,
                    final(self)@,
                    *final(control),
                    turn,
                ),
            next matches Move::Ask(_, job) ==> sound(job),
            radio::well_formed(*final(control)),
            final(self).pins == old(self).pins,
    {
        let turn: Turn = self.try_bridge_event(job, event, control);
        let ghost turned = turn;
        let next: Move = to_move(turn);
        assert(moved(turned, next));
        next
    }
}

/// A network's name that was unpacked is short enough to exist.
proof fn lemma_unpacked_fits(payload: Seq<u8>)
    ensures
        wifi::unpacked(payload) matches Some((ssid, _)) ==> encode_utf8(ssid).len()
            <= wifi::MAX_SSID,
{
    if let Some(at) = wifi::parted(payload) {
        let ssid = payload.subrange(2, at);
        if valid_utf8(ssid) {
            decode_utf8_encode_utf8(ssid);
        }
    }
}

} // verus!
