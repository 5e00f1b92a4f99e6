//! What the interpreter asks of the board, and what it is waiting for.

use super::request::{Target, WireTest};
use crate::engine::Engine;
use crate::swd::bring_up;
use crate::swd::link::{self, LinkView, Step};
use crate::swd::probe;
use crate::swd::{Error, PadOp};
use vstd::prelude::*;

verus! {

/// Work on the UART to the target.
#[derive(Clone, Copy, Debug, Eq, PartialEq, Structural)]
pub enum Serial {
    /// Even parity, as the ROM bootloader needs, or none.
    Parity { even: bool },
    /// Forget what was received.
    Clear,
    /// Drive the transmit line, or let go of it.
    Transmit { driven: bool },
    /// Write [`ENTER_ROM_BOOT`].
    WriteRomBoot,
    /// Write [`ROM_SYNC`].
    WriteSync,
    /// Write the bytes that were handed in, and report how many of them were
    /// taken.
    WriteFrame,
    /// Wait until everything written has left, at most so many ticks.
    Drain { ticks: u16 },
    /// Read what arrives within so many ticks, at most so many bytes.
    Read { capacity: usize, ticks: u16 },
    /// Start to listen for so many milliseconds.
    Open { window_ms: u16 },
    /// Read what arrives before the window closes, at most so many bytes.
    ReadOn { capacity: usize },
    /// Receive on the usual line, or on the transmit line.
    Receive { swapped: bool },
}

/// One thing that only the board can do.
#[derive(Clone, Copy, Debug, Eq, PartialEq, Structural)]
pub enum Action {
    /// Point the multiplexer at a target, then wait.
    Select { target: Target, settle_ms: u16 },
    /// Hold the shared reset line low, or let go of it, then wait.
    Reset { held: bool, settle_ms: u16 },
    /// Read the level of the reset line.
    ReadReset,
    /// Read the levels of both selector pads.
    ReadSelectors,
    DelayUs { delay_us: u16 },
    DelayMs { delay_ms: u16 },
    Uart(Serial),
    /// Set the wire's clock.
    SetClock { clock_hz: u32 },
    /// Read the wire's clock.
    ReadClock,
    /// Change the wire's engine, and read its clock.
    SetEngine(Engine),
    SetPinMap { swapped: bool },
    /// Drive a field and sample the pad at the same time.
    Loopback { bits: u64, width: u8 },
    /// Clear the peripheral's profile and read the cycle counter.
    StartProfile,
    /// Read the cycle counter and the peripheral's profile.
    EndProfile,
    /// Store the network credentials that the job carries.
    Store,
    /// Store that there is no network to join.
    Forget,
}

/// What the board reports back.
#[derive(Debug)]
pub enum Event {
    Done,
    Failed,
    Level(bool),
    Levels(bool, bool),
    Number(u32),
    Field(u64),
    Profile { now: u32, run_cycles: u32, run_count: u32 },
    Bytes(Vec<u8>),
}

/// What the target's power is proven for.
#[derive(Clone, Copy, Debug, Eq, PartialEq, Structural)]
pub enum Goal {
    /// To point the multiplexer at a target.
    Move(Target),
    /// To drive the transmit line of the display's UART.
    Display,
}

/// What follows once the multiplexer is in its passive position.
#[derive(Clone, Copy, Debug, Eq, PartialEq)]
pub enum Then {
    Attach,
    UnderReset,
    PadTest,
    Probe { delay_us: u16 },
    Drive { high: bool },
    Recover { cycles: u16 },
    Wire { test: Option<WireTest> },
    ApWrite { value: u32, clocks: Option<(u8, u8)> },
    Loopback { bits: u64, width: u8 },
    Lines,
    ResetLines,
    /// Is the target powered? Then go on to this.
    Power { goal: Goal },
}

/// What a command is waiting for.
#[derive(Debug)]
pub enum Job {
    Passive(Then),
    AttachReset,
    AttachHeld,
    AttachFreed,
    UnderHeld,
    UnderFreed,
    PadHeld,
    PadFreed { levels: [bool; 4] },
    ProbeHeld { delay_us: u16 },
    ProbeFreed { delay_us: u16 },
    ProbeDelayed,
    ProbeCleared { identity: Result<(u32, u32), Error> },
    DriveHeld { high: bool },
    LinesReset { swdio: bool, swclk: bool },
    BothHeld,
    BothHeldReset { swdio: bool, swclk: bool },
    BothFreed { before: [bool; 3] },
    BothFreedReset { before: [bool; 3], swdio: bool, swclk: bool },
    ResetMoved { held: bool },
    ResetRead,
    MuxMoved { target: Target },
    MuxRead { target: Target },
    MuxBack { reply: Result<[u8; 9], Error> },
    Speed,
    Looped,
    EngineSet,
    PinMapSet { choice: u8 },
    ClockRead,
    ProfileStarted { address: u32, count: usize },
    ProfileEnded { started: u32, count: usize },
    Stored { ssid: String, password: String },
    Forgotten,
    PowerReset { goal: Goal },
    PowerHeld { goal: Goal },
    PowerFreed { goal: Goal },
    Moved { target: Target },
    DisplayDriven,
    DisplayWritten,
    DisplayDrained { written: u32 },
    DisplayBack { taken: Result<u32, Error> },
    PulseRead,
    PulseHeld,
    PulseFreed,
    RomBoot { stage: usize, got: Vec<u8> },
    RomReset { stage: usize },
    RomSync { stage: usize, got: Vec<u8> },
    RomListen { got: Vec<u8>, outcome: Result<Vec<u8>, Error> },
    RomRestore { got: Vec<u8>, outcome: Result<Vec<u8>, Error> },
    ReceiveReady { stage: usize, window_ms: u16 },
    Receiving { got: Vec<u8> },
    CaptureRouted,
    Capturing { stage: usize },
    CaptureBack { outcome: Result<Vec<u8>, Error> },
    SendReady { stage: usize },
    SendWritten,
    SendDrained { accepted: bool },
    SendBack { sent: bool },
    SendAnswered,
}

/// The interpreter's move: something for the board to do first, or the answer.
#[derive(Debug)]
pub enum Turn {
    Ask(Action, Job),
    Answer(Result<Vec<u8>, Error>),
}

/// Is the answer this error?
pub open spec fn refused(turn: Turn, error: Error) -> bool {
    turn == Turn::Answer(Err(error))
}

/// Is the answer these bytes?
pub open spec fn replied(turn: Turn, bytes: Seq<u8>) -> bool {
    turn matches Turn::Answer(Ok(reply)) && reply@ == bytes
}

/// Is a step of the board's work asked for?
pub open spec fn asked(turn: Turn, action: Action, job: Job) -> bool {
    turn == Turn::Ask(action, job)
}

/// The byte that stands for a level.
pub open spec fn level(high: bool) -> u8 {
    if high {
        1
    } else {
        0
    }
}

pub fn level_byte(high: bool) -> (byte: u8)
    ensures
        byte == level(high),
{
    if high {
        1
    } else {
        0
    }
}

/// What the interpreter knows, and the account of the wire.
pub struct HubState {
    pub link: Option<LinkView>,
    pub selected: Target,
    pub attached: bool,
    pub reset_held: bool,
    pub clock_high: bool,
}

/// Did a link do exactly `steps`, and forget what the target was set up for?
pub open spec fn did_afresh(before: LinkView, after: LinkView, steps: Seq<Step>) -> bool {
    after.did(before, steps) && after.selected is None && !after.csw
}

/// Letting go of both lines.
pub open spec fn letting_go() -> Seq<Step> {
    seq![Step::Pads(seq![PadOp::Release])]
}

/// Was the link, where there is one, let go of and nothing else?
pub open spec fn let_go(before: HubState, after: HubState) -> bool {
    &&& after == (HubState { link: after.link, ..before })
    &&& match (before.link, after.link) {
        (None, None) => true,
        (Some(x), Some(y)) => did_afresh(x, y, letting_go()),
        _ => false,
    }
}

/// Did the link do exactly `steps`, and nothing else happen?
pub open spec fn link_did(before: HubState, after: HubState, steps: Seq<Step>) -> bool {
    &&& after == (HubState { link: after.link, ..before })
    &&& before.link is Some
    &&& after.link is Some
    &&& did_afresh(before.link->0, after.link->0, steps)
}

/// Clocking a parked target free, and looking at the lines.
pub open spec fn recovering(seen: Seq<bool>, swdio: bool, swclk: bool) -> Seq<Step> {
    seq![Step::Pads(seq![PadOp::Release]), probe::recovery_clocks(seen)] + bring_up::looked_at(
        swdio,
        swclk,
    )
}

} // verus!
