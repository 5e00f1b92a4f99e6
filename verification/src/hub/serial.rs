//! The commands that talk to the target over its UART.

use super::board;
use super::job::{self, Action, Event, HubState, Job, Serial, Turn};
use super::request::RESPONSE_BYTES;
use super::resume;
use super::Hub;
use crate::swd::io;
use crate::swd::link::Step;
use crate::swd::{Error, PadOp, SwdIo};
use vstd::prelude::*;

verus! {

/// The application's command to enter the ROM bootloader: a COBS frame with a
/// CRC16/CCITT-FALSE and a delimiter.
pub const ENTER_ROM_BOOT: [u8; 10] = [5, 1, 0x41, 3, 3, 4, 5, 0xa0, 0x62, 0];

/// What the ROM bootloader takes its baud rate from.
pub const ROM_SYNC: [u8; 1] = [0x7f];

/// How many ticks the UART is given, where the target is to answer at once.
pub const SHORT_WAIT: u16 = 100;

/// How many ticks it is given, where the target has something to do first.
pub const LONG_WAIT: u16 = 200;

/// The work that asks the application to enter the ROM bootloader.
pub open spec fn rom_boot_work(stage: usize) -> Serial {
    if stage == 0 {
        Serial::Parity { even: false }
    } else if stage == 1 {
        Serial::Clear
    } else if stage == 2 {
        Serial::Transmit { driven: true }
    } else if stage == 3 {
        Serial::WriteRomBoot
    } else if stage == 4 {
        Serial::Drain { ticks: SHORT_WAIT }
    } else if stage == 5 {
        Serial::Transmit { driven: false }
    } else {
        Serial::Read { capacity: RESPONSE_BYTES, ticks: SHORT_WAIT }
    }
}

/// The work that synchronises with the ROM bootloader. It uses 8E1 where the
/// application uses 8N1, so parity changes only after the application had a
/// chance to jump.
pub open spec fn rom_sync_work(stage: usize, got: int) -> Serial {
    if stage == 1 {
        Serial::Parity { even: true }
    } else if stage == 2 {
        Serial::Clear
    } else if stage == 3 {
        Serial::Transmit { driven: true }
    } else if stage == 4 {
        Serial::WriteSync
    } else if stage == 5 {
        Serial::Drain { ticks: SHORT_WAIT }
    } else if stage == 6 {
        Serial::Transmit { driven: false }
    } else {
        Serial::Read { capacity: (RESPONSE_BYTES - got) as usize, ticks: SHORT_WAIT }
    }
}

/// The work that a passive capture starts with. What was received between two
/// captures is deliberately not forgotten.
pub open spec fn receive_work(stage: usize, window_ms: u16) -> Serial {
    if stage == 0 {
        Serial::Parity { even: false }
    } else if stage == 1 {
        Serial::Transmit { driven: false }
    } else {
        Serial::Open { window_ms }
    }
}

/// The work that captures what a target says out of reset.
pub open spec fn capture_work(stage: usize) -> Action {
    if stage == 0 {
        Action::Uart(Serial::Parity { even: false })
    } else if stage == 1 {
        Action::Uart(Serial::Clear)
    } else if stage == 2 {
        Action::Uart(Serial::Transmit { driven: false })
    } else if stage == 3 {
        Action::Reset { held: true, settle_ms: 10 }
    } else if stage == 4 {
        Action::Reset { held: false, settle_ms: 10 }
    } else {
        Action::Uart(Serial::Read { capacity: RESPONSE_BYTES, ticks: LONG_WAIT })
    }
}

/// The work that writes to the target's UART.
pub open spec fn send_work(stage: usize) -> Serial {
    if stage == 0 {
        Serial::Parity { even: false }
    } else if stage == 1 {
        Serial::Clear
    } else if stage == 2 {
        Serial::Transmit { driven: true }
    } else {
        Serial::WriteFrame
    }
}

/// As much of what was read as was asked for.
pub open spec fn at_most(bytes: Seq<u8>, capacity: int) -> Seq<u8> {
    if bytes.len() <= capacity {
        bytes
    } else {
        bytes.take(capacity)
    }
}

/// What an event brought: nothing, where the read failed.
pub open spec fn brought(event: Event, capacity: int) -> Seq<u8> {
    match event {
        Event::Bytes(bytes) => at_most(bytes@, capacity),
        _ => Seq::empty(),
    }
}

/// Is the next step of the ROM bootloader's synchronisation asked for?
pub open spec fn sync_asked(turn: Turn, action: Action, stage: usize, got: Seq<u8>) -> bool {
    turn matches Turn::Ask(asked, Job::RomSync { stage: next, got: so_far }) && asked == action
        && next == stage && so_far@ == got
}

/// Is the UART given back, with this outcome to report?
pub open spec fn restore_asked(
    turn: Turn,
    got: Seq<u8>,
    outcome: Result<Seq<u8>, Error>,
) -> bool {
    turn matches Turn::Ask(
        Action::Uart(Serial::Transmit { driven: false }),
        Job::RomListen { got: so_far, outcome: told },
    ) && so_far@ == got && same_outcome(told, outcome)
}

/// Are these the same outcome?
pub open spec fn same_outcome(told: Result<Vec<u8>, Error>, outcome: Result<Seq<u8>, Error>) -> bool {
    match (told, outcome) {
        (Ok(bytes), Ok(expected)) => bytes@ == expected,
        (Err(error), Err(expected)) => error == expected,
        _ => false,
    }
}

/// BOOT0 driven high with SWDIO released.
pub open spec fn booted(before: HubState, after: HubState) -> bool {
    &&& after == (HubState { link: after.link, ..before })
    &&& before.link is Some
    &&& after.link is Some
    &&& after.link->0.did(
        before.link->0,
        seq![
            Step::Pads(
                io::uninterrupted(
                    seq![
                        PadOp::Input,
                        PadOp::Clock(true),
                        PadOp::ClockOutput,
                        PadOp::HalfCycle,
                    ],
                ),
            ),
        ],
    )
    &&& after.link->0.selected == before.link->0.selected
    &&& after.link->0.csw == before.link->0.csw
}

/// What follows once the board reports on the way into the ROM bootloader.
pub open spec fn rom_resumed(
    before: HubState,
    job: Job,
    event: Event,
    after: HubState,
    turn: Turn,
) -> bool {
    match job {
        Job::RomBoot { stage, got } => if stage < 6 {
            if event == Event::Done {
                &&& after == before
                &&& turn matches Turn::Ask(Action::Uart(work), Job::RomBoot { stage: next, got: g })
                    && work == rom_boot_work((stage + 1) as usize) && next == stage + 1 && g@ == got@
            } else {
                resume::failed(before, after, turn)
            }
        } else {
            let answer = brought(event, RESPONSE_BYTES as int);
            &&& after == before
            &&& if answer.len() == 0 {
                job::asked(
                    turn,
                    Action::Reset { held: true, settle_ms: 0 },
                    Job::RomReset { stage: 0 },
                )
            } else {
                sync_asked(turn, Action::DelayMs { delay_ms: 100 }, 0, answer)
            }
        },
        Job::RomReset { stage } => if event != Event::Done {
            resume::failed(before, after, turn)
        } else if stage == 0 {
            let here = board::with_reset(before, true);
            match here.link {
                None => board::no_link(here, after, turn),
                Some(_) => booted(here, after) && job::asked(
                    turn,
                    Action::DelayMs { delay_ms: 10 },
                    Job::RomReset { stage: 1 },
                ),
            }
        } else if stage == 1 {
            after == before && job::asked(
                turn,
                Action::Reset { held: false, settle_ms: 10 },
                Job::RomReset { stage: 2 },
            )
        } else {
            let here = board::with_reset(before, false);
            match here.link {
                None => board::no_link(here, after, turn),
                Some(_) => job::let_go(here, after) && sync_asked(
                    turn,
                    Action::DelayMs { delay_ms: 100 },
                    0,
                    Seq::empty(),
                ),
            }
        },
        Job::RomSync { stage, got } => {
            &&& after == before
            &&& if stage == 0 || (stage < 7 && event == Event::Done) {
                sync_asked(
                    turn,
                    Action::Uart(rom_sync_work((stage + 1) as usize, got@.len() as int)),
                    (stage + 1) as usize,
                    got@,
                )
            } else if stage == 1 {
                job::refused(turn, Error::Protocol(0))
            } else if stage < 7 {
                restore_asked(turn, got@, Err(Error::Protocol(0)))
            } else {
                restore_asked(turn, got@, Ok(brought(event, RESPONSE_BYTES - got@.len())))
            }
        },
        Job::RomListen { got, outcome } => {
            &&& after == before
            &&& turn matches Turn::Ask(
                Action::Uart(Serial::Parity { even: false }),
                Job::RomRestore { got: g, outcome: o },
            ) && g@ == got@ && o == outcome
        },
        Job::RomRestore { got, outcome } => {
            &&& after == before
            &&& match outcome {
                Err(error) => job::refused(turn, error),
                Ok(bytes) => if event == Event::Done {
                    job::replied(turn, got@ + bytes@)
                } else {
                    job::refused(turn, Error::Protocol(0))
                },
            }
        },
        _ => resume::failed(before, after, turn),
    }
}

/// What follows once the board reports on a capture of what the target says.
pub open spec fn capture_resumed(
    before: HubState,
    job: Job,
    event: Event,
    after: HubState,
    turn: Turn,
) -> bool {
    match job {
        Job::ReceiveReady { stage, window_ms } => if event != Event::Done {
            resume::failed(before, after, turn)
        } else if stage < 2 {
            after == before && job::asked(
                turn,
                Action::Uart(receive_work((stage + 1) as usize, window_ms)),
                Job::ReceiveReady { stage: (stage + 1) as usize, window_ms },
            )
        } else {
            &&& after == before
            &&& turn matches Turn::Ask(Action::Uart(work), Job::Receiving { got }) && work
                == (Serial::ReadOn { capacity: RESPONSE_BYTES }) && got@.len() == 0
        },
        Job::Receiving { got } => {
            let more = brought(event, RESPONSE_BYTES - got@.len());
            let all = got@ + more;
            &&& after == before
            &&& if more.len() == 0 || all.len() >= RESPONSE_BYTES {
                job::replied(turn, all)
            } else {
                turn matches Turn::Ask(Action::Uart(work), Job::Receiving { got: so_far }) && work
                    == (Serial::ReadOn { capacity: (RESPONSE_BYTES - all.len()) as usize })
                    && so_far@ == all
            }
        },
        Job::CaptureRouted => if event != Event::Done {
            resume::failed(before, after, turn)
        } else {
            after == before && job::asked(turn, capture_work(0), Job::Capturing { stage: 0 })
        },
        Job::Capturing { stage } => {
            &&& after == (if event == Event::Done && stage == 3 {
                board::with_reset(before, true)
            } else if event == Event::Done && stage == 4 {
                board::with_reset(before, false)
            } else {
                before
            })
            &&& if stage < 5 && event == Event::Done {
                job::asked(
                    turn,
                    capture_work((stage + 1) as usize),
                    Job::Capturing { stage: (stage + 1) as usize },
                )
            } else {
                turn matches Turn::Ask(
                    Action::Uart(Serial::Receive { swapped: false }),
                    Job::CaptureBack { outcome },
                ) && same_outcome(
                    outcome,
                    if stage < 5 {
                        Err(Error::Protocol(0))
                    } else {
                        Ok(brought(event, RESPONSE_BYTES as int))
                    },
                )
            }
        },
        Job::CaptureBack { outcome } => {
            &&& after == before
            &&& match outcome {
                Err(error) => job::refused(turn, error),
                Ok(bytes) => if event == Event::Done {
                    job::replied(turn, bytes@)
                } else {
                    job::refused(turn, Error::Protocol(0))
                },
            }
        },
        _ => resume::failed(before, after, turn),
    }
}

/// What follows once the board reports on bytes written to the target's UART.
/// The line is let go of whatever came of them: left driven, it would fight the
/// target's own transmitter.
pub open spec fn send_resumed(job: Job, event: Event, turn: Turn) -> bool {
    match job {
        Job::SendReady { stage } => if event != Event::Done {
            job::refused(turn, Error::Protocol(0))
        } else {
            job::asked(
                turn,
                Action::Uart(send_work(if stage < 2 { (stage + 1) as usize } else { 3 })),
                if stage < 2 {
                    Job::SendReady { stage: (stage + 1) as usize }
                } else {
                    Job::SendWritten
                },
            )
        },
        Job::SendWritten => job::asked(
            turn,
            Action::Uart(Serial::Drain { ticks: LONG_WAIT }),
            Job::SendDrained { accepted: event is Number },
        ),
        Job::SendDrained { accepted } => job::asked(
            turn,
            Action::Uart(Serial::Transmit { driven: false }),
            Job::SendBack { sent: accepted && event == Event::Done },
        ),
        Job::SendBack { sent } => if sent && event == Event::Done {
            job::asked(
                turn,
                Action::Uart(Serial::Read { capacity: RESPONSE_BYTES, ticks: LONG_WAIT }),
                Job::SendAnswered,
            )
        } else {
            job::refused(turn, Error::Protocol(0))
        },
        Job::SendAnswered => job::replied(turn, brought(event, RESPONSE_BYTES as int)),
        _ => job::refused(turn, Error::Protocol(0)),
    }
}

fn rom_boot_step(stage: usize) -> (work: Serial)
    ensures
        work == rom_boot_work(stage),
{
    match stage {
        0 => Serial::Parity { even: false },
        1 => Serial::Clear,
        2 => Serial::Transmit { driven: true },
        3 => Serial::WriteRomBoot,
        4 => Serial::Drain { ticks: SHORT_WAIT },
        5 => Serial::Transmit { driven: false },
        _ => Serial::Read { capacity: RESPONSE_BYTES, ticks: SHORT_WAIT },
    }
}

fn rom_sync_step(stage: usize, got: usize) -> (work: Serial)
    requires
        got <= RESPONSE_BYTES,
    ensures
        work == rom_sync_work(stage, got as int),
{
    match stage {
        1 => Serial::Parity { even: true },
        2 => Serial::Clear,
        3 => Serial::Transmit { driven: true },
        4 => Serial::WriteSync,
        5 => Serial::Drain { ticks: SHORT_WAIT },
        6 => Serial::Transmit { driven: false },
        _ => Serial::Read { capacity: RESPONSE_BYTES - got, ticks: SHORT_WAIT },
    }
}

fn receive_step(stage: usize, window_ms: u16) -> (work: Serial)
    ensures
        work == receive_work(stage, window_ms),
{
    match stage {
        0 => Serial::Parity { even: false },
        1 => Serial::Transmit { driven: false },
        _ => Serial::Open { window_ms },
    }
}

fn capture_step(stage: usize) -> (work: Action)
    ensures
        work == capture_work(stage),
{
    match stage {
        0 => Action::Uart(Serial::Parity { even: false }),
        1 => Action::Uart(Serial::Clear),
        2 => Action::Uart(Serial::Transmit { driven: false }),
        3 => Action::Reset { held: true, settle_ms: 10 },
        4 => Action::Reset { held: false, settle_ms: 10 },
        _ => Action::Uart(Serial::Read { capacity: RESPONSE_BYTES, ticks: LONG_WAIT }),
    }
}

fn send_step(stage: usize) -> (work: Serial)
    ensures
        work == send_work(stage),
{
    match stage {
        0 => Serial::Parity { even: false },
        1 => Serial::Clear,
        2 => Serial::Transmit { driven: true },
        _ => Serial::WriteFrame,
    }
}

/// What an event brought.
fn take_bytes(event: Event, capacity: usize) -> (bytes: Vec<u8>)
    ensures
        bytes@ == brought(event, capacity as int),
{
    match event {
        Event::Bytes(bytes) => {
            let mut bytes: Vec<u8> = bytes;
            if bytes.len() > capacity {
                bytes.truncate(capacity);
            }
            bytes
        },
        _ => {
            let nothing: Vec<u8> = Vec::new();
            assert(nothing@ =~= Seq::empty());
            nothing
        },
    }
}

fn is_done(event: &Event) -> (done: bool)
    ensures
        done == (*event == Event::Done),
{
    match event {
        Event::Done => true,
        _ => false,
    }
}

fn report(outcome: Result<Vec<u8>, Error>, done: bool, earlier: Vec<u8>) -> (turn: Turn)
    ensures
        match outcome {
            Err(error) => job::refused(turn, error),
            Ok(bytes) => if done {
                job::replied(turn, earlier@ + bytes@)
            } else {
                job::refused(turn, Error::Protocol(0))
            },
        },
{
    match outcome {
        Err(error) => Turn::Answer(Err(error)),
        Ok(bytes) => {
            if !done {
                return Turn::Answer(Err(Error::Protocol(0)));
            }
            let mut all: Vec<u8> = earlier;
            let mut bytes: Vec<u8> = bytes;
            all.append(&mut bytes);
            Turn::Answer(Ok(all))
        },
    }
}

fn restore(got: Vec<u8>, outcome: Result<Vec<u8>, Error>) -> (turn: Turn)
    ensures
        turn matches Turn::Ask(
            Action::Uart(Serial::Transmit { driven: false }),
            Job::RomListen { got: g, outcome: o },
        ) && g == got && o == outcome,
{
    Turn::Ask(
        Action::Uart(Serial::Transmit { driven: false }),
        Job::RomListen { got, outcome },
    )
}

impl<I: SwdIo> Hub<I> {
    /// Starts to ask the application to enter the ROM bootloader.
    pub(super) fn start_rom_boot(&mut self) -> (turn: Turn)
        ensures
            job::let_go(old(self)@, final(self)@),
            turn matches Turn::Ask(Action::Uart(work), Job::RomBoot { stage, got }) && work
                == rom_boot_work(0) && stage == 0 && got@.len() == 0,
            final(self).pins == old(self).pins,
    {
        self.let_go();
        Turn::Ask(Action::Uart(rom_boot_step(0)), Job::RomBoot { stage: 0, got: Vec::new() })
    }

    fn drive_boot0(&mut self) -> (turn: Turn)
        ensures
            match old(self)@.link {
                None => board::no_link(old(self)@, final(self)@, turn),
                Some(_) => booted(old(self)@, final(self)@) && job::asked(
                    turn,
                    Action::DelayMs { delay_ms: 10 },
                    Job::RomReset { stage: 1 },
                ),
            },
            final(self).pins == old(self).pins,
    {
        match &mut self.swd {
            Some(link) => {
                link.diagnostic_drive_boot0(true);
                Turn::Ask(Action::DelayMs { delay_ms: 10 }, Job::RomReset { stage: 1 })
            },
            None => Turn::Answer(Err(Error::Protocol(0))),
        }
    }

    pub(super) fn resume_rom(&mut self, job: Job, event: Event) -> (turn: Turn)
        requires
            job matches Job::RomSync { got, .. } ==> got@.len() <= RESPONSE_BYTES,
        ensures
            rom_resumed(old(self)@, job, event, final(self)@, turn),
            final(self).pins == old(self).pins,
    {
        let done: bool = is_done(&event);
        match job {
            Job::RomBoot { stage, got } => {
                if stage < 6 {
                    if !done {
                        return Turn::Answer(Err(Error::Protocol(0)));
                    }
                    return Turn::Ask(
                        Action::Uart(rom_boot_step(stage + 1)),
                        Job::RomBoot { stage: stage + 1, got },
                    );
                }
                let answer: Vec<u8> = take_bytes(event, RESPONSE_BYTES);
                if answer.len() == 0 {
                    Turn::Ask(Action::Reset { held: true, settle_ms: 0 }, Job::RomReset { stage: 0 })
                } else {
                    Turn::Ask(
                        Action::DelayMs { delay_ms: 100 },
                        Job::RomSync { stage: 0, got: answer },
                    )
                }
            },
            Job::RomReset { stage } => {
                if !done {
                    return Turn::Answer(Err(Error::Protocol(0)));
                }
                if stage == 0 {
                    self.reset_held = true;
                    self.drive_boot0()
                } else if stage == 1 {
                    Turn::Ask(
                        Action::Reset { held: false, settle_ms: 10 },
                        Job::RomReset { stage: 2 },
                    )
                } else {
                    self.reset_held = false;
                    if self.swd.is_none() {
                        return Turn::Answer(Err(Error::Protocol(0)));
                    }
                    self.let_go();
                    let got: Vec<u8> = Vec::new();
                    assert(got@ =~= Seq::empty());
                    Turn::Ask(Action::DelayMs { delay_ms: 100 }, Job::RomSync { stage: 0, got })
                }
            },
            Job::RomSync { stage, got } => {
                if stage == 0 || (stage < 7 && done) {
                    Turn::Ask(
                        Action::Uart(rom_sync_step(stage + 1, got.len())),
                        Job::RomSync { stage: stage + 1, got },
                    )
                } else if stage == 1 {
                    Turn::Answer(Err(Error::Protocol(0)))
                } else if stage < 7 {
                    restore(got, Err(Error::Protocol(0)))
                } else {
                    let room: usize = RESPONSE_BYTES - got.len();
                    let bytes: Vec<u8> = take_bytes(event, room);
                    restore(got, Ok(bytes))
                }
            },
            Job::RomListen { got, outcome } => Turn::Ask(
                Action::Uart(Serial::Parity { even: false }),
                Job::RomRestore { got, outcome },
            ),
            Job::RomRestore { got, outcome } => report(outcome, done, got),
            _ => Turn::Answer(Err(Error::Protocol(0))),
        }
    }

    /// Starts to write to the target's UART.
    pub(super) fn start_send(&self) -> (turn: Turn)
        ensures
            job::asked(turn, Action::Uart(send_work(0)), Job::SendReady { stage: 0 }),
    {
        Turn::Ask(Action::Uart(send_step(0)), Job::SendReady { stage: 0 })
    }

    pub(super) fn resume_send(&self, job: Job, event: Event) -> (turn: Turn)
        ensures
            send_resumed(job, event, turn),
    {
        let done: bool = is_done(&event);
        match job {
            Job::SendReady { stage } => {
                if !done {
                    Turn::Answer(Err(Error::Protocol(0)))
                } else if stage < 2 {
                    Turn::Ask(
                        Action::Uart(send_step(stage + 1)),
                        Job::SendReady { stage: stage + 1 },
                    )
                } else {
                    Turn::Ask(Action::Uart(send_step(3)), Job::SendWritten)
                }
            },
            Job::SendWritten => {
                let accepted: bool = match event {
                    Event::Number(_) => true,
                    _ => false,
                };
                Turn::Ask(
                    Action::Uart(Serial::Drain { ticks: LONG_WAIT }),
                    Job::SendDrained { accepted },
                )
            },
            Job::SendDrained { accepted } => Turn::Ask(
                Action::Uart(Serial::Transmit { driven: false }),
                Job::SendBack { sent: accepted && done },
            ),
            Job::SendBack { sent } => {
                if sent && done {
                    Turn::Ask(
                        Action::Uart(Serial::Read { capacity: RESPONSE_BYTES, ticks: LONG_WAIT }),
                        Job::SendAnswered,
                    )
                } else {
                    Turn::Answer(Err(Error::Protocol(0)))
                }
            },
            Job::SendAnswered => Turn::Answer(Ok(take_bytes(event, RESPONSE_BYTES))),
            _ => Turn::Answer(Err(Error::Protocol(0))),
        }
    }

    /// Starts a passive capture.
    pub(super) fn start_receive(&self, window_ms: u16) -> (turn: Turn)
        ensures
            job::asked(
                turn,
                Action::Uart(receive_work(0, window_ms)),
                Job::ReceiveReady { stage: 0, window_ms },
            ),
    {
        Turn::Ask(
            Action::Uart(receive_step(0, window_ms)),
            Job::ReceiveReady { stage: 0, window_ms },
        )
    }

    /// Starts a capture of what the target says out of reset.
    pub(super) fn start_capture(&mut self, swapped: bool) -> (turn: Turn)
        ensures
            job::let_go(old(self)@, final(self)@),
            job::asked(turn, Action::Uart(Serial::Receive { swapped }), Job::CaptureRouted),
            final(self).pins == old(self).pins,
    {
        self.let_go();
        Turn::Ask(Action::Uart(Serial::Receive { swapped }), Job::CaptureRouted)
    }

    pub(super) fn resume_capture(&mut self, job: Job, event: Event) -> (turn: Turn)
        requires
            job matches Job::Receiving { got } ==> got@.len() < RESPONSE_BYTES,
        ensures
            capture_resumed(old(self)@, job, event, final(self)@, turn),
            final(self).pins == old(self).pins,
    {
        let done: bool = is_done(&event);
        match job {
            Job::ReceiveReady { stage, window_ms } => {
                if !done {
                    Turn::Answer(Err(Error::Protocol(0)))
                } else if stage < 2 {
                    Turn::Ask(
                        Action::Uart(receive_step(stage + 1, window_ms)),
                        Job::ReceiveReady { stage: stage + 1, window_ms },
                    )
                } else {
                    Turn::Ask(
                        Action::Uart(Serial::ReadOn { capacity: RESPONSE_BYTES }),
                        Job::Receiving { got: Vec::new() },
                    )
                }
            },
            Job::Receiving { got } => {
                let room: usize = RESPONSE_BYTES - got.len();
                let mut more: Vec<u8> = take_bytes(event, room);
                let nothing: bool = more.len() == 0;
                let mut all: Vec<u8> = got;
                all.append(&mut more);
                if nothing || all.len() >= RESPONSE_BYTES {
                    Turn::Answer(Ok(all))
                } else {
                    Turn::Ask(
                        Action::Uart(Serial::ReadOn { capacity: RESPONSE_BYTES - all.len() }),
                        Job::Receiving { got: all },
                    )
                }
            },
            Job::CaptureRouted => {
                if !done {
                    Turn::Answer(Err(Error::Protocol(0)))
                } else {
                    Turn::Ask(capture_step(0), Job::Capturing { stage: 0 })
                }
            },
            Job::Capturing { stage } => {
                if done && stage == 3 {
                    self.reset_held = true;
                }
                if done && stage == 4 {
                    self.reset_held = false;
                }
                if stage < 5 && done {
                    return Turn::Ask(
                        capture_step(stage + 1),
                        Job::Capturing { stage: stage + 1 },
                    );
                }
                let outcome: Result<Vec<u8>, Error> = if stage < 5 {
                    Err(Error::Protocol(0))
                } else {
                    Ok(take_bytes(event, RESPONSE_BYTES))
                };
                Turn::Ask(
                    Action::Uart(Serial::Receive { swapped: false }),
                    Job::CaptureBack { outcome },
                )
            },
            Job::CaptureBack { outcome } => {
                let nothing: Vec<u8> = Vec::new();
                assert forall|bytes: Seq<u8>| #[trigger] (nothing@ + bytes) == bytes by {
                    assert(nothing@ + bytes =~= bytes);
                }
                report(outcome, done, nothing)
            },
            _ => Turn::Answer(Err(Error::Protocol(0))),
        }
    }
}

} // verus!
