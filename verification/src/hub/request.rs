//! What a host asks for: a command's payload, taken apart.

use crate::bytes;
use crate::engine::Engine;
use crate::frame::{Command, MAX_BLOCK_WORDS};
use crate::swd::Error;
use crate::wifi;
use vstd::prelude::*;
use vstd::slice::*;
use vstd::string::*;

verus! {

/// Comfortably more than the 46 clocks of the longest SWD transfer, so one
/// pass always drains whatever phase the target was left in.
pub const RECOVERY_CYCLES: u16 = 128;

/// How long reset recovers before the first request where the host names no
/// delay.
pub const RECOVERY_DELAY_US: u16 = 1_000;

/// How long the UART is listened to where the host names no window.
pub const RECEIVE_WINDOW_MS: u16 = 1_000;

/// The host abandons a command after three seconds.
pub const MAX_RECEIVE_WINDOW_MS: u16 = 2_000;

/// What the access port write probe writes where the host names no value.
pub const PROBE_VALUE: u32 = 0x2300_0052;

/// The most bytes a reply carries.
pub const RESPONSE_BYTES: usize = 4096;

/// A position of the multiplexer between the debug pads and the targets.
#[derive(Clone, Copy, Debug, Eq, PartialEq, Structural)]
pub enum Target {
    /// The only position that never drives a selector high.
    Stm32,
    Gps,
    Dwm0,
    Dwm1,
}

/// One of the undecoded wire probes.
#[derive(Clone, Copy, Debug, Eq, PartialEq, Structural)]
pub enum WireTest {
    /// The reply as one field.
    Whole,
    /// The acknowledgement and the data as two fields.
    Split,
    /// Both handovers, with this many clocks after a read and before a write.
    Handover { after_read: u8, before_write: u8 },
}

/// A command with its payload taken apart.
#[derive(Debug)]
pub enum Request {
    Hello,
    Attach,
    AttachUnderReset,
    PadSelfTest,
    RecoveryProbe { delay_us: u16 },
    DiagnosticSwdio { high: bool },
    EnterRomBoot,
    UartReceive { window_ms: u16 },
    UartResetCapture { swapped: bool },
    MuxProbe { target: Target },
    Detach,
    ReadRegister { access_port: bool, register: u8 },
    ReadRegisterBlock { access_port: bool, register: u8, count: usize },
    WriteRegisterBlock { access_port: bool, register: u8, words: Vec<u32> },
    SetSpeed { clock_hz: u32 },
    RecoverLine { cycles: u16 },
    /// `None` for a payload that names no probe: the mux is put back first
    /// even then.
    WireProbe { test: Option<WireTest> },
    ApWriteProbe { value: u32, clocks: Option<(u8, u8)> },
    Ping,
    WifiStatus,
    WifiSet { ssid: String, password: String },
    WifiForget,
    PinMap,
    Echo { length: usize },
    Profile { address: u32, count: usize },
    MemoryRead { address: u32, count: usize },
    SpiLoopback { bits: u64, width: u8 },
    SetEngine { engine: Engine },
    SetPinMap { choice: u8 },
    Capabilities,
    WriteRegister { access_port: bool, register: u8, value: u32 },
    SwjSequence { bit_len: u8, bits: u64 },
    LineState,
    ResetLineState,
    ResetAssert,
    ResetRelease,
}

/// A refused payload.
pub open spec fn malformed() -> Result<Request, Error> {
    Err(Error::Protocol(0))
}

/// The position that a host's number names.
pub open spec fn target_of(number: u8) -> Option<Target> {
    if number == 0 {
        Some(Target::Stm32)
    } else if number == 1 {
        Some(Target::Gps)
    } else if number == 2 {
        Some(Target::Dwm0)
    } else if number == 3 {
        Some(Target::Dwm1)
    } else {
        None
    }
}

/// The probe that a payload names.
pub open spec fn wire_test_of(payload: Seq<u8>) -> Option<WireTest> {
    if payload.len() == 0 || (payload.len() == 1 && payload[0] == 0) {
        Some(WireTest::Whole)
    } else if payload.len() == 1 && payload[0] == 1 {
        Some(WireTest::Split)
    } else if payload.len() == 3 && payload[0] == 2 {
        Some(WireTest::Handover { after_read: payload[1], before_write: payload[2] })
    } else {
        None
    }
}

/// An optional 16-bit field: its default where the payload is empty, `None`
/// where it is neither empty nor two bytes.
pub open spec fn optional16(payload: Seq<u8>, default: u16) -> Option<u16> {
    if payload.len() == 0 {
        Some(default)
    } else if payload.len() == 2 {
        Some(bytes::read16(payload))
    } else {
        None
    }
}

/// Is a block of this many words one that a reply can carry?
pub open spec fn block_fits(count: nat) -> bool {
    0 < count <= MAX_BLOCK_WORDS
}

/// The request that a command and its payload make, but for the requests that
/// carry words or text.
pub open spec fn plain_request(command: Command, payload: Seq<u8>) -> Result<Request, Error> {
    let n = payload.len();
    match command {
        Command::Hello => Ok(Request::Hello),
        Command::Attach => Ok(Request::Attach),
        Command::AttachUnderReset => Ok(Request::AttachUnderReset),
        Command::PadSelfTest => Ok(Request::PadSelfTest),
        Command::RecoveryProbe => match optional16(payload, RECOVERY_DELAY_US) {
            Some(delay_us) => Ok(Request::RecoveryProbe { delay_us }),
            None => malformed(),
        },
        Command::DiagnosticSwdio => if n == 1 {
            Ok(Request::DiagnosticSwdio { high: payload[0] != 0 })
        } else {
            malformed()
        },
        Command::EnterRomBoot => if n == 0 {
            Ok(Request::EnterRomBoot)
        } else {
            malformed()
        },
        Command::UartReceive => match optional16(payload, RECEIVE_WINDOW_MS) {
            Some(window) => Ok(
                Request::UartReceive {
                    window_ms: if window < MAX_RECEIVE_WINDOW_MS {
                        window
                    } else {
                        MAX_RECEIVE_WINDOW_MS
                    },
                },
            ),
            None => malformed(),
        },
        Command::UartResetCapture => if n == 0 || (n == 1 && payload[0] == 0) {
            Ok(Request::UartResetCapture { swapped: false })
        } else if n == 1 && payload[0] == 1 {
            Ok(Request::UartResetCapture { swapped: true })
        } else {
            malformed()
        },
        Command::MuxProbe => if n == 1 && target_of(payload[0]) is Some {
            Ok(Request::MuxProbe { target: target_of(payload[0])->0 })
        } else {
            malformed()
        },
        Command::Detach => Ok(Request::Detach),
        Command::ReadRegister => if n == 2 {
            Ok(Request::ReadRegister { access_port: payload[0] != 0, register: payload[1] })
        } else {
            malformed()
        },
        Command::ReadRegisterBlock => {
            let count = bytes::read16(payload.skip(2));
            if n == 4 && block_fits(count as nat) {
                Ok(
                    Request::ReadRegisterBlock {
                        access_port: payload[0] != 0,
                        register: payload[1],
                        count: count as usize,
                    },
                )
            } else {
                malformed()
            }
        },
        Command::SetSpeed => if n == 4 {
            Ok(Request::SetSpeed { clock_hz: bytes::read32(payload) })
        } else {
            malformed()
        },
        Command::RecoverLine => match optional16(payload, RECOVERY_CYCLES) {
            Some(cycles) => Ok(Request::RecoverLine { cycles }),
            None => malformed(),
        },
        Command::WireProbe => Ok(Request::WireProbe { test: wire_test_of(payload) }),
        Command::ApWriteProbe => if n == 0 {
            Ok(Request::ApWriteProbe { value: PROBE_VALUE, clocks: None })
        } else if n == 4 {
            Ok(Request::ApWriteProbe { value: bytes::read32(payload), clocks: None })
        } else if n == 6 {
            Ok(
                Request::ApWriteProbe {
                    value: bytes::read32(payload),
                    clocks: Some((payload[4], payload[5])),
                },
            )
        } else {
            malformed()
        },
        Command::Ping => Ok(Request::Ping),
        Command::WifiStatus => Ok(Request::WifiStatus),
        Command::WifiForget => Ok(Request::WifiForget),
        Command::PinMap => Ok(Request::PinMap),
        Command::Echo => if n == 2 && bytes::read16(payload) <= RESPONSE_BYTES {
            Ok(Request::Echo { length: bytes::read16(payload) as usize })
        } else {
            malformed()
        },
        Command::Profile => {
            let count = bytes::read16(payload.skip(4));
            if n == 6 && block_fits(count as nat) {
                Ok(Request::Profile { address: bytes::read32(payload), count: count as usize })
            } else {
                malformed()
            }
        },
        Command::MemoryRead => {
            let count = bytes::read16(payload.skip(4));
            if n == 6 && block_fits(count as nat) {
                Ok(Request::MemoryRead { address: bytes::read32(payload), count: count as usize })
            } else {
                malformed()
            }
        },
        Command::SpiLoopback => if n == 9 && 1 <= payload[0] <= 64 {
            Ok(Request::SpiLoopback { bits: bytes::read64(payload.skip(1)), width: payload[0] })
        } else {
            malformed()
        },
        Command::SetEngine => if n == 1 && payload[0] == 0 {
            Ok(Request::SetEngine { engine: Engine::Hardware })
        } else if n == 1 && payload[0] == 1 {
            Ok(Request::SetEngine { engine: Engine::BitBang })
        } else {
            malformed()
        },
        Command::SetPinMap => if n == 1 {
            Ok(Request::SetPinMap { choice: payload[0] })
        } else {
            malformed()
        },
        Command::Capabilities => Ok(Request::Capabilities),
        Command::WriteRegister => if n == 6 {
            Ok(
                Request::WriteRegister {
                    access_port: payload[0] != 0,
                    register: payload[1],
                    value: bytes::read32(payload.skip(2)),
                },
            )
        } else {
            malformed()
        },
        Command::SwjSequence => if n == 9 {
            Ok(Request::SwjSequence { bit_len: payload[0], bits: bytes::read64(payload.skip(1)) })
        } else {
            malformed()
        },
        Command::LineState => Ok(Request::LineState),
        Command::ResetLineState => Ok(Request::ResetLineState),
        Command::ResetAssert => Ok(Request::ResetAssert),
        Command::ResetRelease => Ok(Request::ResetRelease),
        Command::WriteRegisterBlock | Command::WifiSet => malformed(),
    }
}

/// Is `request` what a command and its payload ask for?
pub open spec fn requested(
    command: Command,
    payload: Seq<u8>,
    request: Result<Request, Error>,
) -> bool {
    match command {
        Command::WriteRegisterBlock => {
            let count = bytes::read16(payload.skip(2)) as nat;
            if payload.len() >= 4 && block_fits(count) && payload.len() == 4 + 4 * count {
                request matches Ok(Request::WriteRegisterBlock { access_port, register, words })
                    && access_port == (payload[0] != 0) && register == payload[1] && words@
                    == bytes::read_words(payload.skip(4))
            } else {
                request == malformed()
            }
        },
        Command::WifiSet => match wifi::unpacked(payload) {
            Some((ssid, password)) => request matches Ok(
                Request::WifiSet { ssid: s, password: p },
            ) && s@ == ssid && p@ == password,
            None => request == Err::<Request, Error>(Error::Protocol(1)),
        },
        _ => request == plain_request(command, payload),
    }
}

fn get_optional16(payload: &[u8], default: u16) -> (value: Option<u16>)
    ensures
        value == optional16(payload@, default),
{
    if payload.len() == 0 {
        Some(default)
    } else if payload.len() == 2 {
        assert(payload@.skip(0) =~= payload@);
        Some(bytes::get_le16(payload, 0))
    } else {
        None
    }
}

/// The number of words that a block request asks for, `None` for one that no
/// reply can carry.
fn get_count(payload: &[u8], at: usize) -> (count: Option<usize>)
    requires
        at + 2 <= payload@.len(),
    ensures
        ({
            let asked = bytes::read16(payload@.skip(at as int));
            count == (if block_fits(asked as nat) {
                Some(asked as usize)
            } else {
                None
            })
        }),
{
    let asked: usize = bytes::get_le16(payload, at) as usize;
    if asked == 0 || asked > MAX_BLOCK_WORDS {
        None
    } else {
        Some(asked)
    }
}

fn wire_test(payload: &[u8]) -> (test: Option<WireTest>)
    ensures
        test == wire_test_of(payload@),
{
    let n: usize = payload.len();
    if n == 0 || (n == 1 && payload[0] == 0) {
        Some(WireTest::Whole)
    } else if n == 1 && payload[0] == 1 {
        Some(WireTest::Split)
    } else if n == 3 && payload[0] == 2 {
        Some(WireTest::Handover { after_read: payload[1], before_write: payload[2] })
    } else {
        None
    }
}

fn target(number: u8) -> (target: Option<Target>)
    ensures
        target == target_of(number),
{
    match number {
        0 => Some(Target::Stm32),
        1 => Some(Target::Gps),
        2 => Some(Target::Dwm0),
        3 => Some(Target::Dwm1),
        _ => None,
    }
}

fn parse_block_write(payload: &[u8]) -> (request: Result<Request, Error>)
    ensures
        requested(Command::WriteRegisterBlock, payload@, request),
{
    let n: usize = payload.len();
    if n < 4 {
        return Err(Error::Protocol(0));
    }
    match get_count(payload, 2) {
        None => Err(Error::Protocol(0)),
        Some(count) => {
            if n != 4 + 4 * count {
                return Err(Error::Protocol(0));
            }
            let rest: &[u8] = slice_subrange(payload, 4, n);
            assert(rest@ =~= payload@.skip(4));
            Ok(
                Request::WriteRegisterBlock {
                    access_port: payload[0] != 0,
                    register: payload[1],
                    words: bytes::get_words(rest),
                },
            )
        },
    }
}

fn parse_probe_write(payload: &[u8]) -> (request: Result<Request, Error>)
    ensures
        request == plain_request(Command::ApWriteProbe, payload@),
{
    let n: usize = payload.len();
    if n == 0 {
        return Ok(Request::ApWriteProbe { value: PROBE_VALUE, clocks: None });
    }
    if n != 4 && n != 6 {
        return Err(Error::Protocol(0));
    }
    assert(payload@.skip(0) =~= payload@);
    let value: u32 = bytes::get_le32(payload, 0);
    if n == 4 {
        Ok(Request::ApWriteProbe { value, clocks: None })
    } else {
        Ok(Request::ApWriteProbe { value, clocks: Some((payload[4], payload[5])) })
    }
}

/// Takes a command's payload apart.
pub fn parse(command: Command, payload: &[u8]) -> (request: Result<Request, Error>)
    ensures
        requested(command, payload@, request),
{
    let n: usize = payload.len();
    assert(payload@.skip(0) =~= payload@);
    match command {
        Command::Hello => Ok(Request::Hello),
        Command::Attach => Ok(Request::Attach),
        Command::AttachUnderReset => Ok(Request::AttachUnderReset),
        Command::PadSelfTest => Ok(Request::PadSelfTest),
        Command::RecoveryProbe => match get_optional16(payload, RECOVERY_DELAY_US) {
            Some(delay_us) => Ok(Request::RecoveryProbe { delay_us }),
            None => Err(Error::Protocol(0)),
        },
        Command::DiagnosticSwdio if n == 1 => Ok(
            Request::DiagnosticSwdio { high: payload[0] != 0 },
        ),
        Command::EnterRomBoot if n == 0 => Ok(Request::EnterRomBoot),
        Command::UartReceive => match get_optional16(payload, RECEIVE_WINDOW_MS) {
            Some(window) => Ok(
                Request::UartReceive {
                    window_ms: if window < MAX_RECEIVE_WINDOW_MS {
                        window
                    } else {
                        MAX_RECEIVE_WINDOW_MS
                    },
                },
            ),
            None => Err(Error::Protocol(0)),
        },
        Command::UartResetCapture if n == 0 => Ok(Request::UartResetCapture { swapped: false }),
        Command::UartResetCapture if n == 1 && payload[0] <= 1 => Ok(
            Request::UartResetCapture { swapped: payload[0] == 1 },
        ),
        Command::MuxProbe if n == 1 => match target(payload[0]) {
            Some(target) => Ok(Request::MuxProbe { target }),
            None => Err(Error::Protocol(0)),
        },
        Command::Detach => Ok(Request::Detach),
        Command::ReadRegister if n == 2 => Ok(
            Request::ReadRegister { access_port: payload[0] != 0, register: payload[1] },
        ),
        Command::ReadRegisterBlock if n == 4 => match get_count(payload, 2) {
            Some(count) => Ok(
                Request::ReadRegisterBlock {
                    access_port: payload[0] != 0,
                    register: payload[1],
                    count,
                },
            ),
            None => Err(Error::Protocol(0)),
        },
        Command::WriteRegisterBlock => parse_block_write(payload),
        Command::SetSpeed if n == 4 => Ok(
            Request::SetSpeed { clock_hz: bytes::get_le32(payload, 0) },
        ),
        Command::RecoverLine => match get_optional16(payload, RECOVERY_CYCLES) {
            Some(cycles) => Ok(Request::RecoverLine { cycles }),
            None => Err(Error::Protocol(0)),
        },
        Command::WireProbe => Ok(Request::WireProbe { test: wire_test(payload) }),
        Command::ApWriteProbe => parse_probe_write(payload),
        Command::Ping => Ok(Request::Ping),
        Command::WifiStatus => Ok(Request::WifiStatus),
        Command::WifiSet => match wifi::decode(payload) {
            Some((ssid, password)) => Ok(
                Request::WifiSet { ssid: ssid.to_owned(), password: password.to_owned() },
            ),
            None => Err(Error::Protocol(1)),
        },
        Command::WifiForget => Ok(Request::WifiForget),
        Command::PinMap => Ok(Request::PinMap),
        Command::Echo if n == 2 => {
            let length: usize = bytes::get_le16(payload, 0) as usize;
            if length > RESPONSE_BYTES {
                Err(Error::Protocol(0))
            } else {
                Ok(Request::Echo { length })
            }
        },
        Command::Profile if n == 6 => match get_count(payload, 4) {
            Some(count) => Ok(Request::Profile { address: bytes::get_le32(payload, 0), count }),
            None => Err(Error::Protocol(0)),
        },
        Command::MemoryRead if n == 6 => match get_count(payload, 4) {
            Some(count) => Ok(Request::MemoryRead { address: bytes::get_le32(payload, 0), count }),
            None => Err(Error::Protocol(0)),
        },
        Command::SpiLoopback if n == 9 && 1 <= payload[0] && payload[0] <= 64 => Ok(
            Request::SpiLoopback { bits: bytes::get_le64(payload, 1), width: payload[0] },
        ),
        Command::SetEngine if n == 1 && payload[0] == 0 => Ok(
            Request::SetEngine { engine: Engine::Hardware },
        ),
        Command::SetEngine if n == 1 && payload[0] == 1 => Ok(
            Request::SetEngine { engine: Engine::BitBang },
        ),
        Command::SetPinMap if n == 1 => Ok(Request::SetPinMap { choice: payload[0] }),
        Command::Capabilities => Ok(Request::Capabilities),
        Command::WriteRegister if n == 6 => Ok(
            Request::WriteRegister {
                access_port: payload[0] != 0,
                register: payload[1],
                value: bytes::get_le32(payload, 2),
            },
        ),
        Command::SwjSequence if n == 9 => Ok(
            Request::SwjSequence { bit_len: payload[0], bits: bytes::get_le64(payload, 1) },
        ),
        Command::LineState => Ok(Request::LineState),
        Command::ResetLineState => Ok(Request::ResetLineState),
        Command::ResetAssert => Ok(Request::ResetAssert),
        Command::ResetRelease => Ok(Request::ResetRelease),
        _ => Err(Error::Protocol(0)),
    }
}

} // verus!
