//! The binary command protocol for the persistent link.
//!
//! # Why this exists
//!
//! Driving the motor over HTTP makes every rate change a full request: request
//! line, headers, a JSON body, a response with its own headers — several
//! hundred bytes to carry a number that fits in two, and a fresh TCP connection
//! whenever keep-alive lapsed, which costs a round trip before the command is
//! even sent.
//!
//! One socket, held open, carrying three bytes per command, with status pushed
//! only when it differs. What is left on the wire is close to the information
//! actually being communicated.
//!
//! # What the ordering guarantee buys
//!
//! The REST path needs sequence numbers because two requests can overtake each
//! other and a jog can land after the stop that was meant to end it. A single
//! TCP connection delivers in order by construction, so on this path that race
//! cannot happen and there is nothing to stamp.
//!
//! # Layout
//!
//! Little-endian. Fixed-width frames: the length *is* the validation, and a
//! truncated frame is rejected rather than half-applied.

use crate::bytes;
use vstd::prelude::*;

verus! {

/// Run at a signed rate until told otherwise. `i16` covers the rate limit
/// several times over and keeps the hot frame at three bytes.
pub const CMD_JOG: u8 = 0x01;

/// Stop now.
pub const CMD_STOP: u8 = 0x02;

/// Stop and drop the windings.
pub const CMD_RELEASE: u8 = 0x03;

/// Move a bounded number of steps.
pub const CMD_MOVE: u8 = 0x04;

/// Retune the acceleration.
pub const CMD_ACCEL: u8 = 0x05;

/// Round-trip probe. Answered with [`MSG_PONG`] and nothing else.
pub const CMD_PING: u8 = 0x06;

/// Pushed when the state changes.
pub const MSG_STATUS: u8 = 0x81;

/// The answer to [`CMD_PING`].
pub const MSG_PONG: u8 = 0x82;

/// The longest frame a client can send. Anything larger is refused without
/// being read into memory.
pub const MAX_COMMAND_LEN: usize = 7;

/// A decoded client command.
#[derive(Clone, Copy, Debug, Eq, PartialEq, Structural)]
pub enum Command {
    Jog(i32),
    Stop,
    Release,
    Move { steps: i32, steps_per_s: u32 },
    Accel(i32),
    Ping,
}

/// What the station reports back.
#[derive(Clone, Copy, Debug, Eq, PartialEq)]
pub struct Status {
    pub position: i32,
    pub rate: i16,
    pub moving: bool,
    pub energised: bool,
    pub remaining: Option<u32>,
}

impl Default for Status {
    fn default() -> (status: Self)
        ensures
            status == (Status {
                position: 0,
                rate: 0,
                moving: false,
                energised: false,
                remaining: None,
            }),
    {
        Status { position: 0, rate: 0, moving: false, energised: false, remaining: None }
    }
}

/// Wire length of an encoded [`Status`].
pub const STATUS_LEN: usize = 12;

/// How many bytes follow an opcode, `None` for one that is no command.
pub open spec fn body_len(opcode: u8) -> Option<nat> {
    if opcode == CMD_JOG {
        Some(2)
    } else if opcode == CMD_STOP || opcode == CMD_RELEASE || opcode == CMD_PING {
        Some(0)
    } else if opcode == CMD_MOVE {
        Some(6)
    } else if opcode == CMD_ACCEL {
        Some(4)
    } else {
        None
    }
}

/// The command that an opcode and the body it asks for spell.
pub open spec fn command_of(opcode: u8, body: Seq<u8>) -> Command {
    if opcode == CMD_JOG {
        Command::Jog(bytes::signed16(bytes::read16(body)) as i32)
    } else if opcode == CMD_STOP {
        Command::Stop
    } else if opcode == CMD_RELEASE {
        Command::Release
    } else if opcode == CMD_PING {
        Command::Ping
    } else if opcode == CMD_MOVE {
        Command::Move {
            steps: bytes::signed32(bytes::read32(body)),
            steps_per_s: bytes::read16(body.skip(4)) as u32,
        }
    } else {
        Command::Accel(bytes::signed32(bytes::read32(body)))
    }
}

/// The command in a frame, `None` for anything not understood.
pub open spec fn command_in(frame: Seq<u8>) -> Option<Command> {
    if frame.len() > 0 && body_len(frame[0]) == Some((frame.len() - 1) as nat) {
        Some(command_of(frame[0], frame.skip(1)))
    } else {
        None
    }
}

/// Decode one client frame.
///
/// `None` for anything not understood — wrong opcode, wrong length, trailing
/// bytes. A frame that is not exactly what it claims to be is discarded whole:
/// there is no partially-applied command that leaves a motor in a state anyone
/// asked for.
#[must_use]
pub fn decode(frame: &[u8]) -> (command: Option<Command>)
    ensures
        command == command_in(frame@),
{
    let len: usize = frame.len();
    if len == 0 {
        return None;
    }
    let opcode: u8 = frame[0];
    proof {
        if len >= 7 {
            assert(frame@.skip(1).skip(4) =~= frame@.skip(5));
        }
    }
    if opcode == CMD_JOG && len == 3 {
        Some(Command::Jog(bytes::to_signed16(bytes::get_le16(frame, 1)) as i32))
    } else if opcode == CMD_STOP && len == 1 {
        Some(Command::Stop)
    } else if opcode == CMD_RELEASE && len == 1 {
        Some(Command::Release)
    } else if opcode == CMD_PING && len == 1 {
        Some(Command::Ping)
    } else if opcode == CMD_MOVE && len == 7 {
        Some(
            Command::Move {
                steps: bytes::to_signed32(bytes::get_le32(frame, 1)),
                steps_per_s: bytes::get_le16(frame, 5) as u32,
            },
        )
    } else if opcode == CMD_ACCEL && len == 5 {
        Some(Command::Accel(bytes::to_signed32(bytes::get_le32(frame, 1))))
    } else {
        None
    }
}

/// The flags of a status: moving, energised, and whether a remainder follows.
pub open spec fn flags_of(status: Status) -> u8 {
    ((if status.moving {
        1int
    } else {
        0
    }) + (if status.energised {
        2int
    } else {
        0
    }) + (if status.remaining is Some {
        4int
    } else {
        0
    })) as u8
}

/// The frame that pushes a status.
pub open spec fn status_frame(status: Status) -> Seq<u8> {
    seq![MSG_STATUS] + bytes::le32(bytes::unsigned32(status.position)) + bytes::le16(
        bytes::unsigned16(status.rate),
    ) + seq![flags_of(status)] + bytes::le32(
        match status.remaining {
            Some(remaining) => remaining,
            None => 0,
        },
    )
}

/// Is a bit of the flags set?
pub open spec fn flag(flags: u8, weight: int) -> bool {
    flags as int / weight % 2 == 1
}

/// The status in a frame, `None` for one that holds none.
pub open spec fn status_in(frame: Seq<u8>) -> Option<Status> {
    if frame.len() == STATUS_LEN && frame[0] == MSG_STATUS {
        Some(
            Status {
                position: bytes::signed32(bytes::read32(frame.skip(1))),
                rate: bytes::signed16(bytes::read16(frame.skip(5))),
                moving: flag(frame[7], 1),
                energised: flag(frame[7], 2),
                remaining: if flag(frame[7], 4) {
                    Some(bytes::read32(frame.skip(8)))
                } else {
                    None
                },
            },
        )
    } else {
        None
    }
}

/// Encode a status push.
#[must_use]
pub fn encode_status(status: &Status) -> (out: [u8; STATUS_LEN])
    ensures
        out@ == status_frame(*status),
{
    let position: u32 = bytes::to_unsigned32(status.position);
    let rate: u16 = bytes::to_unsigned16(status.rate);
    let mut flags: u8 = 0;
    if status.moving {
        flags = flags + 1;
    }
    if status.energised {
        flags = flags + 2;
    }
    let mut remaining: u32 = 0;
    if let Some(left) = status.remaining {
        flags = flags + 4;
        remaining = left;
    }
    let out: [u8; STATUS_LEN] = [
        MSG_STATUS,
        (position % 256) as u8,
        (position / 256 % 256) as u8,
        (position / 65536 % 256) as u8,
        (position / 16777216) as u8,
        (rate % 256) as u8,
        (rate / 256) as u8,
        flags,
        (remaining % 256) as u8,
        (remaining / 256 % 256) as u8,
        (remaining / 65536 % 256) as u8,
        (remaining / 16777216) as u8,
    ];
    assert(out@ =~= status_frame(*status));
    out
}

/// Decode a status push. Only the page needs this; it exists so the encoder can
/// be tested against something other than a hand-written byte array.
#[must_use]
pub fn decode_status(frame: &[u8]) -> (status: Option<Status>)
    ensures
        status == status_in(frame@),
{
    if frame.len() != STATUS_LEN || frame[0] != MSG_STATUS {
        return None;
    }
    let flags: u8 = frame[7];
    Some(
        Status {
            position: bytes::to_signed32(bytes::get_le32(frame, 1)),
            rate: bytes::to_signed16(bytes::get_le16(frame, 5)),
            moving: flags % 2 == 1,
            energised: flags / 2 % 2 == 1,
            remaining: if flags / 4 % 2 == 1 {
                Some(bytes::get_le32(frame, 8))
            } else {
                None
            },
        },
    )
}

/// A status that was pushed is read back as it was; a remainder of nothing and
/// a remainder of zero stay apart.
pub proof fn law_status_survives_the_round_trip(status: Status)
    ensures
        status_in(status_frame(status)) == Some(status),
{
    let frame = status_frame(status);
    let remaining: u32 = match status.remaining {
        Some(remaining) => remaining,
        None => 0,
    };
    let position = bytes::unsigned32(status.position);
    let rate = bytes::unsigned16(status.rate);
    assert(frame.skip(1).take(4) =~= bytes::le32(position));
    assert(frame.skip(5).take(2) =~= bytes::le16(rate));
    assert(frame.skip(8).take(4) =~= bytes::le32(remaining));
    assert(bytes::read32(frame.skip(1)) == bytes::read32(frame.skip(1).take(4)));
    assert(bytes::read16(frame.skip(5)) == bytes::read16(frame.skip(5).take(2)));
    assert(bytes::read32(frame.skip(8)) == bytes::read32(frame.skip(8).take(4)));
    bytes::law_read32_undoes_le32(position);
    bytes::law_read16_undoes_le16(rate);
    bytes::law_read32_undoes_le32(remaining);
    bytes::law_signed_undoes_unsigned(status.rate, status.position);
}

/// The length is the validation: whatever follows an opcode, it is understood
/// at one length only, which the receive buffer holds.
pub proof fn law_a_frame_is_understood_at_one_length(frame: Seq<u8>, other: Seq<u8>)
    requires
        command_in(frame) is Some,
        other.len() > 0,
        other[0] == frame[0],
    ensures
        frame.len() <= MAX_COMMAND_LEN,
        command_in(other) is Some <==> other.len() == frame.len(),
{
}

/// Nothing that the station sends is taken for a command.
pub proof fn law_a_reply_is_no_command(frame: Seq<u8>)
    requires
        frame.len() > 0,
        frame[0] == MSG_STATUS || frame[0] == MSG_PONG,
    ensures
        command_in(frame) is None,
{
}

/// What each command looks like on the wire, byte for byte: numbers are two's
/// complement, the least significant byte first.
pub proof fn law_a_command_is_laid_out(frame: Seq<u8>)
    ensures
        ({
            let word = frame[1] + 256 * frame[2] + 65536 * frame[3] + 16777216 * frame[4];
            let half = frame[1] + 256 * frame[2];
            &&& frame.len() == 3 && frame[0] == 1 ==> (command_in(frame) matches Some(
                Command::Jog(rate),
            ) && rate == (if half < 0x8000 {
                half
            } else {
                half - 0x1_0000
            }))
            &&& frame.len() == 1 && frame[0] == 2 ==> command_in(frame) == Some(Command::Stop)
            &&& frame.len() == 1 && frame[0] == 3 ==> command_in(frame) == Some(Command::Release)
            &&& frame.len() == 7 && frame[0] == 4 ==> (command_in(frame) matches Some(
                Command::Move { steps, steps_per_s },
            ) && steps_per_s == frame[5] + 256 * frame[6] && steps == (if word < 0x8000_0000 {
                word
            } else {
                word - 0x1_0000_0000
            }))
            &&& frame.len() == 5 && frame[0] == 5 ==> (command_in(frame) matches Some(
                Command::Accel(accel),
            ) && accel == (if word < 0x8000_0000 {
                word
            } else {
                word - 0x1_0000_0000
            }))
            &&& frame.len() == 1 && frame[0] == 6 ==> command_in(frame) == Some(Command::Ping)
            &&& frame.len() == 0 || frame[0] == 0 || frame[0] > 6 ==> command_in(frame) is None
        }),
{
}

/// What a status looks like on the wire, byte for byte.
pub proof fn law_a_status_is_laid_out(status: Status)
    ensures
        ({
            let frame = status_frame(status);
            let position = frame[1] + 256 * frame[2] + 65536 * frame[3] + 16777216 * frame[4];
            let rate = frame[5] + 256 * frame[6];
            &&& frame.len() == 12 && frame[0] == 0x81
            &&& position == (if status.position < 0 {
                status.position + 0x1_0000_0000
            } else {
                status.position as int
            })
            &&& rate == (if status.rate < 0 {
                status.rate + 0x1_0000
            } else {
                status.rate as int
            })
            &&& (frame[7] % 2 == 1) == status.moving
            &&& (frame[7] / 2 % 2 == 1) == status.energised
            &&& (frame[7] / 4 % 2 == 1) == (status.remaining is Some)
            &&& frame[7] < 8
            &&& status.remaining matches Some(left) ==> left == frame[8] + 256 * frame[9] + 65536
                * frame[10] + 16777216 * frame[11]
        }),
{
}

} // verus!
