//! Framing contract between the bridge and its host.
//!
//! A packet is a magic, a version, a sequence number, a command or status
//! byte, a payload and a CRC. It travels byte-stuffed, so that the only zero
//! on the wire is the delimiter that ends a frame.

use crate::bytes;
use vstd::prelude::*;
use vstd::slice::slice_subrange;

verus! {

pub const VERSION: u8 = 3;

/// Large enough for a full block read plus the envelope and worst-case
/// stuffing overhead. One round trip per block, rather than per word, is what
/// keeps the wire — not the transport — the limiting factor.
pub const MAX_FRAME: usize = 4136;

/// Words a single `ReadRegisterBlock` may carry. Matches the debug port's
/// auto-increment window, so a host's own chunking maps to one frame.
pub const MAX_BLOCK_WORDS: usize = 1024;

/// Bytes of a packet around its payload: ten, of which the last two are the
/// CRC.
pub const ENVELOPE: usize = 10;

#[derive(Clone, Copy, Debug, Eq, PartialEq, Structural)]
pub struct FrameError;

/// One shift of the CRC-16/CCITT register.
pub open spec fn crc_shift(v: u16) -> u16 {
    if v & 0x8000 != 0 {
        (v << 1) ^ 0x1021
    } else {
        v << 1
    }
}

/// Four shifts of the register.
pub open spec fn crc_shift4(v: u16) -> u16 {
    crc_shift(crc_shift(crc_shift(crc_shift(v))))
}

/// The register after taking in one more byte, a bit at a time.
pub open spec fn crc_byte(v: u16, byte: u8) -> u16 {
    crc_shift4(crc_shift4(v ^ ((byte as u16) << 8)))
}

/// CRC-16/CCITT-FALSE of `bytes`, by its bit-at-a-time definition.
pub open spec fn crc_of(bytes: Seq<u8>) -> u16
    decreases bytes.len(),
{
    if bytes.len() == 0 {
        0xffff
    } else {
        crc_byte(crc_of(bytes.drop_last()), bytes.last())
    }
}

/// What the register becomes when it holds nothing but one leading nibble.
const CRC_NIBBLES: [u16; 16] = [
    0x0000, 0x1021, 0x2042, 0x3063, 0x4084, 0x50a5, 0x60c6, 0x70e7,
    0x8108, 0x9129, 0xa14a, 0xb16b, 0xc18c, 0xd1ad, 0xe1ce, 0xf1ef,
];

proof fn lemma_crc_nibbles()
    ensures
        forall|n: u16| n < 16 ==> CRC_NIBBLES@[n as int] == #[trigger] crc_shift4(n << 12),
{
    assert(crc_shift4(0u16 << 12) == 0x0000 && crc_shift4(1u16 << 12) == 0x1021
        && crc_shift4(2u16 << 12) == 0x2042 && crc_shift4(3u16 << 12) == 0x3063
        && crc_shift4(4u16 << 12) == 0x4084 && crc_shift4(5u16 << 12) == 0x50a5
        && crc_shift4(6u16 << 12) == 0x60c6 && crc_shift4(7u16 << 12) == 0x70e7
        && crc_shift4(8u16 << 12) == 0x8108 && crc_shift4(9u16 << 12) == 0x9129
        && crc_shift4(10u16 << 12) == 0xa14a && crc_shift4(11u16 << 12) == 0xb16b
        && crc_shift4(12u16 << 12) == 0xc18c && crc_shift4(13u16 << 12) == 0xd1ad
        && crc_shift4(14u16 << 12) == 0xe1ce && crc_shift4(15u16 << 12) == 0xf1ef)
        by (bit_vector);
    assert forall|n: u16| n < 16 implies CRC_NIBBLES@[n as int] == #[trigger] crc_shift4(n << 12) by {
        assert(n == 0 || n == 1 || n == 2 || n == 3 || n == 4 || n == 5 || n == 6 || n == 7
            || n == 8 || n == 9 || n == 10 || n == 11 || n == 12 || n == 13 || n == 14 || n == 15);
    }
}

/// Taking in a byte is taking in its two nibbles through the table.
proof fn lemma_crc_by_nibbles(crc: u16, byte: u8)
    ensures
        ({
            let first = (crc << 4) ^ crc_shift4(((crc >> 12) ^ ((byte >> 4) as u16)) << 12);
            let low = (byte & 15) as u16;
            crc_byte(crc, byte) == (first << 4) ^ crc_shift4(((first >> 12) ^ low) << 12)
        }),
        (crc >> 12) ^ ((byte >> 4) as u16) < 16,
        forall|v: u16| #[trigger] (v >> 12) ^ ((byte & 15) as u16) < 16,
{
    assert((crc >> 12) ^ ((byte >> 4) as u16) < 16) by (bit_vector);
    assert(forall|v: u16| #[trigger] (v >> 12) ^ ((byte & 15) as u16) < 16) by (bit_vector);
    assert(crc_shift4(crc ^ ((byte as u16) << 8)) == (crc << 4) ^ crc_shift4(
        ((crc >> 12) ^ ((byte >> 4) as u16)) << 12,
    ) ^ (((byte & 15) as u16) << 12)) by (bit_vector);
    let first = (crc << 4) ^ crc_shift4(((crc >> 12) ^ ((byte >> 4) as u16)) << 12);
    assert(crc_shift4(first ^ (((byte & 15) as u16) << 12)) == (first << 4) ^ crc_shift4(
        ((first >> 12) ^ ((byte & 15) as u16)) << 12,
    )) by (bit_vector);
}

/// CRC-16/CCITT-FALSE, two table lookups per byte.
pub fn crc16(bytes: &[u8]) -> (crc: u16)
    ensures
        crc == crc_of(bytes@),
{
    let mut crc: u16 = 0xffff;
    let mut at: usize = 0;
    assert(bytes@.take(0) =~= Seq::empty());
    while at < bytes.len()
        invariant
            at <= bytes@.len(),
            crc == crc_of(bytes@.take(at as int)),
        decreases bytes@.len() - at,
    {
        let byte: u8 = bytes[at];
        proof {
            lemma_crc_nibbles();
            lemma_crc_by_nibbles(crc, byte);
            assert(bytes@.take(at + 1).drop_last() =~= bytes@.take(at as int));
        }
        let high: u16 = (crc >> 12) ^ ((byte >> 4) as u16);
        crc = (crc << 4) ^ CRC_NIBBLES[high as usize];
        let low: u16 = (crc >> 12) ^ ((byte & 15) as u16);
        crc = (crc << 4) ^ CRC_NIBBLES[low as usize];
        at += 1;
    }
    assert(bytes@.take(at as int) =~= bytes@);
    crc
}

/// Non-zero bytes that start `bytes`, counted up to the longest run that one
/// code byte can announce.
pub open spec fn run_len(bytes: Seq<u8>) -> nat
    decreases bytes.len(),
{
    if bytes.len() == 0 || bytes[0] == 0 {
        0
    } else {
        let rest = run_len(bytes.skip(1));
        if rest >= 254 {
            254
        } else {
            rest + 1
        }
    }
}

/// `bytes` with every zero replaced by a count: consistent-overhead byte
/// stuffing, without the delimiter.
///
/// A full run of 254 announces itself with 255 and stands for no zero; every
/// other block but the last stands for its bytes and the zero after them.
pub open spec fn stuffed(bytes: Seq<u8>) -> Seq<u8>
    decreases bytes.len(),
{
    let n = run_len(bytes);
    if n >= 254 && bytes.len() >= 254 {
        seq![255u8] + bytes.take(254) + stuffed(bytes.skip(254))
    } else if n >= bytes.len() {
        seq![(n + 1) as u8] + bytes
    } else {
        seq![(n + 1) as u8] + bytes.take(n as int) + stuffed(bytes.skip(n as int + 1))
    }
}

/// Does every code byte of `frame` announce bytes that are there?
pub open spec fn well_stuffed(frame: Seq<u8>) -> bool
    decreases frame.len(),
{
    if frame.len() == 0 {
        true
    } else if frame[0] == 0 || frame[0] > frame.len() {
        false
    } else {
        well_stuffed(frame.skip(frame[0] as int))
    }
}

/// The bytes that `frame` stands for, up to its first block that does not
/// hold what its code byte announces.
pub open spec fn unstuffed(frame: Seq<u8>) -> Seq<u8>
    decreases frame.len(),
{
    if frame.len() == 0 || frame[0] == 0 || frame[0] > frame.len() {
        Seq::empty()
    } else {
        let rest = frame.skip(frame[0] as int);
        let zero = if frame[0] != 255 && rest.len() > 0 {
            seq![0u8]
        } else {
            Seq::empty()
        };
        frame.subrange(1, frame[0] as int) + zero + unstuffed(rest)
    }
}

proof fn lemma_run_len(bytes: Seq<u8>)
    ensures
        run_len(bytes) <= 254,
        run_len(bytes) <= bytes.len(),
        forall|i: int| 0 <= i < run_len(bytes) ==> bytes[i] != 0,
        run_len(bytes) < 254 && run_len(bytes) < bytes.len() ==> bytes[run_len(bytes) as int] == 0,
    decreases bytes.len(),
{
    if bytes.len() > 0 && bytes[0] != 0 {
        let tail = bytes.skip(1);
        lemma_run_len(tail);
        assert forall|i: int| 0 <= i < run_len(bytes) implies bytes[i] != 0 by {
            if i > 0 {
                assert(bytes[i] == tail[i - 1]);
            }
        }
        if run_len(tail) < 254 && run_len(tail) < tail.len() {
            assert(bytes[run_len(tail) as int + 1] == tail[run_len(tail) as int]);
        }
    }
}

/// The run that starts `head + tail` when `head` holds no zero and is short.
proof fn lemma_run_of_nonzero(head: Seq<u8>, tail: Seq<u8>)
    requires
        head.len() <= 254,
        forall|i: int| 0 <= i < head.len() ==> head[i] != 0,
    ensures
        run_len(head + tail) >= head.len(),
        tail.len() > 0 && tail[0] == 0 ==> run_len(head + tail) == head.len(),
        tail.len() == 0 ==> run_len(head + tail) == head.len(),
    decreases head.len(),
{
    let all = head + tail;
    if head.len() == 0 {
        assert(all =~= tail);
    } else {
        assert(all[0] == head[0]);
        assert(all.skip(1) =~= head.skip(1) + tail);
        lemma_run_of_nonzero(head.skip(1), tail);
    }
}

pub proof fn lemma_stuffed_len(bytes: Seq<u8>)
    ensures
        bytes.len() < stuffed(bytes).len() <= bytes.len() + bytes.len() / 254 + 1,
    decreases bytes.len(),
{
    lemma_run_len(bytes);
    let n = run_len(bytes);
    if n >= 254 && bytes.len() >= 254 {
        lemma_stuffed_len(bytes.skip(254));
    } else if n < bytes.len() {
        lemma_stuffed_len(bytes.skip(n as int + 1));
    }
}

/// Stuffing leaves no zero byte, so a zero can end a frame.
pub proof fn law_stuffed_holds_no_zero(bytes: Seq<u8>)
    ensures
        forall|i: int| 0 <= i < stuffed(bytes).len() ==> stuffed(bytes)[i] != 0,
    decreases bytes.len(),
{
    lemma_run_len(bytes);
    let n = run_len(bytes);
    let out = stuffed(bytes);
    if n >= 254 && bytes.len() >= 254 {
        let tail = bytes.skip(254);
        law_stuffed_holds_no_zero(tail);
        assert forall|i: int| 0 <= i < out.len() implies out[i] != 0 by {
            if 1 <= i < 255 {
                assert(out[i] == bytes[i - 1]);
            } else if i >= 255 {
                assert(out[i] == stuffed(tail)[i - 255]);
            }
        }
    } else if n >= bytes.len() {
        assert forall|i: int| 0 <= i < out.len() implies out[i] != 0 by {
            if i >= 1 {
                assert(out[i] == bytes[i - 1]);
            }
        }
    } else {
        let tail = bytes.skip(n as int + 1);
        law_stuffed_holds_no_zero(tail);
        assert forall|i: int| 0 <= i < out.len() implies out[i] != 0 by {
            if 1 <= i < n + 1 {
                assert(out[i] == bytes[i - 1]);
            } else if i >= n + 1 {
                assert(out[i] == stuffed(tail)[i - n - 1]);
            }
        }
    }
}

/// Unstuffing gives back what was stuffed.
pub proof fn law_unstuffed_undoes_stuffed(bytes: Seq<u8>)
    ensures
        well_stuffed(stuffed(bytes)),
        unstuffed(stuffed(bytes)) == bytes,
    decreases bytes.len(),
{
    lemma_run_len(bytes);
    lemma_stuffed_len(bytes);
    let n = run_len(bytes);
    let out = stuffed(bytes);
    if n >= 254 && bytes.len() >= 254 {
        let tail = bytes.skip(254);
        law_unstuffed_undoes_stuffed(tail);
        assert(out.skip(255) =~= stuffed(tail));
        assert(out.subrange(1, 255) =~= bytes.take(254));
        assert(unstuffed(out) =~= bytes);
    } else if n >= bytes.len() {
        assert(out.skip(out[0] as int) =~= Seq::empty());
        assert(well_stuffed(Seq::empty()) && unstuffed(Seq::empty()) =~= Seq::empty());
        assert(out.subrange(1, out[0] as int) =~= bytes);
        assert(unstuffed(out) =~= bytes);
    } else {
        let tail = bytes.skip(n as int + 1);
        law_unstuffed_undoes_stuffed(tail);
        lemma_stuffed_len(tail);
        assert(out.skip(n as int + 1) =~= stuffed(tail));
        assert(out.subrange(1, n as int + 1) =~= bytes.take(n as int));
        assert(unstuffed(out) =~= bytes);
    }
}

/// Stuffs `input` into `output` and ends it with the delimiter.
fn cobs_encode(input: &[u8], output: &mut [u8]) -> (result: Result<usize, FrameError>)
    requires
        input@.len() <= MAX_FRAME,
    ensures
        result is Err <==> old(output)@.len() < input@.len() + input@.len() / 254 + 2,
        result is Err ==> final(output)@ == old(output)@,
        result matches Ok(len) ==> {
            &&& len == stuffed(input@).len() + 1
            &&& final(output)@ == stuffed(input@) + seq![0u8] + old(output)@.skip(len as int)
        },
{
    if output.len() < input.len() + input.len() / 254 + 2 {
        return Err(FrameError);
    }
    let mut code_index: usize = 0;
    let mut write_index: usize = 1;
    let mut code: u8 = 1;
    let mut at: usize = 0;
    let ghost mut full: int = 0;
    let ghost mut pending: Seq<u8> = Seq::empty();
    assert(pending + input@.skip(0) =~= input@);
    assert(output@.take(0) + stuffed(input@) =~= stuffed(input@));
    while at < input.len()
        invariant
            at <= input@.len() <= MAX_FRAME,
            output@.len() == old(output)@.len(),
            output@.len() >= input@.len() + input@.len() / 254 + 2,
            write_index == 1 + at + full,
            0 <= full,
            254 * full + pending.len() <= at,
            code_index < write_index,
            pending.len() == write_index - code_index - 1,
            pending.len() < 254,
            code == pending.len() + 1,
            forall|i: int| 0 <= i < pending.len() ==> pending[i] != 0,
            forall|i: int|
                0 <= i < pending.len() ==> output@[code_index + 1 + i] == #[trigger] pending[i],
            forall|i: int|
                write_index <= i < output@.len() ==> output@[i] == old(output)@[i],
            stuffed(input@) == output@.take(code_index as int) + stuffed(
                pending + input@.skip(at as int),
            ),
        decreases input@.len() - at,
    {
        let byte: u8 = input[at];
        let ghost rest = input@.skip(at as int);
        let ghost next = input@.skip(at + 1);
        let ghost before = output@;
        assert(rest[0] == byte);
        assert(rest.skip(1) =~= next);
        if byte == 0 {
            proof {
                lemma_run_of_nonzero(pending, rest);
                assert((pending + rest).take(pending.len() as int) =~= pending);
                assert((pending + rest).skip(pending.len() as int + 1) =~= next);
            }
            output[code_index] = code;
            code_index = write_index;
            write_index += 1;
            code = 1;
            proof {
                assert(output@.take(code_index as int) =~= before.take(code_index - pending.len() - 1)
                    + (seq![(pending.len() + 1) as u8] + pending));
                pending = Seq::empty();
                assert(pending + next =~= next);
                assert(stuffed(input@) =~= output@.take(code_index as int) + stuffed(pending + next));
            }
        } else {
            output[write_index] = byte;
            write_index += 1;
            code = code + 1;
            proof {
                assert(pending.push(byte) + next =~= pending + rest);
                pending = pending.push(byte);
                assert(output@.take(code_index as int) =~= before.take(code_index as int));
            }
            if code == 255 {
                let ghost middle = output@;
                proof {
                    lemma_run_of_nonzero(pending, next);
                    lemma_run_len(pending + next);
                    assert((pending + next).take(254) =~= pending);
                    assert((pending + next).skip(254) =~= next);
                }
                output[code_index] = code;
                code_index = write_index;
                write_index += 1;
                code = 1;
                proof {
                    full = full + 1;
                    assert(output@.take(code_index as int) =~= middle.take(code_index - 255)
                        + (seq![255u8] + pending));
                    pending = Seq::empty();
                    assert(pending + next =~= next);
                    assert(stuffed(input@) =~= output@.take(code_index as int) + stuffed(
                        pending + next,
                    ));
                }
            }
        }
        at += 1;
    }
    let ghost before = output@;
    proof {
        assert(input@.skip(at as int) =~= Seq::empty());
        lemma_run_of_nonzero(pending, Seq::empty());
        assert(pending + Seq::<u8>::empty() =~= pending);
    }
    output[code_index] = code;
    output[write_index] = 0;
    proof {
        assert(stuffed(pending) =~= seq![(pending.len() + 1) as u8] + pending);
        assert(output@.take(write_index as int) =~= before.take(code_index as int) + stuffed(
            pending,
        ));
        assert(output@ =~= stuffed(input@) + seq![0u8] + old(output)@.skip(write_index + 1));
    }
    Ok(write_index + 1)
}

/// Unstuffs `frame` in place, and says how much of it the bytes now fill.
fn cobs_decode(frame: &mut [u8]) -> (result: Result<usize, FrameError>)
    ensures
        result is Ok <==> well_stuffed(old(frame)@),
        result matches Ok(len) ==> len == unstuffed(old(frame)@).len(),
        unstuffed(old(frame)@).len() <= old(frame)@.len(),
        final(frame)@ == unstuffed(old(frame)@) + old(frame)@.skip(
            unstuffed(old(frame)@).len() as int,
        ),
{
    let mut read_index: usize = 0;
    let mut write_index: usize = 0;
    let ghost input = frame@;
    assert(input.skip(0) =~= input);
    assert(frame@.take(0) + unstuffed(input) =~= unstuffed(input));
    while read_index < frame.len()
        invariant
            input == old(frame)@,
            write_index <= read_index <= frame@.len(),
            frame@.len() == input.len(),
            well_stuffed(input) == well_stuffed(input.skip(read_index as int)),
            unstuffed(input) == frame@.take(write_index as int) + unstuffed(
                input.skip(read_index as int),
            ),
            forall|i: int| write_index <= i < frame@.len() ==> frame@[i] == input[i],
        decreases frame@.len() - read_index,
    {
        let ghost block = input.skip(read_index as int);
        let code: u8 = frame[read_index];
        assert(block[0] == code);
        if code == 0 || code as usize > frame.len() - read_index {
            proof {
                assert(frame@ =~= unstuffed(input) + input.skip(unstuffed(input).len() as int));
            }
            return Err(FrameError);
        }
        read_index += 1;
        let ghost before = frame@;
        let ghost from = write_index as int;
        let end: usize = read_index + (code as usize - 1);
        while read_index < end
            invariant
                code >= 1,
                0 <= from,
                before.len() == input.len(),
                block == input.skip(end - code),
                from <= end - code,
                write_index == from + (read_index - (end - code + 1)),
                end - code + 1 <= read_index <= end <= frame@.len(),
                frame@.len() == input.len(),
                frame@.take(write_index as int) == before.take(from) + block.subrange(
                    1,
                    1 + read_index - (end - code + 1),
                ),
                forall|i: int| write_index <= i < frame@.len() ==> frame@[i] == input[i],
            decreases end - read_index,
        {
            let ghost earlier = frame@;
            frame[write_index] = frame[read_index];
            write_index += 1;
            read_index += 1;
            proof {
                let taken = read_index - (end - code + 1);
                assert(frame@.take(write_index as int) =~= earlier.take(write_index - 1).push(
                    block[taken],
                ));
                assert(block.subrange(1, 1 + taken) =~= block.subrange(1, taken).push(block[taken]));
                assert(frame@.take(write_index as int) =~= before.take(from) + block.subrange(
                    1,
                    1 + taken,
                ));
            }
        }
        let ghost rest = block.skip(code as int);
        assert(rest =~= input.skip(read_index as int));
        let ghost copied = frame@.take(write_index as int);
        if code != 255 && read_index < frame.len() {
            frame[write_index] = 0;
            write_index += 1;
            assert(frame@.take(write_index as int) =~= copied + seq![0u8]);
        }
        assert(unstuffed(input) =~= frame@.take(write_index as int) + unstuffed(rest));
    }
    proof {
        assert(input.skip(read_index as int) =~= Seq::empty());
        assert(unstuffed(input) =~= frame@.take(write_index as int));
        assert(frame@ =~= unstuffed(input) + input.skip(unstuffed(input).len() as int));
    }
    Ok(write_index)
}

/// What a host asks of the bridge. The numbers are part of the wire contract.
#[derive(Clone, Copy, Debug, Eq, PartialEq, Structural)]
pub enum Command {
    Hello,
    Attach,
    Detach,
    ReadRegister,
    WriteRegister,
    SwjSequence,
    LineState,
    ResetLineState,
    ResetAssert,
    ResetRelease,
    AttachUnderReset,
    PadSelfTest,
    RecoveryProbe,
    DiagnosticSwdio,
    EnterRomBoot,
    UartReceive,
    UartResetCapture,
    MuxProbe,
    ReadRegisterBlock,
    SetSpeed,
    SetPinMap,
    Capabilities,
    WriteRegisterBlock,
    RecoverLine,
    WireProbe,
    SetEngine,
    ApWriteProbe,
    SpiLoopback,
    MemoryRead,
    Ping,
    Profile,
    Echo,
    PinMap,
    WifiStatus,
    WifiSet,
    WifiForget,
}

impl Command {
    /// The byte that stands for this command on the wire.
    pub open spec fn wire_code(self) -> u8 {
        match self {
            Command::Hello => 0x01,
            Command::Attach => 0x02,
            Command::Detach => 0x03,
            Command::ReadRegister => 0x10,
            Command::WriteRegister => 0x11,
            Command::SwjSequence => 0x12,
            Command::LineState => 0x13,
            Command::ResetLineState => 0x14,
            Command::ResetAssert => 0x15,
            Command::ResetRelease => 0x16,
            Command::AttachUnderReset => 0x17,
            Command::PadSelfTest => 0x18,
            Command::RecoveryProbe => 0x19,
            Command::DiagnosticSwdio => 0x1a,
            Command::EnterRomBoot => 0x1b,
            Command::UartReceive => 0x1c,
            Command::UartResetCapture => 0x1d,
            Command::MuxProbe => 0x1e,
            Command::ReadRegisterBlock => 0x1f,
            Command::SetSpeed => 0x20,
            Command::SetPinMap => 0x21,
            Command::Capabilities => 0x22,
            Command::WriteRegisterBlock => 0x23,
            Command::RecoverLine => 0x24,
            Command::WireProbe => 0x25,
            Command::SetEngine => 0x26,
            Command::ApWriteProbe => 0x27,
            Command::SpiLoopback => 0x28,
            Command::MemoryRead => 0x29,
            Command::Ping => 0x2a,
            Command::Profile => 0x2b,
            Command::Echo => 0x2c,
            Command::PinMap => 0x2d,
            Command::WifiStatus => 0x2e,
            Command::WifiSet => 0x2f,
            Command::WifiForget => 0x30,
        }
    }

    /// The byte that stands for this command on the wire.
    pub fn code(self) -> (code: u8)
        ensures
            code == self.wire_code(),
    {
        match self {
            Command::Hello => 0x01,
            Command::Attach => 0x02,
            Command::Detach => 0x03,
            Command::ReadRegister => 0x10,
            Command::WriteRegister => 0x11,
            Command::SwjSequence => 0x12,
            Command::LineState => 0x13,
            Command::ResetLineState => 0x14,
            Command::ResetAssert => 0x15,
            Command::ResetRelease => 0x16,
            Command::AttachUnderReset => 0x17,
            Command::PadSelfTest => 0x18,
            Command::RecoveryProbe => 0x19,
            Command::DiagnosticSwdio => 0x1a,
            Command::EnterRomBoot => 0x1b,
            Command::UartReceive => 0x1c,
            Command::UartResetCapture => 0x1d,
            Command::MuxProbe => 0x1e,
            Command::ReadRegisterBlock => 0x1f,
            Command::SetSpeed => 0x20,
            Command::SetPinMap => 0x21,
            Command::Capabilities => 0x22,
            Command::WriteRegisterBlock => 0x23,
            Command::RecoverLine => 0x24,
            Command::WireProbe => 0x25,
            Command::SetEngine => 0x26,
            Command::ApWriteProbe => 0x27,
            Command::SpiLoopback => 0x28,
            Command::MemoryRead => 0x29,
            Command::Ping => 0x2a,
            Command::Profile => 0x2b,
            Command::Echo => 0x2c,
            Command::PinMap => 0x2d,
            Command::WifiStatus => 0x2e,
            Command::WifiSet => 0x2f,
            Command::WifiForget => 0x30,
        }
    }
}

/// The command that a byte stands for.
pub open spec fn command_of(value: u8) -> Option<Command> {
    match value {
        0x01 => Some(Command::Hello),
        0x02 => Some(Command::Attach),
        0x03 => Some(Command::Detach),
        0x10 => Some(Command::ReadRegister),
        0x11 => Some(Command::WriteRegister),
        0x12 => Some(Command::SwjSequence),
        0x13 => Some(Command::LineState),
        0x14 => Some(Command::ResetLineState),
        0x15 => Some(Command::ResetAssert),
        0x16 => Some(Command::ResetRelease),
        0x17 => Some(Command::AttachUnderReset),
        0x18 => Some(Command::PadSelfTest),
        0x19 => Some(Command::RecoveryProbe),
        0x1a => Some(Command::DiagnosticSwdio),
        0x1b => Some(Command::EnterRomBoot),
        0x1c => Some(Command::UartReceive),
        0x1d => Some(Command::UartResetCapture),
        0x1e => Some(Command::MuxProbe),
        0x1f => Some(Command::ReadRegisterBlock),
        0x20 => Some(Command::SetSpeed),
        0x21 => Some(Command::SetPinMap),
        0x22 => Some(Command::Capabilities),
        0x23 => Some(Command::WriteRegisterBlock),
        0x24 => Some(Command::RecoverLine),
        0x25 => Some(Command::WireProbe),
        0x26 => Some(Command::SetEngine),
        0x27 => Some(Command::ApWriteProbe),
        0x28 => Some(Command::SpiLoopback),
        0x29 => Some(Command::MemoryRead),
        0x2a => Some(Command::Ping),
        0x2b => Some(Command::Profile),
        0x2c => Some(Command::Echo),
        0x2d => Some(Command::PinMap),
        0x2e => Some(Command::WifiStatus),
        0x2f => Some(Command::WifiSet),
        0x30 => Some(Command::WifiForget),
        _ => None,
    }
}

impl TryFrom<u8> for Command {
    type Error = FrameError;

    fn try_from(value: u8) -> (result: Result<Self, FrameError>) {
        match value {
            0x01 => Ok(Command::Hello),
            0x02 => Ok(Command::Attach),
            0x03 => Ok(Command::Detach),
            0x10 => Ok(Command::ReadRegister),
            0x11 => Ok(Command::WriteRegister),
            0x12 => Ok(Command::SwjSequence),
            0x13 => Ok(Command::LineState),
            0x14 => Ok(Command::ResetLineState),
            0x15 => Ok(Command::ResetAssert),
            0x16 => Ok(Command::ResetRelease),
            0x17 => Ok(Command::AttachUnderReset),
            0x18 => Ok(Command::PadSelfTest),
            0x19 => Ok(Command::RecoveryProbe),
            0x1a => Ok(Command::DiagnosticSwdio),
            0x1b => Ok(Command::EnterRomBoot),
            0x1c => Ok(Command::UartReceive),
            0x1d => Ok(Command::UartResetCapture),
            0x1e => Ok(Command::MuxProbe),
            0x1f => Ok(Command::ReadRegisterBlock),
            0x20 => Ok(Command::SetSpeed),
            0x21 => Ok(Command::SetPinMap),
            0x22 => Ok(Command::Capabilities),
            0x23 => Ok(Command::WriteRegisterBlock),
            0x24 => Ok(Command::RecoverLine),
            0x25 => Ok(Command::WireProbe),
            0x26 => Ok(Command::SetEngine),
            0x27 => Ok(Command::ApWriteProbe),
            0x28 => Ok(Command::SpiLoopback),
            0x29 => Ok(Command::MemoryRead),
            0x2a => Ok(Command::Ping),
            0x2b => Ok(Command::Profile),
            0x2c => Ok(Command::Echo),
            0x2d => Ok(Command::PinMap),
            0x2e => Ok(Command::WifiStatus),
            0x2f => Ok(Command::WifiSet),
            0x30 => Ok(Command::WifiForget),
            _ => Err(FrameError),
        }
    }
}

impl vstd::std_specs::convert::TryFromSpecImpl<u8> for Command {
    open spec fn obeys_try_from_spec() -> bool {
        true
    }

    open spec fn try_from_spec(value: u8) -> Result<Self, FrameError> {
        match command_of(value) {
            Some(command) => Ok(command),
            None => Err(FrameError),
        }
    }
}

/// How the bridge answers.
#[derive(Clone, Copy, Debug, Eq, PartialEq, Structural)]
pub enum Status {
    Okay,
    BadFrame,
    Unsupported,
    NotAttached,
    Wait,
    Fault,
    Parity,
    Transport,
    /// The shared reset line is asserted, so the target's bus would answer
    /// zeros rather than data.
    TargetInReset,
}

impl Status {
    /// The byte that stands for this status on the wire.
    pub open spec fn wire_code(self) -> u8 {
        match self {
            Status::Okay => 0,
            Status::BadFrame => 1,
            Status::Unsupported => 2,
            Status::NotAttached => 3,
            Status::Wait => 4,
            Status::Fault => 5,
            Status::Parity => 6,
            Status::Transport => 7,
            Status::TargetInReset => 8,
        }
    }

    /// The byte that stands for this status on the wire.
    pub fn code(self) -> (code: u8)
        ensures
            code == self.wire_code(),
    {
        match self {
            Status::Okay => 0,
            Status::BadFrame => 1,
            Status::Unsupported => 2,
            Status::NotAttached => 3,
            Status::Wait => 4,
            Status::Fault => 5,
            Status::Parity => 6,
            Status::Transport => 7,
            Status::TargetInReset => 8,
        }
    }
}

/// The status that a byte stands for.
pub open spec fn status_of(value: u8) -> Option<Status> {
    match value {
        0 => Some(Status::Okay),
        1 => Some(Status::BadFrame),
        2 => Some(Status::Unsupported),
        3 => Some(Status::NotAttached),
        4 => Some(Status::Wait),
        5 => Some(Status::Fault),
        6 => Some(Status::Parity),
        7 => Some(Status::Transport),
        8 => Some(Status::TargetInReset),
        _ => None,
    }
}

/// Every command is the one that its own code stands for, and no byte stands
/// for a command with another code.
pub proof fn law_command_codes_are_unambiguous(command: Command, value: u8)
    ensures
        command_of(command.wire_code()) == Some(command),
        command_of(value) matches Some(known) ==> known.wire_code() == value,
{
}

/// Every status is the one that its own code stands for, and no byte stands
/// for a status with another code.
pub proof fn law_status_codes_are_unambiguous(status: Status, value: u8)
    ensures
        status_of(status.wire_code()) == Some(status),
        status_of(value) matches Some(known) ==> known.wire_code() == value,
{
}

pub struct Request<'a> {
    pub sequence: u16,
    pub command: Command,
    pub payload: &'a [u8],
}

pub struct Response<'a> {
    pub sequence: u16,
    pub status: Status,
    pub payload: &'a [u8],
}

/// `ESPB`, which starts a request.
pub const REQUEST_MAGIC: [u8; 4] = [0x45, 0x53, 0x50, 0x42];

/// `ESPR`, which starts a response.
pub const RESPONSE_MAGIC: [u8; 4] = [0x45, 0x53, 0x50, 0x52];

/// A packet without its CRC.
pub open spec fn packet_head(magic: Seq<u8>, sequence: u16, kind: u8, payload: Seq<u8>) -> Seq<u8> {
    magic + seq![VERSION] + bytes::le16(sequence) + seq![kind] + payload
}

/// A packet, ready to be stuffed.
pub open spec fn packet(magic: Seq<u8>, sequence: u16, kind: u8, payload: Seq<u8>) -> Seq<u8> {
    let head = packet_head(magic, sequence, kind, payload);
    head + bytes::le16(crc_of(head))
}

/// The sequence number, kind and payload of a packet that starts with
/// `magic`, is of this version and carries the CRC of what it holds.
pub open spec fn parse_packet(packet: Seq<u8>, magic: Seq<u8>) -> Option<(u16, u8, Seq<u8>)> {
    let body = packet.len() - 2;
    if packet.len() < ENVELOPE || packet.take(4) != magic || packet[4] != VERSION || crc_of(
        packet.take(body),
    ) != bytes::read16(packet.skip(body)) {
        None
    } else {
        Some((bytes::read16(packet.skip(5)), packet[7], packet.subrange(8, body)))
    }
}

/// The whole frame that carries a packet, delimiter and all.
pub open spec fn frame_of(magic: Seq<u8>, sequence: u16, kind: u8, payload: Seq<u8>) -> Seq<u8> {
    stuffed(packet(magic, sequence, kind, payload)) + seq![0u8]
}

/// Does a packet with `payload` bytes of payload fit an output of `room`
/// bytes? What it needs is the worst case of its length, not what its content
/// happens to stuff to.
pub open spec fn frame_fits(payload: nat, room: nat) -> bool {
    let n = payload + ENVELOPE;
    n <= MAX_FRAME && n + n / 254 + 2 <= room
}

/// The request that a frame without its delimiter carries.
pub open spec fn request_in(frame: Seq<u8>) -> Option<(u16, Command, Seq<u8>)> {
    if !well_stuffed(frame) {
        None
    } else {
        match parse_packet(unstuffed(frame), REQUEST_MAGIC@) {
            Some((sequence, kind, payload)) => match command_of(kind) {
                Some(command) => Some((sequence, command, payload)),
                None => None,
            },
            None => None,
        }
    }
}

/// The response that a frame without its delimiter carries.
pub open spec fn response_in(frame: Seq<u8>) -> Option<(u16, Status, Seq<u8>)> {
    if !well_stuffed(frame) {
        None
    } else {
        match parse_packet(unstuffed(frame), RESPONSE_MAGIC@) {
            Some((sequence, kind, payload)) => match status_of(kind) {
                Some(status) => Some((sequence, status, payload)),
                None => None,
            },
            None => None,
        }
    }
}

/// What decoding in place leaves behind: the unstuffed bytes over the start of
/// the frame.
pub open spec fn decoded_in_place(frame: Seq<u8>) -> Seq<u8> {
    unstuffed(frame) + frame.skip(unstuffed(frame).len() as int)
}

/// Writes a request frame to the start of `output`, and says how long it is.
pub fn encode_request(
    sequence: u16,
    command: Command,
    payload: &[u8],
    output: &mut [u8],
) -> (result: Result<usize, FrameError>)
    ensures
        result is Ok <==> frame_fits(payload@.len(), old(output)@.len()),
        result is Err ==> final(output)@ == old(output)@,
        result matches Ok(len) ==> {
            let frame = frame_of(REQUEST_MAGIC@, sequence, command.wire_code(), payload@);
            &&& len == frame.len()
            &&& final(output)@ == frame + old(output)@.skip(len as int)
        },
{
    encode(&REQUEST_MAGIC, sequence, command.code(), payload, output)
}

/// Writes a response frame to the start of `output`, and says how long it is.
pub fn encode_response(
    sequence: u16,
    status: Status,
    payload: &[u8],
    output: &mut [u8],
) -> (result: Result<usize, FrameError>)
    ensures
        result is Ok <==> frame_fits(payload@.len(), old(output)@.len()),
        result is Err ==> final(output)@ == old(output)@,
        result matches Ok(len) ==> {
            let frame = frame_of(RESPONSE_MAGIC@, sequence, status.wire_code(), payload@);
            &&& len == frame.len()
            &&& final(output)@ == frame + old(output)@.skip(len as int)
        },
{
    encode(&RESPONSE_MAGIC, sequence, status.code(), payload, output)
}

/// Decodes a request frame, its delimiter already taken off, in place.
pub fn decode_request(frame: &mut [u8]) -> (result: Result<Request<'_>, FrameError>)
    ensures
        result is Ok <==> request_in(old(frame)@) is Some,
        result matches Ok(request) ==> request_in(old(frame)@) == Some(
            (request.sequence, request.command, request.payload@),
        ),
        final(frame)@ == decoded_in_place(old(frame)@),
{
    let len: usize = match cobs_decode(frame) {
        Ok(len) => len,
        Err(error) => return Err(error),
    };
    let decoded: &[u8] = slice_subrange(&*frame, 0, len);
    assert(decoded@ =~= unstuffed(old(frame)@));
    let (sequence, kind, payload) = match decode_packet(decoded, &REQUEST_MAGIC) {
        Ok(parts) => parts,
        Err(error) => return Err(error),
    };
    match Command::try_from(kind) {
        Ok(command) => Ok(Request { sequence, command, payload }),
        Err(error) => Err(error),
    }
}

/// Decodes a response frame, its delimiter already taken off, in place.
pub fn decode_response(frame: &mut [u8]) -> (result: Result<Response<'_>, FrameError>)
    ensures
        result is Ok <==> response_in(old(frame)@) is Some,
        result matches Ok(response) ==> response_in(old(frame)@) == Some(
            (response.sequence, response.status, response.payload@),
        ),
        final(frame)@ == decoded_in_place(old(frame)@),
{
    let len: usize = match cobs_decode(frame) {
        Ok(len) => len,
        Err(error) => return Err(error),
    };
    let decoded: &[u8] = slice_subrange(&*frame, 0, len);
    assert(decoded@ =~= unstuffed(old(frame)@));
    let (sequence, kind, payload) = match decode_packet(decoded, &RESPONSE_MAGIC) {
        Ok(parts) => parts,
        Err(error) => return Err(error),
    };
    let status: Status = match kind {
        0 => Status::Okay,
        1 => Status::BadFrame,
        2 => Status::Unsupported,
        3 => Status::NotAttached,
        4 => Status::Wait,
        5 => Status::Fault,
        6 => Status::Parity,
        7 => Status::Transport,
        8 => Status::TargetInReset,
        _ => return Err(FrameError),
    };
    Ok(Response { sequence, status, payload })
}

fn encode(
    magic: &[u8; 4],
    sequence: u16,
    kind: u8,
    payload: &[u8],
    output: &mut [u8],
) -> (result: Result<usize, FrameError>)
    ensures
        result is Ok <==> frame_fits(payload@.len(), old(output)@.len()),
        result is Err ==> final(output)@ == old(output)@,
        result matches Ok(len) ==> {
            let frame = frame_of(magic@, sequence, kind, payload@);
            &&& len == frame.len()
            &&& final(output)@ == frame + old(output)@.skip(len as int)
        },
{
    if payload.len() > MAX_FRAME - ENVELOPE {
        return Err(FrameError);
    }
    let mut bytes: Vec<u8> = Vec::with_capacity(payload.len() + ENVELOPE);
    bytes.push(magic[0]);
    bytes.push(magic[1]);
    bytes.push(magic[2]);
    bytes.push(magic[3]);
    bytes.push(VERSION);
    bytes::push_le16(&mut bytes, sequence);
    bytes.push(kind);
    bytes.extend_from_slice(payload);
    assert(bytes@ =~= packet_head(magic@, sequence, kind, payload@));
    let crc: u16 = crc16(bytes.as_slice());
    bytes::push_le16(&mut bytes, crc);
    proof {
        lemma_stuffed_len(bytes@);
    }
    cobs_encode(bytes.as_slice(), output)
}

fn decode_packet<'a>(bytes: &'a [u8], magic: &[u8; 4]) -> (result: Result<
    (u16, u8, &'a [u8]),
    FrameError,
>)
    ensures
        result is Ok <==> parse_packet(bytes@, magic@) is Some,
        result matches Ok((sequence, kind, payload)) ==> parse_packet(bytes@, magic@) == Some(
            (sequence, kind, payload@),
        ),
{
    if bytes.len() < ENVELOPE {
        return Err(FrameError);
    }
    if bytes[0] != magic[0] || bytes[1] != magic[1] || bytes[2] != magic[2] || bytes[3]
        != magic[3] {
        assert(bytes@.take(4)[0] != magic@[0] || bytes@.take(4)[1] != magic@[1]
            || bytes@.take(4)[2] != magic@[2] || bytes@.take(4)[3] != magic@[3]);
        return Err(FrameError);
    }
    assert(bytes@.take(4) =~= magic@);
    if bytes[4] != VERSION {
        return Err(FrameError);
    }
    let body: usize = bytes.len() - 2;
    let expected: u16 = bytes::get_le16(bytes, body);
    let held: &[u8] = slice_subrange(bytes, 0, body);
    assert(held@ =~= bytes@.take(body as int));
    if crc16(held) != expected {
        return Err(FrameError);
    }
    Ok((bytes::get_le16(bytes, 5), bytes[7], slice_subrange(bytes, 8, body)))
}

/// A packet is read back as it was written.
pub proof fn law_parse_undoes_packet(magic: Seq<u8>, sequence: u16, kind: u8, payload: Seq<u8>)
    requires
        magic.len() == 4,
    ensures
        parse_packet(packet(magic, sequence, kind, payload), magic) == Some(
            (sequence, kind, payload),
        ),
{
    let head = packet_head(magic, sequence, kind, payload);
    let all = packet(magic, sequence, kind, payload);
    assert(all.take(4) =~= magic);
    assert(all.take(all.len() - 2) =~= head);
    assert(all.skip(all.len() - 2) =~= bytes::le16(crc_of(head)));
    bytes::law_read16_undoes_le16(crc_of(head));
    bytes::law_read16_undoes_le16(sequence);
    assert(all.skip(5)[0] == bytes::le16(sequence)[0] && all.skip(5)[1] == bytes::le16(sequence)[1]);
    assert(all.subrange(8, all.len() - 2) =~= payload);
}

/// A request, with its delimiter taken off, is decoded as it was encoded.
pub proof fn law_request_round_trip(sequence: u16, command: Command, payload: Seq<u8>)
    ensures
        ({
            let frame = frame_of(REQUEST_MAGIC@, sequence, command.wire_code(), payload);
            request_in(frame.drop_last()) == Some((sequence, command, payload))
        }),
{
    let bytes = packet(REQUEST_MAGIC@, sequence, command.wire_code(), payload);
    let frame = frame_of(REQUEST_MAGIC@, sequence, command.wire_code(), payload);
    assert(frame.drop_last() =~= stuffed(bytes));
    law_unstuffed_undoes_stuffed(bytes);
    law_parse_undoes_packet(REQUEST_MAGIC@, sequence, command.wire_code(), payload);
    law_command_codes_are_unambiguous(command, 0);
}

/// A response, with its delimiter taken off, is decoded as it was encoded.
pub proof fn law_response_round_trip(sequence: u16, status: Status, payload: Seq<u8>)
    ensures
        ({
            let frame = frame_of(RESPONSE_MAGIC@, sequence, status.wire_code(), payload);
            response_in(frame.drop_last()) == Some((sequence, status, payload))
        }),
{
    let bytes = packet(RESPONSE_MAGIC@, sequence, status.wire_code(), payload);
    let frame = frame_of(RESPONSE_MAGIC@, sequence, status.wire_code(), payload);
    assert(frame.drop_last() =~= stuffed(bytes));
    law_unstuffed_undoes_stuffed(bytes);
    law_parse_undoes_packet(RESPONSE_MAGIC@, sequence, status.wire_code(), payload);
    law_status_codes_are_unambiguous(status, 0);
}

/// The only zero of a frame is the delimiter that ends it.
pub proof fn law_a_frame_holds_one_zero(magic: Seq<u8>, sequence: u16, kind: u8, payload: Seq<u8>)
    ensures
        ({
            let frame = frame_of(magic, sequence, kind, payload);
            &&& frame.len() > 0
            &&& forall|i: int|
                0 <= i < frame.len() ==> (frame[i] == 0 <==> i == frame.len() - 1)
        }),
{
    law_stuffed_holds_no_zero(packet(magic, sequence, kind, payload));
}

/// A full block of words always fits one frame.
pub proof fn law_a_full_block_fits_one_frame()
    ensures
        frame_fits((4 * MAX_BLOCK_WORDS) as nat, (MAX_FRAME + 18) as nat),
{
}

proof fn lemma_crc_byte_injective(v: u16, w: u16, byte: u8)
    requires
        v != w,
    ensures
        crc_byte(v, byte) != crc_byte(w, byte),
{
    lemma_crc_shift4_injective(v ^ ((byte as u16) << 8), w ^ ((byte as u16) << 8));
    assert(v != w ==> v ^ ((byte as u16) << 8) != w ^ ((byte as u16) << 8)) by (bit_vector);
    lemma_crc_shift4_injective(
        crc_shift4(v ^ ((byte as u16) << 8)),
        crc_shift4(w ^ ((byte as u16) << 8)),
    );
}

proof fn lemma_crc_shift4_injective(v: u16, w: u16)
    ensures
        v != w ==> crc_shift4(v) != crc_shift4(w),
{
    assert(v != w ==> crc_shift4(v) != crc_shift4(w)) by (bit_vector);
}

/// Changing one byte of what it covers always changes the CRC.
pub proof fn law_one_changed_byte_changes_the_crc(bytes: Seq<u8>, at: int, byte: u8)
    requires
        0 <= at < bytes.len(),
        byte != bytes[at],
    ensures
        crc_of(bytes.update(at, byte)) != crc_of(bytes),
    decreases bytes.len(),
{
    let changed = bytes.update(at, byte);
    if at == bytes.len() - 1 {
        assert(changed.drop_last() =~= bytes.drop_last());
        let v = crc_of(bytes.drop_last());
        let (a, b) = (bytes[at], byte);
        assert(a != b ==> v ^ ((a as u16) << 8) != v ^ ((b as u16) << 8)) by (bit_vector);
        lemma_crc_shift4_injective(v ^ ((a as u16) << 8), v ^ ((b as u16) << 8));
        lemma_crc_shift4_injective(
            crc_shift4(v ^ ((a as u16) << 8)),
            crc_shift4(v ^ ((b as u16) << 8)),
        );
    } else {
        assert(changed.drop_last() =~= bytes.drop_last().update(at, byte));
        law_one_changed_byte_changes_the_crc(bytes.drop_last(), at, byte);
        lemma_crc_byte_injective(
            crc_of(changed.drop_last()),
            crc_of(bytes.drop_last()),
            bytes.last(),
        );
    }
}

/// A packet that lost one byte to the wire is refused, whichever it was.
pub proof fn law_a_corrupted_packet_is_refused(
    magic: Seq<u8>,
    sequence: u16,
    kind: u8,
    payload: Seq<u8>,
    at: int,
    byte: u8,
)
    requires
        magic.len() == 4,
        0 <= at < packet(magic, sequence, kind, payload).len(),
        byte != packet(magic, sequence, kind, payload)[at],
    ensures
        parse_packet(packet(magic, sequence, kind, payload).update(at, byte), magic) is None,
{
    let head = packet_head(magic, sequence, kind, payload);
    let all = packet(magic, sequence, kind, payload);
    let changed = all.update(at, byte);
    let body = all.len() - 2;
    assert(all.take(body) =~= head);
    assert(all.skip(body) =~= bytes::le16(crc_of(head)));
    bytes::law_read16_undoes_le16(crc_of(head));
    if at < body {
        assert(changed.take(body) =~= head.update(at, byte));
        assert(changed.skip(body) =~= all.skip(body));
        law_one_changed_byte_changes_the_crc(head, at, byte);
    } else {
        assert(changed.take(body) =~= head);
        assert(changed.skip(body) =~= all.skip(body).update(at - body, byte));
    }
}

/// The register after taking in one bit of a message: it is shifted up, and
/// where the bit that leaves it is not the bit that comes, x^12, x^5 and 1 are
/// added.
pub open spec fn crc_bit(v: u16, bit: bool) -> u16 {
    let shifted = v << 1;
    if (v & 0x8000 != 0) != bit {
        shifted ^ (1u16 << 12) ^ (1u16 << 5) ^ 1
    } else {
        shifted
    }
}

/// The checksum starts from all ones and takes in each byte bit by bit, the most
/// significant first.
pub proof fn law_the_checksum_takes_in_bits(v: u16, byte: u8)
    ensures
        crc_of(Seq::empty()) == 0xffff,
        crc_byte(v, byte) == ({
            let a = crc_bit(v, byte & 0x80 != 0);
            let b = crc_bit(a, byte & 0x40 != 0);
            let c = crc_bit(b, byte & 0x20 != 0);
            let d = crc_bit(c, byte & 0x10 != 0);
            let e = crc_bit(d, byte & 0x08 != 0);
            let f = crc_bit(e, byte & 0x04 != 0);
            let g = crc_bit(f, byte & 0x02 != 0);
            crc_bit(g, byte & 0x01 != 0)
        }),
{
    assert(crc_byte(v, byte) == crc_bit(
        crc_bit(
            crc_bit(
                crc_bit(
                    crc_bit(
                        crc_bit(
                            crc_bit(crc_bit(v, byte & 0x80 != 0), byte & 0x40 != 0),
                            byte & 0x20 != 0,
                        ),
                        byte & 0x10 != 0,
                    ),
                    byte & 0x08 != 0,
                ),
                byte & 0x04 != 0,
            ),
            byte & 0x02 != 0,
        ),
        byte & 0x01 != 0,
    )) by (bit_vector);
}

/// A packet's bytes, one by one: a magic, a version, the number, the kind, the
/// payload, and the checksum of all of these.
pub proof fn law_a_packet_is_laid_out(sequence: u16, kind: u8, payload: Seq<u8>)
    ensures
        ({
            let asks = packet(REQUEST_MAGIC@, sequence, kind, payload);
            let answers = packet(RESPONSE_MAGIC@, sequence, kind, payload);
            let n = payload.len() as int;
            &&& asks.len() == n + 10 && answers.len() == n + 10
            &&& asks.take(4) == seq![0x45u8, 0x53, 0x50, 0x42]
            &&& answers.take(4) == seq![0x45u8, 0x53, 0x50, 0x52]
            &&& asks[4] == 3 && asks[5] == sequence % 256 && asks[6] == sequence / 256 && asks[7]
                == kind
            &&& asks.subrange(8, 8 + n) == payload
            &&& asks[n + 8] == crc_of(asks.take(n + 8)) % 256 && asks[n + 9] == crc_of(
                asks.take(n + 8),
            ) / 256
            &&& answers.skip(4).take(n + 4) == asks.skip(4).take(n + 4)
        }),
{
    let asks = packet(REQUEST_MAGIC@, sequence, kind, payload);
    let answers = packet(RESPONSE_MAGIC@, sequence, kind, payload);
    let n = payload.len() as int;
    assert(asks.take(n + 8) =~= packet_head(REQUEST_MAGIC@, sequence, kind, payload));
    assert(asks.take(4) =~= seq![0x45u8, 0x53, 0x50, 0x42]);
    assert(answers.take(4) =~= seq![0x45u8, 0x53, 0x50, 0x52]);
    assert(asks.subrange(8, 8 + n) =~= payload);
    assert(answers.skip(4).take(n + 4) =~= asks.skip(4).take(n + 4));
}

/// A count stands for the bytes up to the next zero: the first byte of what is
/// stuffed is one more than where the first zero is, the bytes before it follow,
/// and what is after it is stuffed again.
pub proof fn law_a_count_tells_the_next_zero(bytes: Seq<u8>, at: int)
    requires
        0 <= at < bytes.len(),
        at < 254,
        bytes[at] == 0,
        forall|i: int| 0 <= i < at ==> bytes[i] != 0,
    ensures
        stuffed(bytes) == seq![(at + 1) as u8] + bytes.take(at) + stuffed(bytes.skip(at + 1)),
{
    lemma_run_len(bytes);
    let n = run_len(bytes) as int;
    if n < at {
        assert(bytes[n] != 0);
    } else if n > at {
        assert(bytes[at] != 0);
    }
}

/// A payload that fits has at most 4126 bytes and is sent whole, whatever it
/// holds: its frame is no longer than the room there is.
pub proof fn law_what_fits_is_sent_whole(
    magic: Seq<u8>,
    sequence: u16,
    kind: u8,
    payload: Seq<u8>,
    room: nat,
)
    requires
        magic.len() == 4,
        frame_fits(payload.len(), room),
    ensures
        frame_of(magic, sequence, kind, payload).len() <= room,
        payload.len() <= 4126,
{
    lemma_stuffed_len(packet(magic, sequence, kind, payload));
}

} // verus!
