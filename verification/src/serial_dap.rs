//! Driving raw ARM DAP transfers through the bridge.

use crate::bytes;
use crate::clock::{MAX_CLOCK_HZ, MIN_CLOCK_HZ};
use crate::engine::Engine;
use crate::frame::{Command, MAX_BLOCK_WORDS};
use vstd::prelude::*;
use vstd::slice::*;

verus! {

/// What a bridge says when greeted.
pub const IDENTITY: [u8; 4] = [0x44, 0x41, 0x50, 0x31];

/// nRESET in the CMSIS-DAP pin numbering, as the weight of its bit.
pub const PIN_NRESET: u32 = 0x80;

/// What the host knows about a bridge.
#[derive(Clone, Copy, Debug, Eq, PartialEq, Structural)]
pub struct SerialDapProbe {
    pub attached: bool,
    pub speed_khz: u32,
    pub block_words: usize,
    pub attach_under_reset: bool,
}

/// A register read: which port, and which register of it.
pub open spec fn read_payload(access_port: bool, register: u8) -> Seq<u8> {
    seq![
        if access_port {
            1u8
        } else {
            0u8
        },
        register,
    ]
}

/// A register write.
pub open spec fn write_payload(access_port: bool, register: u8, value: u32) -> Seq<u8> {
    read_payload(access_port, register) + bytes::le32(value)
}

/// A block of reads of one register.
pub open spec fn block_read_payload(access_port: bool, register: u8, count: nat) -> Seq<u8> {
    read_payload(access_port, register) + bytes::le16(count as u16)
}

/// A block of writes to one register.
pub open spec fn block_write_payload(access_port: bool, register: u8, values: Seq<u32>) -> Seq<u8> {
    block_read_payload(access_port, register, values.len()) + bytes::words_le(values)
}

/// A bulk memory read.
pub open spec fn memory_payload(address: u32, count: nat) -> Seq<u8> {
    bytes::le32(address) + bytes::le16(count as u16)
}

/// A requested speed, as a clock the bridge can be asked for.
pub open spec fn clock_for(speed_khz: u32) -> int {
    let hz = speed_khz * 1000;
    if hz < MIN_CLOCK_HZ {
        MIN_CLOCK_HZ as int
    } else if hz > MAX_CLOCK_HZ {
        MAX_CLOCK_HZ as int
    } else {
        hz
    }
}

/// The word that a reply carries, `None` for a reply that is not one word.
pub open spec fn word_of(reply: Seq<u8>) -> Option<u32> {
    if reply.len() == 4 {
        Some(bytes::read32(reply))
    } else {
        None
    }
}

/// Is this what a bridge says when greeted?
pub fn is_bridge(hello: &[u8]) -> (yes: bool)
    ensures
        yes == (hello@ == seq![0x44u8, 0x41, 0x50, 0x31]),
{
    let yes: bool = hello.len() == 4 && hello[0] == IDENTITY[0] && hello[1] == IDENTITY[1]
        && hello[2] == IDENTITY[2] && hello[3] == IDENTITY[3];
    proof {
        if yes {
            assert(hello@ =~= seq![0x44u8, 0x41, 0x50, 0x31]);
        }
    }
    yes
}

/// The word that a reply carries.
pub fn decode_word(reply: &[u8]) -> (word: Option<u32>)
    ensures
        word == word_of(reply@),
{
    if reply.len() != 4 {
        return None;
    }
    assert(reply@.skip(0) =~= reply@);
    Some(bytes::get_le32(reply, 0))
}

pub fn encode_read(access_port: bool, register: u8) -> (payload: Vec<u8>)
    ensures
        payload@ == read_payload(access_port, register),
{
    let mut payload: Vec<u8> = Vec::new();
    payload.push(
        if access_port {
            1
        } else {
            0
        },
    );
    payload.push(register);
    assert(payload@ =~= read_payload(access_port, register));
    payload
}

pub fn encode_write(access_port: bool, register: u8, value: u32) -> (payload: Vec<u8>)
    ensures
        payload@ == write_payload(access_port, register, value),
{
    let mut payload: Vec<u8> = encode_read(access_port, register);
    bytes::push_le32(&mut payload, value);
    payload
}

/// An undecoded bit sequence of up to sixty-four bits.
pub fn encode_sequence(bit_len: u8, bits: u64) -> (payload: Vec<u8>)
    ensures
        payload@ == seq![bit_len] + bytes::le64(bits),
{
    let mut payload: Vec<u8> = Vec::new();
    payload.push(bit_len);
    bytes::push_le64(&mut payload, bits);
    assert(payload@ =~= seq![bit_len] + bytes::le64(bits));
    payload
}

/// A bulk memory read of up to 65535 words.
pub fn encode_memory_read(address: u32, count: u16) -> (payload: Vec<u8>)
    ensures
        payload@ == memory_payload(address, count as nat),
{
    let mut payload: Vec<u8> = Vec::new();
    bytes::push_le32(&mut payload, address);
    bytes::push_le16(&mut payload, count);
    assert(payload@ =~= memory_payload(address, count as nat));
    payload
}

/// The words of a bulk read's reply, `None` for a reply that does not carry as
/// many as were asked for.
pub fn decode_words(reply: &[u8], count: usize) -> (words: Option<Vec<u32>>)
    ensures
        if reply@.len() == 4 * count {
            words matches Some(got) && got@ == bytes::read_words(reply@)
        } else {
            words is None
        },
{
    if reply.len() % 4 != 0 || reply.len() / 4 != count {
        return None;
    }
    Some(bytes::get_words(reply))
}

impl SerialDapProbe {
    /// A bridge that told its capabilities: how many words a block carries, and
    /// its clock. `None` for a reply that does not hold exactly these two
    /// words.
    pub fn with_capabilities(reply: &[u8]) -> (probe: Option<SerialDapProbe>)
        ensures
            probe == (if 8 <= reply@.len() < 12 {
                Some(
                    SerialDapProbe {
                        attached: false,
                        speed_khz: bytes::read32(reply@.skip(4)) / 1000,
                        block_words: if bytes::read32(reply@) < MAX_BLOCK_WORDS {
                            bytes::read32(reply@) as usize
                        } else {
                            MAX_BLOCK_WORDS
                        },
                        attach_under_reset: false,
                    },
                )
            } else {
                None
            }),
    {
        if reply.len() < 8 || reply.len() >= 12 {
            return None;
        }
        assert(reply@.skip(0) =~= reply@);
        let block: u32 = bytes::get_le32(reply, 0);
        let clock: u32 = bytes::get_le32(reply, 4);
        Some(
            SerialDapProbe {
                attached: false,
                speed_khz: clock / 1000,
                block_words: if (block as u64) < MAX_BLOCK_WORDS as u64 {
                    block as usize
                } else {
                    MAX_BLOCK_WORDS
                },
                attach_under_reset: false,
            },
        )
    }

    /// The clock to ask for.
    pub fn clock_request(speed_khz: u32) -> (clock_hz: u32)
        ensures
            clock_hz == clock_for(speed_khz),
    {
        let hz: u64 = speed_khz as u64 * 1000;
        if hz < MIN_CLOCK_HZ as u64 {
            MIN_CLOCK_HZ
        } else if hz > MAX_CLOCK_HZ as u64 {
            MAX_CLOCK_HZ
        } else {
            hz as u32
        }
    }

    /// Takes the clock that a bridge says it runs at: the speed, `None` for a
    /// reply that is not a clock.
    pub fn take_clock(&mut self, reply: &[u8]) -> (speed_khz: Option<u32>)
        ensures
            match word_of(reply@) {
                Some(clock_hz) => {
                    &&& speed_khz == Some(clock_hz / 1000)
                    &&& *final(self) == (SerialDapProbe {
                        speed_khz: clock_hz / 1000,
                        ..*old(self)
                    })
                },
                None => speed_khz is None && *final(self) == *old(self),
            },
    {
        match decode_word(reply) {
            Some(clock_hz) => {
                self.speed_khz = clock_hz / 1000;
                Some(self.speed_khz)
            },
            None => None,
        }
    }

    /// The command that attaches.
    pub fn attach_command(&self) -> (command: Command)
        ensures
            command == (if self.attach_under_reset {
                Command::AttachUnderReset
            } else {
                Command::Attach
            }),
    {
        if self.attach_under_reset {
            Command::AttachUnderReset
        } else {
            Command::Attach
        }
    }

    /// Notes that the target is attached, or no longer is.
    pub fn note_attached(&mut self, attached: bool)
        ensures
            *final(self) == (SerialDapProbe { attached, ..*old(self) }),
    {
        self.attached = attached;
    }
}

/// The number that selects an engine.
pub fn engine_selector(engine: Engine) -> (selector: u8)
    ensures
        selector == (match engine {
            Engine::Hardware => 0u8,
            Engine::BitBang => 1u8,
        }),
{
    match engine {
        Engine::Hardware => 0,
        Engine::BitBang => 1,
    }
}

/// Is a pin set in a word of pins?
pub open spec fn pin_set(pins: u32, weight: u32) -> bool {
    pins / weight % 2 == 1
}

/// The command that a request for the pins makes, if any.
///
/// nRESET is the only line worth driving this way: SWCLK and SWDIO belong to
/// the wire engine, and letting a sequence poke them individually would fight
/// it. A debugger's connect-under-reset only needs nRESET.
pub fn pins_command(pin_out: u32, pin_select: u32) -> (command: Option<Command>)
    ensures
        command == (if !pin_set(pin_select, PIN_NRESET) {
            None
        } else if pin_set(pin_out, PIN_NRESET) {
            Some(Command::ResetRelease)
        } else {
            Some(Command::ResetAssert)
        }),
{
    if pin_select / PIN_NRESET % 2 != 1 {
        None
    } else if pin_out / PIN_NRESET % 2 == 1 {
        Some(Command::ResetRelease)
    } else {
        Some(Command::ResetAssert)
    }
}

/// The pins as they are afterwards: SWCLK and SWDIO as requested, and nRESET
/// as it reads, so that its state is measured rather than assumed.
pub fn pins_after(pin_out: u32, state: &[u8]) -> (pins: u32)
    ensures
        pins == pin_out % 4 + (if state@.len() > 0 && state@[0] != 0 {
            PIN_NRESET as int
        } else {
            0
        }),
{
    let reset: u32 = if state.len() > 0 && state[0] != 0 {
        PIN_NRESET
    } else {
        0
    };
    pin_out % 4 + reset
}

/// The transfers of a block, as many words at a time as the bridge carries.
#[derive(Clone, Copy, Debug, Eq, PartialEq, Structural)]
pub struct BlockTransfer {
    pub access_port: bool,
    pub register: u8,
    pub block_words: usize,
    pub done: usize,
    pub total: usize,
}

/// Is no more done than there is to do, and can a bridge carry its blocks?
pub open spec fn well_formed(transfer: BlockTransfer) -> bool {
    transfer.done <= transfer.total && transfer.block_words <= MAX_BLOCK_WORDS
}

/// How many words the next command carries.
pub open spec fn next_words(transfer: BlockTransfer) -> int {
    let left = transfer.total - transfer.done;
    let most = if transfer.block_words <= 1 {
        1
    } else {
        transfer.block_words as int
    };
    if left < most {
        left
    } else {
        most
    }
}

impl BlockTransfer {
    pub fn new(probe: &SerialDapProbe, access_port: bool, register: u8, total: usize) -> (transfer:
        BlockTransfer)
        requires
            probe.block_words <= MAX_BLOCK_WORDS,
        ensures
            transfer == (BlockTransfer {
                access_port,
                register,
                block_words: probe.block_words,
                done: 0,
                total,
            }),
            well_formed(transfer),
    {
        BlockTransfer { access_port, register, block_words: probe.block_words, done: 0, total }
    }

    fn words(&self) -> (count: usize)
        requires
            well_formed(*self),
        ensures
            count == next_words(*self),
    {
        let left: usize = self.total - self.done;
        let most: usize = if self.block_words <= 1 {
            1
        } else {
            self.block_words
        };
        if left < most {
            left
        } else {
            most
        }
    }

    /// The next read to ask for, `None` once everything was read.
    pub fn next_read(&self) -> (asked: Option<(Command, Vec<u8>)>)
        requires
            well_formed(*self),
        ensures
            if self.done == self.total {
                asked is None
            } else if self.block_words <= 1 {
                asked matches Some((command, payload)) && command == Command::ReadRegister
                    && payload@ == read_payload(self.access_port, self.register)
            } else {
                asked matches Some((command, payload)) && command == Command::ReadRegisterBlock
                    && payload@ == block_read_payload(
                    self.access_port,
                    self.register,
                    next_words(*self) as nat,
                )
            },
    {
        if self.done == self.total {
            return None;
        }
        let mut payload: Vec<u8> = encode_read(self.access_port, self.register);
        if self.block_words <= 1 {
            return Some((Command::ReadRegister, payload));
        }
        bytes::push_le16(&mut payload, self.words() as u16);
        Some((Command::ReadRegisterBlock, payload))
    }

    /// Takes the reply to the read that was asked for. `false` for a reply that
    /// does not carry as many words as were asked for.
    pub fn take(&mut self, reply: &[u8], values: &mut [u32]) -> (taken: bool)
        requires
            well_formed(*old(self)),
            old(values)@.len() == old(self).total,
        ensures
            well_formed(*final(self)),
            final(values)@.len() == old(values)@.len(),
            ({
                let count = next_words(*old(self));
                if reply@.len() == 4 * count {
                    &&& taken
                    &&& *final(self) == (BlockTransfer {
                        done: (old(self).done + count) as usize,
                        ..*old(self)
                    })
                    &&& final(values)@ == old(values)@.take(old(self).done as int)
                        + bytes::read_words(reply@) + old(values)@.skip(old(self).done + count)
                } else {
                    !taken && *final(self) == *old(self) && final(values)@ == old(values)@
                }
            }),
    {
        let count: usize = self.words();
        if reply.len() % 4 != 0 || reply.len() / 4 != count {
            return false;
        }
        let words: Vec<u32> = bytes::get_words(reply);
        let mut at: usize = 0;
        while at < count
            invariant
                at <= count,
                count == next_words(*self),
                words@.len() == count,
                *self == *old(self),
                well_formed(*self),
                values@.len() == self.total,
                old(values)@.len() == self.total,
                forall|i: int| 0 <= i < self.done ==> values@[i] == old(values)@[i],
                forall|i: int| 0 <= i < at ==> values@[self.done + i] == words@[i],
                forall|i: int|
                    self.done + at <= i < values@.len() ==> values@[i] == old(values)@[i],
            decreases count - at,
        {
            let word: u32 = words[at];
            values[self.done + at] = word;
            at += 1;
        }
        assert(values@ =~= old(values)@.take(self.done as int) + words@ + old(values)@.skip(
            self.done + count,
        )) by {
            assert forall|i: int| self.done <= i < self.done + count implies values@[i]
                == words@[i - self.done] by {
                assert(values@[self.done + (i - self.done)] == words@[i - self.done]);
            }
        }
        self.done = self.done + count;
        true
    }

    /// The next write to ask for, `None` once everything was asked for; each is
    /// taken to be made.
    pub fn next_write(&mut self, values: &[u32]) -> (asked: Option<(Command, Vec<u8>)>)
        requires
            well_formed(*old(self)),
            values@.len() == old(self).total,
        ensures
            well_formed(*final(self)),
            ({
                let from = old(self).done as int;
                let count = next_words(*old(self));
                let words = values@.subrange(from, from + count);
                if from == old(self).total {
                    asked is None && *final(self) == *old(self)
                } else {
                    &&& *final(self) == (BlockTransfer {
                        done: (from + count) as usize,
                        ..*old(self)
                    })
                    &&& if old(self).block_words <= 1 {
                        asked matches Some((command, payload)) && command
                            == Command::WriteRegister && payload@ == write_payload(
                            old(self).access_port,
                            old(self).register,
                            words[0],
                        )
                    } else {
                        asked matches Some((command, payload)) && command
                            == Command::WriteRegisterBlock && payload@ == block_write_payload(
                            old(self).access_port,
                            old(self).register,
                            words,
                        )
                    }
                }
            }),
    {
        if self.done == self.total {
            return None;
        }
        let count: usize = self.words();
        let from: usize = self.done;
        self.done = from + count;
        if self.block_words <= 1 {
            return Some(
                (
                    Command::WriteRegister,
                    encode_write(self.access_port, self.register, values[from]),
                ),
            );
        }
        let chunk: &[u32] = slice_subrange(values, from, from + count);
        let mut payload: Vec<u8> = encode_read(self.access_port, self.register);
        bytes::push_le16(&mut payload, count as u16);
        bytes::push_words(&mut payload, chunk);
        assert(payload@ =~= block_write_payload(self.access_port, self.register, chunk@));
        Some((Command::WriteRegisterBlock, payload))
    }
}

/// Every word of a block is carried exactly once, in order: the next words
/// start where the last ended, at least one is carried while any is left, and
/// none is carried past the end.
pub proof fn law_a_block_is_carried_to_its_end(transfer: BlockTransfer)
    requires
        well_formed(transfer),
    ensures
        0 <= next_words(transfer) <= transfer.total - transfer.done,
        transfer.done < transfer.total ==> next_words(transfer) >= 1,
        next_words(transfer) <= MAX_BLOCK_WORDS,
{
}

/// What a host asks for is what the bridge is asked to do: a block's payload is
/// taken apart as it was put together.
pub proof fn law_a_block_read_is_understood(access_port: bool, register: u8, count: nat)
    requires
        0 < count <= MAX_BLOCK_WORDS,
    ensures
        crate::hub::request::plain_request(
            Command::ReadRegisterBlock,
            block_read_payload(access_port, register, count),
        ) == Ok::<crate::hub::Request, crate::swd::Error>(
            crate::hub::Request::ReadRegisterBlock { access_port, register, count: count as usize },
        ),
{
    let payload = block_read_payload(access_port, register, count);
    assert(payload.skip(2) =~= bytes::le16(count as u16));
    bytes::law_read16_undoes_le16(count as u16);
}

/// A register write's payload is taken apart as it was put together.
pub proof fn law_a_register_write_is_understood(access_port: bool, register: u8, value: u32)
    ensures
        crate::hub::request::plain_request(
            Command::WriteRegister,
            write_payload(access_port, register, value),
        ) == Ok::<crate::hub::Request, crate::swd::Error>(
            crate::hub::Request::WriteRegister { access_port, register, value },
        ),
{
    let payload = write_payload(access_port, register, value);
    assert(payload.skip(2) =~= bytes::le32(value));
    bytes::law_read32_undoes_le32(value);
}

/// A block of writes is taken apart as it was put together: the bridge writes
/// the words that the host meant, in order.
pub proof fn law_a_block_write_is_understood(
    access_port: bool,
    register: u8,
    values: Seq<u32>,
    request: Result<crate::hub::Request, crate::swd::Error>,
)
    requires
        0 < values.len() <= MAX_BLOCK_WORDS,
        crate::hub::request::requested(
            Command::WriteRegisterBlock,
            block_write_payload(access_port, register, values),
            request,
        ),
    ensures
        request matches Ok(
            crate::hub::Request::WriteRegisterBlock { access_port: a, register: r, words },
        ) && a == access_port && r == register && words@ == values,
{
    let payload = block_write_payload(access_port, register, values);
    bytes::lemma_words_le_len(values);
    bytes::law_read_words_undoes_words_le(values);
    bytes::law_read16_undoes_le16(values.len() as u16);
    assert(payload.skip(4) =~= bytes::words_le(values));
    assert(bytes::read16(payload.skip(2)) == bytes::read16(bytes::le16(values.len() as u16))) by {
        assert(payload.skip(2)[0] == bytes::le16(values.len() as u16)[0]);
        assert(payload.skip(2)[1] == bytes::le16(values.len() as u16)[1]);
    }
}

/// A bulk read of memory is taken apart as it was put together.
pub proof fn law_a_memory_read_is_understood(address: u32, count: nat)
    requires
        0 < count <= MAX_BLOCK_WORDS,
    ensures
        crate::hub::request::plain_request(Command::MemoryRead, memory_payload(address, count))
            == Ok::<crate::hub::Request, crate::swd::Error>(
            crate::hub::Request::MemoryRead { address, count: count as usize },
        ),
{
    let payload = memory_payload(address, count);
    assert(payload.skip(4) =~= bytes::le16(count as u16));
    bytes::law_read16_undoes_le16(count as u16);
    bytes::law_read32_undoes_le32(address);
    assert(bytes::read32(payload) == bytes::read32(bytes::le32(address)));
}

/// A sequence of bits is taken apart as it was put together.
pub proof fn law_a_sequence_is_understood(bit_len: u8, bits: u64)
    ensures
        crate::hub::request::plain_request(
            Command::SwjSequence,
            seq![bit_len] + bytes::le64(bits),
        ) == Ok::<crate::hub::Request, crate::swd::Error>(
            crate::hub::Request::SwjSequence { bit_len, bits },
        ),
{
    let payload = seq![bit_len] + bytes::le64(bits);
    assert(payload.skip(1) =~= bytes::le64(bits));
    bytes::law_read64_undoes_le64(bits);
}

/// A register read's payload is taken apart as it was put together.
pub proof fn law_a_register_read_is_understood(access_port: bool, register: u8)
    ensures
        crate::hub::request::plain_request(
            Command::ReadRegister,
            read_payload(access_port, register),
        ) == Ok::<crate::hub::Request, crate::swd::Error>(
            crate::hub::Request::ReadRegister { access_port, register },
        ),
{
}

/// A block is carried in as few commands as the bridge allows: each carries as
/// many words as a block holds, or all that are left; a bridge that has no
/// blocks carries one at a time.
pub proof fn law_a_block_is_carried_in_full_commands(transfer: BlockTransfer)
    requires
        well_formed(transfer),
        transfer.done < transfer.total,
    ensures
        ({
            let count = next_words(transfer);
            &&& count == transfer.total - transfer.done || count == transfer.block_words || (
            transfer.block_words == 0 && count == 1)
            &&& transfer.block_words > 1 ==> count <= transfer.block_words
            &&& transfer.block_words <= 1 ==> count == 1
        }),
{
}

/// A speed in kilohertz is asked for in hertz, held between 100 kHz and 20 MHz.
pub proof fn law_a_speed_is_asked_for_in_hertz(speed_khz: u32)
    ensures
        100 <= speed_khz <= 20_000 ==> clock_for(speed_khz) == speed_khz * 1000,
        speed_khz < 100 ==> clock_for(speed_khz) == 100_000,
        speed_khz > 20_000 ==> clock_for(speed_khz) == 20_000_000,
{
}

/// nRESET is bit 7 of a word of pins.
pub proof fn law_reset_is_bit_seven(pins: u32)
    ensures
        pin_set(pins, PIN_NRESET) == (pins & 0x80 != 0),
        PIN_NRESET == 0x80,
{
    assert((pins / 0x80 % 2 == 1) == (pins & 0x80 != 0)) by (bit_vector);
}

} // verus!
