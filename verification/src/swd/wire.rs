//! One request on the wire: the packet, the acknowledgement and the word.

use crate::bits;
use super::io;
use super::io::{Framing, PadOp, SwdIo};
use vstd::arithmetic::power2::*;
use vstd::prelude::*;

verus! {

pub const TRANSFER_OK: u8 = 1;

pub const TRANSFER_WAIT: u8 = 2;

pub const TRANSFER_FAULT: u8 = 4;

pub const TRANSFER_AP: u8 = 1;

pub const TRANSFER_READ: u8 = 2;

pub const DP_ABORT: u8 = 0x00;

pub const DP_IDCODE: u8 = 0x02;

pub const DP_CTRL_STAT_WRITE: u8 = 0x04;

pub const DP_CTRL_STAT_READ: u8 = 0x06;

pub const DP_SELECT: u8 = 0x08;

pub const DP_RDBUFF: u8 = 0x0e;

pub const AP_CSW: u8 = 0x01;

pub const AP_TAR: u8 = 0x05;

pub const AP_TAR_READ: u8 = 0x07;

pub const AP_DRW_WRITE: u8 = 0x0d;

pub const AP_DRW_READ: u8 = 0x0f;

pub const ABORT_ALL: u32 = 0x1f;

pub const POWER_REQUEST: u32 = 0x5000_0000;

pub const POWER_ACK: u32 = 0xa000_0000;

pub const CORTEX_M_WORD_CSW: u32 = 0x2300_0052;

#[derive(Clone, Copy, Debug, Eq, PartialEq, Structural)]
pub enum Error {
    InvalidDpId,
    PowerTimeout,
    WaitTimeout,
    Fault,
    Protocol(u8),
    Parity,
    Unaligned,
    LineHeldLow,
}

/// Does a request ask for a word rather than bring one?
pub open spec fn is_read(request: u8) -> bool {
    request / 2 % 2 == 1
}

/// A host packet request: start, the four request bits, their parity, stop
/// and park, in transmission order.
pub open spec fn request_packet(request: u8) -> nat {
    let payload = (request % 16) as nat;
    1 + 2 * payload + (if bits::odd_parity(payload) {
        32nat
    } else {
        0
    }) + 128
}

/// Packs a host packet request: start, the four request bits, parity, stop,
/// and park, in transmission order.
pub fn packet_request(request: u8) -> (packet: u8)
    ensures
        packet == request_packet(request),
{
    let payload: u8 = request % 16;
    let odd: bool = bits::parity(payload as u32);
    1 + 2 * payload + (if odd { 32 } else { 0 }) + 128
}

/// One request on the wire and what came of it.
pub struct Exchange {
    pub request: u8,
    /// The word a write brings.
    pub data: u32,
    /// The three acknowledgement bits.
    pub ack: u8,
    /// The word that an acknowledged read got, if its parity held.
    pub received: Option<u32>,
}

/// The pad operations of a request, up to where the target answers.
pub open spec fn request_ops(request: u8, turn: Seq<bool>) -> Seq<PadOp> {
    seq![PadOp::Output] + io::drive_bits(bits::bits_of(request_packet(request), 8)) + seq![PadOp::Input]
        + io::sample_bits(turn)
}

/// The pad operations of a whole read: nothing but the request is driven, and
/// the acknowledgement, the word and its parity are the bits that follow the
/// turnaround. The turnaround after them is made whatever the acknowledgement.
pub open spec fn read_trace(
    framing: Framing,
    ops: Seq<PadOp>,
    x: Exchange,
    turn: Seq<bool>,
    reply: Seq<bool>,
    end: Seq<PadOp>,
) -> bool {
    &&& ops == request_ops(x.request, turn) + io::sample_bits(reply) + end
    &&& framing.leads(turn)
    &&& framing.replies(x.ack == TRANSFER_OK, reply.len())
    &&& framing.rests(end)
    &&& reply.len() >= 3
    &&& x.ack == bits::value_of(reply.take(3))
    &&& x.ack != TRANSFER_OK ==> x.received is None
    &&& x.ack == TRANSFER_OK ==> {
        let word = bits::value_of(reply.subrange(3, 35));
        &&& reply.len() >= 36
        &&& x.received == (if bits::odd_parity(word) == reply[35] {
            Some(word as u32)
        } else {
            None
        })
    }
}

/// The pad operations of a whole write: the data field is driven after an
/// acknowledgement, and nothing is after a refusal. The bus is handed back
/// either way.
pub open spec fn write_trace(
    framing: Framing,
    ops: Seq<PadOp>,
    x: Exchange,
    turn: Seq<bool>,
    back: Seq<bool>,
    padding: nat,
    end: Seq<PadOp>,
) -> bool {
    let asked = request_ops(x.request, turn) + io::sample_bits(bits::bits_of(x.ack as nat, 3))
        + io::sample_bits(back);
    &&& x.ack < 8
    &&& framing.leads(turn)
    &&& framing.trails(back)
    &&& framing.pads(padding)
    &&& framing.rests(end)
    &&& x.received is None
    &&& x.ack != TRANSFER_OK ==> ops == asked + end
    &&& x.ack == TRANSFER_OK ==> ops == asked + seq![PadOp::Output] + io::drive_bits(
        io::data_bits(x.data, bits::odd_parity(x.data as nat)) + bits::zeros(padding),
    ) + end
}

/// Are `ops` what the wire protocol makes of an exchange?
pub open spec fn exchanged(framing: Framing, ops: Seq<PadOp>, x: Exchange) -> bool {
    if is_read(x.request) {
        exists|turn: Seq<bool>, reply: Seq<bool>, end: Seq<PadOp>|
            read_trace(framing, ops, x, turn, reply, end)
    } else {
        exists|turn: Seq<bool>, back: Seq<bool>, padding: nat, end: Seq<PadOp>|
            write_trace(framing, ops, x, turn, back, padding, end)
    }
}

/// The exchange that a transfer's result tells of.
pub open spec fn told_by(
    request: u8,
    data: u32,
    result: Result<u8, Error>,
    got: u32,
) -> Exchange {
    match result {
        Ok(ack) => Exchange {
            request,
            data,
            ack,
            received: if is_read(request) && ack == TRANSFER_OK {
                Some(got)
            } else {
                None
            },
        },
        Err(_) => Exchange { request, data, ack: TRANSFER_OK, received: None },
    }
}

/// Parts of a sampled reply, by their place in its number.
pub(crate) proof fn lemma_reply_parts(framing: Framing, reply: Seq<bool>, number: u64)
    requires
        io::reads_as(framing, reply, TRANSFER_OK, number),
        number % 8 == TRANSFER_OK,
    ensures
        reply.len() >= 36,
        number / 8 % 0x1_0000_0000 == bits::value_of(reply.subrange(3, 35)),
        (number / 0x8_0000_0000 % 2 == 1) == reply[35],
{
    let field = reply.subrange(3, 36);
    let word = reply.subrange(3, 35);
    assert(field =~= word.push(reply[35]));
    bits::lemma_value_push(word, reply[35]);
    bits::lemma_value_bound(word);
    lemma2_to64();
    lemma2_to64_rest();
    let data = number / 8;
    assert(data as nat % 0x2_0000_0000 == bits::value_of(field));
    assert(data % 0x1_0000_0000 == data % 0x2_0000_0000 % 0x1_0000_0000);
    assert(number / 0x8_0000_0000 == data / 0x1_0000_0000);
    assert(data / 0x1_0000_0000 % 2 == data % 0x2_0000_0000 / 0x1_0000_0000);
}

/// Makes one request and, as the acknowledgement has it, moves one word.
///
/// `data` is what a write brings, and becomes what a read gets. The result is
/// the acknowledgement, whatever it is, or the parity error of a word that was
/// acknowledged and does not hold.
pub fn wire_transfer<I: SwdIo>(io: &mut I, request: u8, data: &mut u32) -> (result: Result<
    u8,
    Error,
>)
    ensures
        io::grown(old(io).log(), final(io).log()),
        exchanged(
            I::framing(),
            final(io).log().skip(old(io).log().len() as int),
            told_by(request, *old(data), result, *final(data)),
        ),
        result matches Ok(ack) ==> ack < 8,
        result matches Err(error) ==> error == Error::Parity && is_read(request),
        !is_read(request) || result != Ok::<u8, Error>(TRANSFER_OK) ==> *final(data) == *old(data),
{
    let ghost start = io.log();
    ask(io, request);
    let ghost turn = choose|turn: Seq<bool>| #[trigger]
        asked(start, io.log(), request, turn) && I::framing().leads(turn);
    let ghost middle = io.log();
    let result: Result<u8, Error> = if request / 2 % 2 == 1 {
        take_word(io, request, data)
    } else {
        bring_word(io, request, *data)
    };
    proof {
        let ops = io.log().skip(start.len() as int);
        let rest = io.log().skip(middle.len() as int);
        assert(io.log() =~= start + ops);
        assert(ops =~= request_ops(request, turn) + rest);
        let x = told_by(request, *old(data), result, *data);
        if is_read(request) {
            let (reply, end) = choose|reply: Seq<bool>, end: Seq<PadOp>|
                read_phase(I::framing(), rest, x, reply, end);
            assert(ops =~= request_ops(request, turn) + io::sample_bits(reply) + end);
            assert(read_trace(I::framing(), ops, x, turn, reply, end));
        } else {
            let (back, padding, end) = choose|back: Seq<bool>, padding: nat, end: Seq<PadOp>|
                write_phase(I::framing(), rest, x, back, padding, end);
            if x.ack == TRANSFER_OK {
                assert(ops =~= request_ops(request, turn) + io::sample_bits(
                    bits::bits_of(x.ack as nat, 3),
                ) + io::sample_bits(back) + seq![PadOp::Output] + io::drive_bits(
                    io::data_bits(x.data, bits::odd_parity(x.data as nat)) + bits::zeros(padding),
                ) + end);
            } else {
                assert(ops =~= request_ops(request, turn) + io::sample_bits(
                    bits::bits_of(x.ack as nat, 3),
                ) + io::sample_bits(back) + end);
            }
            assert(write_trace(I::framing(), ops, x, turn, back, padding, end));
        }
    }
    result
}

/// Was a request made, and nothing else?
pub open spec fn asked(
    before: Seq<PadOp>,
    after: Seq<PadOp>,
    request: u8,
    turn: Seq<bool>,
) -> bool {
    after == before + request_ops(request, turn)
}

/// Puts a request on the wire and turns the bus round.
pub(crate) fn ask<I: SwdIo>(io: &mut I, request: u8)
    ensures
        exists|turn: Seq<bool>| #[trigger]
            asked(old(io).log(), final(io).log(), request, turn) && I::framing().leads(turn),
{
    let ghost start = io.log();
    io.set_swdio_output();
    io.write_bits(packet_request(request) as u64, 8);
    io.set_swdio_input();
    let ghost before = io.log();
    io.leading_turnaround();
    proof {
        let turn = choose|turn: Seq<bool>| #[trigger]
            io::sampled(before, io.log(), turn) && I::framing().leads(turn);
        assert(io.log() =~= start + request_ops(request, turn));
        assert(asked(start, io.log(), request, turn));
    }
}

/// What follows the request of a read.
pub open spec fn read_phase(
    framing: Framing,
    ops: Seq<PadOp>,
    x: Exchange,
    reply: Seq<bool>,
    end: Seq<PadOp>,
) -> bool {
    &&& ops == io::sample_bits(reply) + end
    &&& framing.replies(x.ack == TRANSFER_OK, reply.len())
    &&& framing.rests(end)
    &&& reply.len() >= 3
    &&& x.ack == bits::value_of(reply.take(3))
    &&& x.ack != TRANSFER_OK ==> x.received is None
    &&& x.ack == TRANSFER_OK ==> {
        let word = bits::value_of(reply.subrange(3, 35));
        &&& reply.len() >= 36
        &&& x.received == (if bits::odd_parity(word) == reply[35] {
            Some(word as u32)
        } else {
            None
        })
    }
}

/// What follows the request of a write.
pub open spec fn write_phase(
    framing: Framing,
    ops: Seq<PadOp>,
    x: Exchange,
    back: Seq<bool>,
    padding: nat,
    end: Seq<PadOp>,
) -> bool {
    let asked = io::sample_bits(bits::bits_of(x.ack as nat, 3)) + io::sample_bits(back);
    &&& x.ack < 8
    &&& framing.trails(back)
    &&& framing.pads(padding)
    &&& framing.rests(end)
    &&& x.received is None
    &&& x.ack != TRANSFER_OK ==> ops == asked + end
    &&& x.ack == TRANSFER_OK ==> ops == asked + seq![PadOp::Output] + io::drive_bits(
        io::data_bits(x.data, bits::odd_parity(x.data as nat)) + bits::zeros(padding),
    ) + end
}

/// Takes the reply to a read, and the word that it holds.
fn take_word<I: SwdIo>(io: &mut I, request: u8, data: &mut u32) -> (result: Result<u8, Error>)
    requires
        is_read(request),
    ensures
        io::grown(old(io).log(), final(io).log()),
        exists|reply: Seq<bool>, end: Seq<PadOp>|
            read_phase(
                I::framing(),
                final(io).log().skip(old(io).log().len() as int),
                told_by(request, *old(data), result, *final(data)),
                reply,
                end,
            ),
        result matches Ok(ack) ==> ack < 8,
        result matches Err(error) ==> error == Error::Parity,
        result != Ok::<u8, Error>(TRANSFER_OK) ==> *final(data) == *old(data),
{
    let ghost start = io.log();
    let ghost before_data = *data;
    let reply: u64 = io.read_reply(TRANSFER_OK);
    let ghost replied = io.log();
    let ghost bits = choose|bits: Seq<bool>|
        {
            &&& #[trigger] io::sampled(start, replied, bits)
            &&& io::reads_as(I::framing(), bits, TRANSFER_OK, reply)
        };
    io.end_transfer();
    let ghost end = choose|ops: Seq<PadOp>|
        #[trigger] I::framing().rests(ops) && io.log() == replied + ops;
    let ghost ops = io.log().skip(start.len() as int);
    assert(io.log() =~= start + ops);
    assert(ops =~= io::sample_bits(bits) + end);
    let ack: u8 = (reply % 8) as u8;
    if ack != TRANSFER_OK {
        assert(read_phase(
            I::framing(),
            ops,
            told_by(request, before_data, Ok(ack), *data),
            bits,
            end,
        ));
        return Ok(ack);
    }
    proof {
        lemma_reply_parts(I::framing(), bits, reply);
    }
    let value: u32 = (reply / 8 % 0x1_0000_0000) as u32;
    let observed: bool = reply / 0x8_0000_0000 % 2 == 1;
    if bits::parity(value) != observed {
        assert(read_phase(
            I::framing(),
            ops,
            told_by(request, before_data, Err(Error::Parity), *data),
            bits,
            end,
        ));
        return Err(Error::Parity);
    }
    *data = value;
    assert(read_phase(I::framing(), ops, told_by(request, before_data, Ok(ack), value), bits, end));
    Ok(ack)
}

/// Takes the acknowledgement of a write, and drives its word if it is granted.
fn bring_word<I: SwdIo>(io: &mut I, request: u8, data: u32) -> (result: Result<u8, Error>)
    requires
        !is_read(request),
    ensures
        io::grown(old(io).log(), final(io).log()),
        exists|back: Seq<bool>, padding: nat, end: Seq<PadOp>|
            write_phase(
                I::framing(),
                final(io).log().skip(old(io).log().len() as int),
                told_by(request, data, result, data),
                back,
                padding,
                end,
            ),
        result matches Ok(ack) && ack < 8,
{
    let ghost start = io.log();
    let ack: u8 = io.read_bits(3) as u8;
    let ghost acked = io.log();
    proof {
        lemma2_to64();
    }
    io.trailing_turnaround();
    let ghost handed = io.log();
    let ghost back = choose|turn: Seq<bool>| #[trigger]
        io::sampled(acked, handed, turn) && I::framing().trails(turn);
    let ghost x = told_by(request, data, Ok(ack), data);
    if ack != TRANSFER_OK {
        io.end_transfer();
        proof {
            let end = choose|ops: Seq<PadOp>|
                #[trigger] I::framing().rests(ops) && io.log() == handed + ops;
            let ops = io.log().skip(start.len() as int);
            assert(io.log() =~= start + ops);
            assert(ops =~= io::sample_bits(bits::bits_of(ack as nat, 3)) + io::sample_bits(back) + end);
            assert(write_phase(I::framing(), ops, x, back, 0, end));
        }
        return Ok(ack);
    }
    io.set_swdio_output();
    let ghost driving = io.log();
    let odd: bool = bits::parity(data);
    io.write_data_phase(data, odd);
    let ghost driven = io.log();
    let ghost padding = choose|padding: nat| #[trigger]
        io::data_driven(driving, driven, data, odd, padding) && I::framing().pads(padding);
    io.end_transfer();
    proof {
        let end = choose|ops: Seq<PadOp>|
            #[trigger] I::framing().rests(ops) && io.log() == driven + ops;
        let ops = io.log().skip(start.len() as int);
        assert(io.log() =~= start + ops);
        assert(ops =~= io::sample_bits(bits::bits_of(ack as nat, 3)) + io::sample_bits(back)
            + seq![PadOp::Output] + io::drive_bits(io::data_bits(data, odd) + bits::zeros(padding)) + end);
        assert(write_phase(I::framing(), ops, x, back, padding, end));
    }
    Ok(ack)
}

/// What was sensed from a plain request to where its reply begins.
pub(crate) proof fn lemma_request_senses(request: u8, turn: Seq<bool>)
    ensures
        io::sensed(request_ops(request, turn)) == turn,
{
    let driven = io::drive_bits(bits::bits_of(request_packet(request), 8));
    io::lemma_driving_senses_nothing(bits::bits_of(request_packet(request), 8));
    io::lemma_sampled_is_sensed(turn);
    io::lemma_nothing_sensed(seq![PadOp::Output]);
    io::lemma_nothing_sensed(seq![PadOp::Input]);
    io::lemma_sensed_concat(seq![PadOp::Output], driven);
    io::lemma_sensed_concat(seq![PadOp::Output] + driven, seq![PadOp::Input]);
    io::lemma_sensed_concat(
        seq![PadOp::Output] + driven + seq![PadOp::Input],
        io::sample_bits(turn),
    );
    assert(io::sensed(request_ops(request, turn)) =~= turn);
}

/// The acknowledgement among the levels that a plain transfer senses: the three
/// after the turnaround.
pub open spec fn heard_ack(levels: Seq<bool>) -> nat {
    bits::value_of(levels.subrange(1, 4))
}

/// The word among the levels that a plain read senses: the thirty-two after the
/// acknowledgement, if the next is their parity.
pub open spec fn heard_word(levels: Seq<bool>) -> Option<u32> {
    let word = bits::value_of(levels.subrange(4, 36));
    if bits::odd_parity(word) == levels[36] {
        Some(word as u32)
    } else {
        None
    }
}

/// What a transfer on a backend of plain framing comes to is settled by the
/// levels that it senses: one for the turnaround, three for the
/// acknowledgement, the word and its parity where a read is granted, and one to
/// hand the bus back, whatever the acknowledgement.
pub proof fn law_a_plain_transfer_is_what_was_sensed(ops: Seq<PadOp>, x: Exchange)
    requires
        exchanged(Framing::plain(), ops, x),
    ensures
        ({
            let levels = io::sensed(ops);
            let granted = is_read(x.request) && x.ack == TRANSFER_OK;
            &&& levels.len() == if granted {
                38int
            } else {
                5
            }
            &&& x.ack == heard_ack(levels)
            &&& x.received == if granted {
                heard_word(levels)
            } else {
                None
            }
        }),
{
    let plain = Framing::plain();
    let rest = seq![PadOp::Output, PadOp::Data(true)];
    io::lemma_nothing_sensed(rest);
    if is_read(x.request) {
        let (turn, reply, end) = choose|turn: Seq<bool>, reply: Seq<bool>, end: Seq<PadOp>|
            read_trace(plain, ops, x, turn, reply, end);
        lemma_request_senses(x.request, turn);
        io::lemma_sampled_is_sensed(reply);
        io::lemma_sensed_concat(request_ops(x.request, turn), io::sample_bits(reply));
        io::lemma_sensed_concat(request_ops(x.request, turn) + io::sample_bits(reply), end);
        let levels = io::sensed(ops);
        assert(levels =~= turn + reply);
        assert(levels.subrange(1, 4) =~= reply.take(3));
        if x.ack == TRANSFER_OK {
            assert(levels.subrange(4, 36) =~= reply.subrange(3, 35));
        }
    } else {
        let (turn, back, padding, end) = choose|
            turn: Seq<bool>,
            back: Seq<bool>,
            padding: nat,
            end: Seq<PadOp>,
        |
            write_trace(plain, ops, x, turn, back, padding, end);
        let ack = bits::bits_of(x.ack as nat, 3);
        let one = request_ops(x.request, turn) + io::sample_bits(ack);
        let asked = one + io::sample_bits(back);
        lemma2_to64();
        bits::lemma_bits_len(x.ack as nat, 3);
        bits::law_value_of_undoes_bits_of(x.ack as nat, 3);
        lemma_request_senses(x.request, turn);
        io::lemma_sampled_is_sensed(ack);
        io::lemma_sampled_is_sensed(back);
        io::lemma_sensed_concat(request_ops(x.request, turn), io::sample_bits(ack));
        io::lemma_sensed_concat(one, io::sample_bits(back));
        let levels = io::sensed(ops);
        if x.ack == TRANSFER_OK {
            let field = io::data_bits(x.data, bits::odd_parity(x.data as nat)) + bits::zeros(
                padding,
            );
            io::lemma_nothing_sensed(seq![PadOp::Output]);
            io::lemma_driving_senses_nothing(field);
            io::lemma_sensed_concat(asked, seq![PadOp::Output]);
            io::lemma_sensed_concat(asked + seq![PadOp::Output], io::drive_bits(field));
            io::lemma_sensed_concat(
                asked + seq![PadOp::Output] + io::drive_bits(field),
                end,
            );
        } else {
            io::lemma_sensed_concat(asked, end);
        }
        assert(levels =~= turn + ack + back);
        assert(levels.subrange(1, 4) =~= ack);
    }
}

/// Clocks out one bit.
pub fn write_bit<I: SwdIo>(io: &mut I, high: bool)
    ensures
        final(io).log() == old(io).log() + io::drive_bit(high),
{
    io.drive_bit(high);
}

/// Clocks in one bit.
pub fn read_bit<I: SwdIo>(io: &mut I) -> (high: bool)
    ensures
        final(io).log() == old(io).log() + io::sample_bit(high),
{
    io.sample_bit()
}

} // verus!
