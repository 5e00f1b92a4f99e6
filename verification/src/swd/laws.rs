//! What a target makes of all this: the bits that it hears, and the registers
//! that it is asked for.

use crate::bits;
use super::bring_up;
use super::io;
use super::io::{Framing, PadOp};
use super::link;
use super::link::{LinkView, Step, Transfer, Try};
use super::registers;
use super::wire;
use super::wire::{Error, Exchange};
use vstd::arithmetic::power2::*;
use vstd::prelude::*;

verus! {

/// The two lines as a target sees them, and the bits that it took off them.
pub struct Heard {
    pub data: bool,
    pub clock: bool,
    /// Are the lines driven by the host?
    pub driven: bool,
    pub bits: Seq<bool>,
}

/// A target takes the level of SWDIO at every rising edge of SWCLK while the
/// host drives.
pub open spec fn hear(heard: Heard, op: PadOp) -> Heard {
    match op {
        PadOp::Output => Heard { driven: true, ..heard },
        PadOp::Input | PadOp::Release => Heard { driven: false, ..heard },
        PadOp::Data(high) => Heard { data: high, ..heard },
        PadOp::Clock(high) => Heard {
            clock: high,
            bits: if high && !heard.clock && heard.driven {
                heard.bits.push(heard.data)
            } else {
                heard.bits
            },
            ..heard
        },
        _ => heard,
    }
}

/// The lines after `ops`.
pub open spec fn listen(heard: Heard, ops: Seq<PadOp>) -> Heard
    decreases ops.len(),
{
    if ops.len() == 0 {
        heard
    } else {
        hear(listen(heard, ops.drop_last()), ops.last())
    }
}

/// The bits that a target takes off lines on which `ops` are made, the host not
/// driving at first.
pub open spec fn bits_heard(ops: Seq<PadOp>) -> Seq<bool> {
    listen(Heard { data: true, clock: true, driven: false, bits: Seq::empty() }, ops).bits
}

proof fn lemma_listen_on(heard: Heard, a: Seq<PadOp>, b: Seq<PadOp>)
    ensures
        listen(heard, a + b) == listen(listen(heard, a), b),
    decreases b.len(),
{
    if b.len() == 0 {
        assert(a + b =~= a);
    } else {
        lemma_listen_on(heard, a, b.drop_last());
        assert((a + b).drop_last() =~= a + b.drop_last());
    }
}

proof fn lemma_listen_one(heard: Heard, op: PadOp)
    ensures
        listen(heard, seq![op]) == hear(heard, op),
{
    assert(seq![op].drop_last() =~= Seq::empty());
    assert(listen(heard, seq![op].drop_last()) == heard);
}

/// A bit that the host drives is heard.
proof fn lemma_drive_bit_heard(heard: Heard, bit: bool)
    requires
        heard.driven,
    ensures
        ({
            let after = listen(heard, io::drive_bit(bit));
            after.driven && after.bits == heard.bits.push(bit)
        }),
{
    let ops = io::drive_bit(bit);
    reveal_with_fuel(listen, 6);
    assert(ops.len() == 5);
    assert(ops.drop_last().len() == 4);
    assert(ops.drop_last().last() == ops[3]);
    assert(ops.drop_last().drop_last().last() == ops[2]);
    assert(ops.drop_last().drop_last().drop_last().last() == ops[1]);
    assert(ops.drop_last().drop_last().drop_last().drop_last().last() == ops[0]);
    assert(ops.drop_last().drop_last().drop_last().drop_last().drop_last().len() == 0);
}

proof fn lemma_drive_bits_heard(heard: Heard, driven: Seq<bool>)
    requires
        heard.driven,
    ensures
        ({
            let after = listen(heard, io::drive_bits(driven));
            after.driven && after.bits == heard.bits + driven
        }),
    decreases driven.len(),
{
    if driven.len() == 0 {
        assert(heard.bits + driven =~= heard.bits);
    } else {
        let earlier = io::drive_bits(driven.drop_last());
        lemma_drive_bits_heard(heard, driven.drop_last());
        lemma_listen_on(heard, earlier, io::drive_bit(driven.last()));
        lemma_drive_bit_heard(listen(heard, earlier), driven.last());
        assert((heard.bits + driven.drop_last()).push(driven.last()) =~= heard.bits + driven);
    }
}

/// Operations among which none drives are not heard by a target that the host
/// left the lines to.
proof fn lemma_listening_is_not_heard(heard: Heard, ops: Seq<PadOp>)
    requires
        !heard.driven,
        forall|i: int| 0 <= i < ops.len() ==> !(#[trigger] ops[i] is Output),
    ensures
        !listen(heard, ops).driven,
        listen(heard, ops).bits == heard.bits,
    decreases ops.len(),
{
    if ops.len() > 0 {
        let earlier = ops.drop_last();
        assert forall|i: int| 0 <= i < earlier.len() implies !(#[trigger] earlier[i] is Output) by {
            assert(earlier[i] == ops[i]);
        }
        lemma_listening_is_not_heard(heard, earlier);
        assert(!(ops[ops.len() - 1] is Output));
    }
}

proof fn lemma_sampling_drives_nothing(sampled: Seq<bool>)
    ensures
        forall|i: int|
            0 <= i < io::sample_bits(sampled).len() ==> !(#[trigger] io::sample_bits(
                sampled,
            )[i] is Output),
    decreases sampled.len(),
{
    if sampled.len() > 0 {
        let earlier = io::sample_bits(sampled.drop_last());
        let last = io::sample_bit(sampled.last());
        lemma_sampling_drives_nothing(sampled.drop_last());
        assert forall|i: int| 0 <= i < (earlier + last).len() implies !(#[trigger] (earlier
            + last)[i] is Output) by {
            if i < earlier.len() {
                assert((earlier + last)[i] == earlier[i]);
            } else {
                assert((earlier + last)[i] == last[i - earlier.len()]);
            }
        }
    }
}

proof fn lemma_sample_bits_heard(heard: Heard, sampled: Seq<bool>)
    requires
        !heard.driven,
    ensures
        !listen(heard, io::sample_bits(sampled)).driven,
        listen(heard, io::sample_bits(sampled)).bits == heard.bits,
{
    lemma_sampling_drives_nothing(sampled);
    lemma_listening_is_not_heard(heard, io::sample_bits(sampled));
}

/// Bits clocked out in one go are heard.
proof fn lemma_clocked_out_heard(heard: Heard, out: Seq<bool>)
    ensures
        listen(heard, link::clocked_out(out).ops()).bits == heard.bits + out,
{
    let body = seq![PadOp::Output] + io::drive_bits(out);
    lemma_listen_one(heard, PadOp::Begin);
    lemma_listen_one(heard, PadOp::Output);
    lemma_listen_on(heard, seq![PadOp::Begin], body);
    lemma_listen_on(heard, seq![PadOp::Output], io::drive_bits(out));
    lemma_drive_bits_heard(hear(heard, PadOp::Output), out);
    lemma_listen_on(heard, seq![PadOp::Begin] + body, seq![PadOp::End]);
    lemma_listen_one(listen(heard, seq![PadOp::Begin] + body), PadOp::End);
}

pub(crate) proof fn lemma_steps_ops_one(step: Step)
    ensures
        link::steps_ops(seq![step]) == step.ops(),
{
    assert(seq![step].drop_last() =~= Seq::empty());
    assert(link::steps_ops(seq![step].drop_last()) =~= Seq::empty());
    assert(link::steps_ops(seq![step]) =~= step.ops());
}

/// The operations of a step come before those of the steps after it.
pub(crate) proof fn lemma_steps_ops_first(steps: Seq<Step>)
    requires
        steps.len() > 0,
    ensures
        link::steps_ops(steps) == steps[0].ops() + link::steps_ops(steps.skip(1)),
{
    assert(steps =~= seq![steps[0]] + steps.skip(1));
    link::lemma_steps_concat(seq![steps[0]], steps.skip(1));
    lemma_steps_ops_one(steps[0]);
}

/// Do `bits`, from `at` on, hold the sixteen of 0xe79e, least significant
/// first?
pub open spec fn switch_code_at(bits: Seq<bool>, at: int) -> bool {
    forall|k: nat| k < 16 ==> bits[at + k as int] == (0xe79enat / #[trigger] pow2(k) % 2 == 1)
}

/// Are all of `bits` from `from` up to `to` at one level?
pub open spec fn level_between(bits: Seq<bool>, from: int, to: int, high: bool) -> bool {
    forall|i: int| from <= i < to ==> #[trigger] bits[i] == high
}

/// Are `bits` what resets a line and switches its port to SWD: fifty-six ones,
/// 0xe79e least significant bit first, fifty-six ones again and eight zeros?
pub open spec fn resets_and_switches(bits: Seq<bool>) -> bool {
    &&& bits.len() == 136
    &&& level_between(bits, 0, 56, true)
    &&& switch_code_at(bits, 56)
    &&& level_between(bits, 72, 128, true)
    &&& level_between(bits, 128, 136, false)
}

proof fn lemma_switch_heard(heard: Heard)
    ensures
        ({
            let after = listen(heard, link::steps_ops(bring_up::switch_to_swd()));
            &&& after.bits.len() == heard.bits.len() + 136
            &&& after.bits.take(heard.bits.len() as int) == heard.bits
            &&& resets_and_switches(after.bits.skip(heard.bits.len() as int))
        }),
{
    let ones = Seq::new(56, |i: int| true);
    let code = bits::bits_of(0xe79e, 16);
    let idle = bits::zeros(8);
    let steps = bring_up::switch_to_swd();
    let (a, b, c) = (steps.skip(1), steps.skip(2), steps.skip(3));
    lemma_steps_ops_first(steps);
    lemma_steps_ops_first(a);
    lemma_steps_ops_first(b);
    assert(a.skip(1) =~= b);
    assert(b.skip(1) =~= c);
    assert(c =~= seq![steps[3]]);
    lemma_steps_ops_one(steps[3]);
    let one = listen(heard, steps[0].ops());
    let two = listen(one, steps[1].ops());
    let three = listen(two, steps[2].ops());
    lemma_clocked_out_heard(heard, ones);
    lemma_clocked_out_heard(one, code);
    lemma_clocked_out_heard(two, ones);
    lemma_clocked_out_heard(three, idle);
    lemma_listen_on(heard, steps[0].ops(), link::steps_ops(a));
    lemma_listen_on(one, steps[1].ops(), link::steps_ops(b));
    lemma_listen_on(two, steps[2].ops(), link::steps_ops(c));
    bits::lemma_bits_len(0xe79e, 16);
    let after = listen(heard, link::steps_ops(steps));
    let n = heard.bits.len() as int;
    let new = after.bits.skip(n);
    assert(after.bits =~= heard.bits + (ones + code + ones + idle));
    assert(after.bits.take(n) =~= heard.bits);
    assert(new =~= ones + code + ones + idle);
    assert forall|k: nat| k < 16 implies new[56 + k as int] == (0xe79enat / #[trigger] pow2(k) % 2
        == 1) by {
        bits::law_bits_stand_by_their_weight(0xe79e, 16, k);
        assert(new[56 + k as int] == code[k as int]);
    }
}

/// A target whose line is reset and switched hears fifty-six ones, more than
/// the fifty that reset a line, then 0xe79e least significant bit first,
/// fifty-six ones again, and eight idle zeros; and nothing else.
pub proof fn law_a_line_is_reset_and_switched(before: LinkView, after: LinkView)
    requires
        after.did(before, bring_up::switch_to_swd()),
    ensures
        resets_and_switches(bits_heard(after.pads.skip(before.pads.len() as int))),
{
    let start = Heard { data: true, clock: true, driven: false, bits: Seq::empty() };
    let ops = link::steps_ops(bring_up::switch_to_swd());
    assert(after.pads.skip(before.pads.len() as int) =~= ops);
    lemma_switch_heard(start);
    assert(listen(start, ops).bits.skip(0) =~= listen(start, ops).bits);
}

/// Are `bits` a request as the wire carries it: the start bit, whether the
/// access port is meant, whether a word is asked for, the register's two
/// address bits, a bit that makes the number of ones among these even, the stop
/// bit and the park bit?
pub open spec fn asks_with(bits: Seq<bool>, request: u8) -> bool {
    &&& bits.len() == 8
    &&& bits[0]
    &&& bits[1] == (request % 2 == 1)
    &&& bits[2] == (request / 2 % 2 == 1)
    &&& bits[3] == (request / 4 % 2 == 1)
    &&& bits[4] == (request / 8 % 2 == 1)
    &&& bits::ones(bits.subrange(1, 6)) % 2 == 0
    &&& !bits[6]
    &&& bits[7]
}

/// Do `bits` carry a word: its thirty-two bits, least significant first, a bit
/// that makes the number of ones even, and zeros?
pub open spec fn carries(bits: Seq<bool>, word: u32) -> bool {
    &&& bits.len() >= 33
    &&& forall|k: nat| k < 32 ==> bits[k as int] == (word as nat / #[trigger] pow2(k) % 2 == 1)
    &&& bits::ones(bits.take(33)) % 2 == 0
    &&& level_between(bits, 33, bits.len() as int, false)
}

proof fn lemma_request_bits(request: u8)
    ensures
        asks_with(bits::bits_of(wire::request_packet(request), 8), request),
{
    let payload = (request % 16) as nat;
    let packet = wire::request_packet(request);
    let all = bits::bits_of(packet, 8);
    let inner = bits::bits_of(payload, 4);
    lemma2_to64();
    bits::lemma_bits_len(packet, 8);
    bits::lemma_bits_len(payload, 4);
    bits::law_parity_counts_the_ones(payload, 4);
    bits::law_bits_stand_by_their_weight(packet, 8, 0);
    bits::law_bits_stand_by_their_weight(packet, 8, 1);
    bits::law_bits_stand_by_their_weight(packet, 8, 2);
    bits::law_bits_stand_by_their_weight(packet, 8, 3);
    bits::law_bits_stand_by_their_weight(packet, 8, 4);
    bits::law_bits_stand_by_their_weight(packet, 8, 5);
    bits::law_bits_stand_by_their_weight(packet, 8, 6);
    bits::law_bits_stand_by_their_weight(packet, 8, 7);
    bits::law_bits_stand_by_their_weight(payload, 4, 0);
    bits::law_bits_stand_by_their_weight(payload, 4, 1);
    bits::law_bits_stand_by_their_weight(payload, 4, 2);
    bits::law_bits_stand_by_their_weight(payload, 4, 3);
    let odd = bits::odd_parity(payload);
    assert(all.subrange(1, 6) =~= inner.push(odd));
    assert(inner.push(odd).drop_last() =~= inner);
}

proof fn lemma_word_bits(word: u32, padding: nat)
    ensures
        carries(
            io::data_bits(word, bits::odd_parity(word as nat)) + bits::zeros(padding),
            word,
        ),
{
    let odd = bits::odd_parity(word as nat);
    let inner = bits::bits_of(word as nat, 32);
    let field = io::data_bits(word, odd);
    let all = field + bits::zeros(padding);
    lemma2_to64();
    bits::lemma_bits_len(word as nat, 32);
    bits::law_parity_counts_the_ones(word as nat, 32);
    assert(all.take(33) =~= field);
    assert(field.drop_last() =~= inner);
    assert forall|k: nat| k < 32 implies all[k as int] == (word as nat / #[trigger] pow2(k) % 2
        == 1) by {
        bits::law_bits_stand_by_their_weight(word as nat, 32, k);
        assert(all[k as int] == inner[k as int]);
    }
}

proof fn lemma_request_heard(heard: Heard, request: u8, turn: Seq<bool>)
    ensures
        ({
            let after = listen(heard, wire::request_ops(request, turn));
            &&& !after.driven
            &&& after.bits == heard.bits + bits::bits_of(wire::request_packet(request), 8)
        }),
{
    let packet = bits::bits_of(wire::request_packet(request), 8);
    let driven = io::drive_bits(packet);
    let one = hear(heard, PadOp::Output);
    let two = listen(one, driven);
    let three = hear(two, PadOp::Input);
    lemma_listen_one(heard, PadOp::Output);
    lemma_listen_on(heard, seq![PadOp::Output], driven);
    lemma_drive_bits_heard(one, packet);
    lemma_listen_on(heard, seq![PadOp::Output] + driven, seq![PadOp::Input]);
    lemma_listen_one(two, PadOp::Input);
    lemma_listen_on(
        heard,
        seq![PadOp::Output] + driven + seq![PadOp::Input],
        io::sample_bits(turn),
    );
    lemma_sample_bits_heard(three, turn);
}

proof fn lemma_rest_heard(framing: Framing, heard: Heard, end: Seq<PadOp>)
    requires
        framing.rests(end),
    ensures
        listen(heard, end).bits == heard.bits,
{
    if end.len() > 0 {
        assert(end =~= seq![PadOp::Output] + seq![PadOp::Data(true)]);
        lemma_listen_on(heard, seq![PadOp::Output], seq![PadOp::Data(true)]);
        lemma_listen_one(heard, PadOp::Output);
        lemma_listen_one(hear(heard, PadOp::Output), PadOp::Data(true));
    }
}

/// What a target hears of an exchange: the request, and, of a write that it
/// acknowledged, the word; of a read, and of a write that it refused, nothing
/// but the request.
pub proof fn law_a_target_hears_the_request_and_the_word(
    framing: Framing,
    ops: Seq<PadOp>,
    x: Exchange,
    heard: Heard,
)
    requires
        wire::exchanged(framing, ops, x),
    ensures
        ({
            let n = heard.bits.len() as int;
            let after = listen(heard, ops).bits;
            &&& after.len() >= n + 8
            &&& after.take(n) == heard.bits
            &&& asks_with(after.subrange(n, n + 8), x.request)
            &&& if x.request / 2 % 2 == 0 && x.ack == 1 {
                &&& carries(after.skip(n + 8), x.data)
                &&& after.len() == n + 41 || after.len() == n + 41 + framing.padding
            } else {
                after.len() == n + 8
            }
        }),
{
    let n = heard.bits.len() as int;
    let packet = bits::bits_of(wire::request_packet(x.request), 8);
    lemma_request_bits(x.request);
    bits::lemma_bits_len(wire::request_packet(x.request), 8);
    let after = listen(heard, ops).bits;
    if wire::is_read(x.request) {
        let (turn, reply, end) = choose|turn: Seq<bool>, reply: Seq<bool>, end: Seq<PadOp>|
            wire::read_trace(framing, ops, x, turn, reply, end);
        let asked = wire::request_ops(x.request, turn);
        lemma_request_heard(heard, x.request, turn);
        lemma_listen_on(heard, asked, io::sample_bits(reply));
        lemma_sample_bits_heard(listen(heard, asked), reply);
        lemma_listen_on(heard, asked + io::sample_bits(reply), end);
        lemma_rest_heard(framing, listen(heard, asked + io::sample_bits(reply)), end);
        assert(after =~= heard.bits + packet);
    } else {
        let (turn, back, padding, end) = choose|
            turn: Seq<bool>,
            back: Seq<bool>,
            padding: nat,
            end: Seq<PadOp>,
        |
            wire::write_trace(framing, ops, x, turn, back, padding, end);
        let ack = bits::bits_of(x.ack as nat, 3);
        let one = wire::request_ops(x.request, turn);
        let two = one + io::sample_bits(ack);
        let three = two + io::sample_bits(back);
        lemma_request_heard(heard, x.request, turn);
        lemma_listen_on(heard, one, io::sample_bits(ack));
        lemma_sample_bits_heard(listen(heard, one), ack);
        lemma_listen_on(heard, two, io::sample_bits(back));
        lemma_sample_bits_heard(listen(heard, two), back);
        if x.ack == 1 {
            let field = io::data_bits(x.data, bits::odd_parity(x.data as nat)) + bits::zeros(
                padding,
            );
            lemma_word_bits(x.data, padding);
            bits::lemma_bits_len(x.data as nat, 32);
            let four = three + seq![PadOp::Output];
            let five = four + io::drive_bits(field);
            lemma_listen_on(heard, three, seq![PadOp::Output]);
            lemma_listen_one(listen(heard, three), PadOp::Output);
            lemma_listen_on(heard, four, io::drive_bits(field));
            lemma_drive_bits_heard(listen(heard, four), field);
            lemma_listen_on(heard, five, end);
            lemma_rest_heard(framing, listen(heard, five), end);
            assert(after =~= heard.bits + packet + field);
            assert(after.skip(n + 8) =~= field);
        } else {
            lemma_listen_on(heard, three, end);
            lemma_rest_heard(framing, listen(heard, three), end);
            assert(after =~= heard.bits + packet);
        }
    }
    assert(after.take(n) =~= heard.bits);
    assert(after.subrange(n, n + 8) =~= packet);
}

/// What a plain read takes for a word is what the target put on the line, bit
/// by bit, and only where the number of ones among its bits and the one after
/// them is even. The acknowledgement is the three bits before, least
/// significant first.
pub proof fn law_a_word_is_taken_as_it_came(ops: Seq<PadOp>, x: Exchange)
    requires
        wire::exchanged(Framing::plain(), ops, x),
    ensures
        ({
            let levels = io::sensed(ops);
            &&& levels.len() >= 5
            &&& x.ack == (if levels[1] {
                1int
            } else {
                0
            }) + (if levels[2] {
                2int
            } else {
                0
            }) + (if levels[3] {
                4int
            } else {
                0
            })
            &&& x.request / 2 % 2 == 1 && x.ack == 1 ==> {
                &&& levels.len() == 38
                &&& (x.received is Some <==> bits::ones(levels.subrange(4, 37)) % 2 == 0)
                &&& x.received matches Some(word) ==> forall|k: nat|
                    k < 32 ==> levels[4 + k as int] == (word as nat / #[trigger] pow2(k) % 2 == 1)
            }
            &&& x.request / 2 % 2 == 0 || x.ack != 1 ==> x.received is None
        }),
{
    wire::law_a_plain_transfer_is_what_was_sensed(ops, x);
    let levels = io::sensed(ops);
    let ack = levels.subrange(1, 4);
    reveal_with_fuel(bits::value_of, 4);
    assert(ack.skip(1).skip(1)[0] == levels[3]);
    assert(ack.skip(1)[0] == levels[2]);
    assert(ack.skip(1).skip(1).skip(1) =~= Seq::empty());
    if x.request / 2 % 2 == 1 && x.ack == 1 {
        let field = levels.subrange(4, 36);
        let word = bits::value_of(field);
        lemma2_to64();
        bits::lemma_value_bound(field);
        bits::law_bits_of_undoes_value_of(field);
        bits::law_parity_counts_the_ones(word, 32);
        let all = levels.subrange(4, 37);
        assert(all.drop_last() =~= field);
        assert(all.last() == levels[36]);
        assert forall|k: nat| k < 32 implies levels[4 + k as int] == (word / #[trigger] pow2(k) % 2
            == 1) by {
            bits::law_bits_stand_by_their_weight(word, 32, k);
            assert(field[k as int] == levels[4 + k as int]);
        }
    }
}

/// How a transfer settles. It is granted by the first acknowledgement that is
/// not WAIT, if that is OK, and brings the word that came with it. A hundred
/// and one WAITs are too many; a FAULT is followed by a write of 0x1f to the
/// debug port's register 0, which clears it; anything else is reported as it
/// came. Nothing else is ever asked of the target.
pub proof fn law_a_transfer_settles(transfer: Transfer)
    requires
        transfer.settled(),
    ensures
        ({
            let tries = transfer.tries;
            let n = tries.len() as int;
            let failed = transfer.outcome matches Err(Error::Fault);
            let asked = if failed {
                n - 1
            } else {
                n
            };
            let answer = tries[asked - 1].exchange;
            &&& asked >= 1
            &&& forall|i: int|
                0 <= i < asked ==> (#[trigger] tries[i]).exchange.request == transfer.request
                    && tries[i].exchange.data == transfer.data
            &&& forall|i: int| 0 <= i < asked - 1 ==> (#[trigger] tries[i]).exchange.ack == 2
            &&& failed ==> answer.ack == 4 && tries[n - 1].exchange.request == 0 && tries[n
                - 1].exchange.data == 0x1f
            &&& match transfer.outcome {
                Ok(word) => answer.ack == 1 && n <= 101 && (if transfer.request / 2 % 2 == 1 {
                    answer.received == Some(word)
                } else {
                    word == transfer.data
                }),
                Err(Error::WaitTimeout) => answer.ack == 2 && n == 101,
                Err(Error::Fault) => answer.ack == 4,
                Err(Error::Parity) => answer.ack == 1 && transfer.request / 2 % 2 == 1
                    && answer.received is None,
                Err(Error::Protocol(ack)) => answer.ack == ack && ack != 1 && ack != 2 && ack != 4,
                _ => false,
            }
        }),
{
    let tries = transfer.tries;
    let n = tries.len() as int;
    assert forall|i: int| 0 <= i < n && (i < n - 1 || !(transfer.outcome matches Err(
        Error::Fault,
    ))) implies (#[trigger] tries[i]).exchange.request == transfer.request
        && tries[i].exchange.data == transfer.data by {
        assert(tries[i].asks(transfer.request, transfer.data));
    }
}

/// Is a step the transfer of `data` to or from a register: of the access port
/// or the debug port, a read or a write, at one of the four addresses?
pub open spec fn on_register(
    step: Step,
    access_port: bool,
    read: bool,
    address: int,
    data: u32,
) -> bool {
    step matches Step::Transfer(transfer) && {
        &&& transfer.request < 16
        &&& (transfer.request % 2 == 1) == access_port
        &&& (transfer.request / 2 % 2 == 1) == read
        &&& transfer.request / 4 * 4 == address
        &&& transfer.data == data
    }
}

/// A register that is read is asked for by its port and its address, as often
/// as it is to be read; an access port's words come one transfer late, the last
/// with a read of the debug port's register 0xc.
pub proof fn law_a_register_read_asks_for_that_register(
    steps: Seq<Step>,
    access_port: bool,
    address: u8,
    count: nat,
)
    requires
        address == 0 || address == 4 || address == 8 || address == 12,
        registers::ran(steps, registers::block_read_program(access_port, address, count)),
    ensures
        steps.len() <= count + 1,
        forall|i: int|
            0 <= i < steps.len() && i < count ==> on_register(
                #[trigger] steps[i],
                access_port,
                true,
                address as int,
                0,
            ),
        steps.len() == count + 1 ==> access_port && on_register(
            steps[count as int],
            false,
            true,
            12,
            0,
        ),
        registers::failure(steps) is None ==> steps.len() == (if access_port && count > 0 {
            count + 1
        } else {
            count
        }),
        registers::block_read_place(access_port, 0) == (if access_port {
            1int
        } else {
            0
        }),
{
    let program = registers::block_read_program(access_port, address, count);
    assert forall|i: int| 0 <= i < steps.len() && i < count implies on_register(
        #[trigger] steps[i],
        access_port,
        true,
        address as int,
        0,
    ) by {
        assert(steps[i].moves(program[i].0, program[i].1));
    }
    if steps.len() == count + 1 {
        assert(steps[count as int].moves(program[count as int].0, program[count as int].1));
    }
}

/// A register that is written is asked for by its port and its address, once
/// for each word and with that word.
pub proof fn law_a_register_write_asks_for_that_register(
    steps: Seq<Step>,
    access_port: bool,
    address: u8,
    values: Seq<u32>,
)
    requires
        address == 0 || address == 4 || address == 8 || address == 12,
        registers::ran(steps, registers::block_write_program(access_port, address, values)),
    ensures
        steps.len() <= values.len(),
        forall|i: int|
            0 <= i < steps.len() ==> on_register(
                #[trigger] steps[i],
                access_port,
                false,
                address as int,
                values[i],
            ),
        registers::failure(steps) is None ==> steps.len() == values.len(),
{
    let program = registers::block_write_program(access_port, address, values);
    assert forall|i: int| 0 <= i < steps.len() implies on_register(
        #[trigger] steps[i],
        access_port,
        false,
        address as int,
        values[i],
    ) by {
        assert(steps[i].moves(program[i].0, program[i].1));
    }
}

proof fn lemma_listen_grows(heard: Heard, ops: Seq<PadOp>)
    ensures
        listen(heard, ops).bits.len() >= heard.bits.len(),
        listen(heard, ops).bits.take(heard.bits.len() as int) == heard.bits,
    decreases ops.len(),
{
    if ops.len() == 0 {
        assert(heard.bits.take(heard.bits.len() as int) =~= heard.bits);
    } else {
        lemma_listen_grows(heard, ops.drop_last());
        let n = heard.bits.len() as int;
        assert(listen(heard, ops).bits.take(n) =~= listen(heard, ops.drop_last()).bits.take(n));
    }
}

proof fn lemma_tries_concat(a: Seq<Try>, b: Seq<Try>)
    ensures
        link::tries_ops(a + b) == link::tries_ops(a) + link::tries_ops(b),
    decreases b.len(),
{
    if b.len() == 0 {
        assert(a + b =~= a);
        assert(link::tries_ops(a + b) =~= link::tries_ops(a) + link::tries_ops(b));
    } else {
        lemma_tries_concat(a, b.drop_last());
        assert((a + b).drop_last() =~= a + b.drop_last());
        assert(link::tries_ops(a + b) =~= link::tries_ops(a) + link::tries_ops(b));
    }
}

/// A transfer starts with its request on the wire, whatever comes of it.
pub proof fn law_a_transfer_starts_with_its_request(
    framing: Framing,
    transfer: Transfer,
    heard: Heard,
)
    requires
        transfer.valid(framing),
    ensures
        ({
            let n = heard.bits.len() as int;
            let after = listen(heard, Step::Transfer(transfer).ops()).bits;
            &&& after.len() >= n + 8
            &&& after.take(n) == heard.bits
            &&& asks_with(after.subrange(n, n + 8), transfer.request)
        }),
{
    law_a_transfer_settles(transfer);
    let first = transfer.tries[0];
    let more = transfer.tries.skip(1);
    assert(first.valid(framing));
    let ops = choose|ops: Seq<PadOp>| #[trigger]
        wire::exchanged(framing, ops, first.exchange) && first.ops == io::uninterrupted(ops);
    lemma_listen_one(heard, PadOp::Begin);
    lemma_listen_on(heard, seq![PadOp::Begin], ops);
    law_a_target_hears_the_request_and_the_word(framing, ops, first.exchange, heard);
    let one = listen(heard, seq![PadOp::Begin] + ops);
    lemma_listen_on(heard, seq![PadOp::Begin] + ops, seq![PadOp::End]);
    lemma_listen_one(one, PadOp::End);
    assert(transfer.tries =~= seq![first] + more);
    lemma_tries_concat(seq![first], more);
    assert(seq![first].drop_last() =~= Seq::empty());
    assert(link::tries_ops(seq![first].drop_last()) =~= Seq::empty());
    assert(link::tries_ops(seq![first]) =~= first.ops);
    let two = listen(heard, first.ops);
    lemma_listen_on(heard, first.ops, link::tries_ops(more));
    lemma_listen_grows(two, link::tries_ops(more));
    let n = heard.bits.len() as int;
    let after = listen(heard, Step::Transfer(transfer).ops()).bits;
    assert(after.take(two.bits.len() as int) == two.bits);
    assert(after.take(n) =~= two.bits.take(n));
    assert(after.subrange(n, n + 8) =~= two.bits.subrange(n, n + 8)) by {
        assert forall|i: int| n <= i < n + 8 implies #[trigger] after[i] == two.bits[i] by {
            assert(after.take(two.bits.len() as int)[i] == after[i]);
        }
    }
}

/// A step of the wait for power: a read of the debug port's register 4, or a
/// millisecond waited.
pub open spec fn awaits_power(step: Step) -> bool {
    on_register(step, false, true, 4, 0) || step == Step::Pads(seq![PadOp::DelayMs(1)])
}

/// Is a step, where it is a transfer, a settled one?
pub open spec fn settles(step: Step) -> bool {
    match step {
        Step::Transfer(transfer) => transfer.settled(),
        _ => true,
    }
}

/// Did a transfer bring a word without both of the bits 0xa000_0000?
pub open spec fn lacks_power(step: Step) -> bool {
    match step.outcome() {
        Ok(word) => word & 0xa000_0000 != 0xa000_0000,
        Err(_) => false,
    }
}

/// No transfer fails for a reason that is not its own.
proof fn lemma_settles(step: Step)
    requires
        settles(step),
        step is Transfer,
    ensures
        match step.outcome() {
            Err(Error::InvalidDpId) | Err(Error::PowerTimeout) | Err(Error::LineHeldLow) | Err(
                Error::Unaligned,
            ) => false,
            _ => true,
        },
{
    law_a_transfer_settles(step->Transfer_0);
}

proof fn lemma_power_poll(steps: Seq<Step>, left: nat, id: u32, result: Result<u32, Error>)
    requires
        bring_up::power_poll(steps, left, id) == Some(result),
        forall|i: int| 0 <= i < steps.len() ==> settles(#[trigger] steps[i]),
    ensures
        steps.len() > 0,
        forall|i: int| 0 <= i < steps.len() - 1 ==> awaits_power(#[trigger] steps[i]),
        match result {
            Ok(got) => {
                &&& got == id
                &&& on_register(steps.last(), false, true, 4, 0)
                &&& steps.last().outcome() matches Ok(word) && word & 0xa000_0000 == 0xa000_0000
            },
            Err(Error::PowerTimeout) => {
                &&& steps.len() == 2 * left + 1
                &&& steps.last() == Step::Pads(seq![PadOp::Release])
                &&& forall|i: int|
                    0 <= i < steps.len() - 1 && i % 2 == 0 ==> lacks_power(#[trigger] steps[i])
            },
            Err(Error::InvalidDpId) | Err(Error::LineHeldLow) | Err(Error::Unaligned) => false,
            Err(error) => steps.last().outcome() == Err::<u32, Error>(error),
        },
    decreases left,
{
    if left > 0 {
        lemma_settles(steps[0]);
        if let Ok(status) = steps[0].outcome() {
            if status & 0xa000_0000 != 0xa000_0000 {
                let rest = steps.skip(2);
                assert forall|i: int| 0 <= i < rest.len() implies settles(#[trigger] rest[i]) by {
                    assert(rest[i] == steps[i + 2]);
                }
                lemma_power_poll(rest, (left - 1) as nat, id, result);
                assert(rest.last() == steps.last());
                assert forall|i: int| 0 <= i < steps.len() - 1 implies awaits_power(
                    #[trigger] steps[i],
                ) by {
                    if i >= 2 {
                        assert(rest[i - 2] == steps[i]);
                    }
                }
                if result == Err::<u32, Error>(Error::PowerTimeout) {
                    assert forall|i: int| 0 <= i < steps.len() - 1 && i % 2 == 0 implies lacks_power(
                        #[trigger] steps[i],
                    ) by {
                        if i >= 2 {
                            assert(rest[i - 2] == steps[i]);
                        }
                    }
                }
            }
        }
    }
}

/// What an attach does, told by what the target hears and is asked for.
///
/// The lines are let go of and looked at. If SWDIO is low, nothing is driven
/// and the attach is refused. If not, the line is reset and switched, and the
/// first request is for the debug port's register 0, its identification. The
/// attach succeeds, with that identification, exactly where it is one that a
/// port can have, 0x1f was written to register 0, 0 to register 8 and
/// 0x5000_0000 to register 4, and then a read of register 4 had both of the bits
/// 0xa000_0000 set; a hundred reads without them are too many.
pub proof fn law_an_attach_wakes_the_port(
    before: LinkView,
    after: LinkView,
    swdio: bool,
    swclk: bool,
    result: Result<u32, Error>,
)
    requires
        after.went_on(before),
        bring_up::initialized(after.since(before), swdio, swclk, result),
    ensures
        ({
            let steps = after.since(before);
            let heard = bits_heard(after.pads.skip(before.pads.len() as int));
            &&& steps.len() >= 2
            &&& steps[0] == Step::Pads(seq![PadOp::Release])
            &&& steps[1] == Step::Pads(seq![PadOp::Lines(swdio, swclk)])
            &&& !swdio ==> steps.len() == 2 && heard.len() == 0 && result == Err::<u32, Error>(
                Error::LineHeldLow,
            )
            &&& swdio ==> {
                &&& heard.len() >= 144
                &&& resets_and_switches(heard.take(136))
                &&& asks_with(heard.subrange(136, 144), 2)
                &&& steps.len() >= 7
                &&& on_register(steps[6], false, true, 0, 0)
                &&& match result {
                    Ok(id) => {
                        &&& steps.len() >= 11
                        &&& steps[6].outcome() == Ok::<u32, Error>(id)
                        &&& id % 2 == 1 && id != 0xffff_ffff
                        &&& on_register(steps[7], false, false, 0, 0x1f)
                        &&& on_register(steps[8], false, false, 8, 0)
                        &&& on_register(steps[9], false, false, 4, 0x5000_0000)
                        &&& steps[7].outcome() is Ok && steps[8].outcome() is Ok
                            && steps[9].outcome() is Ok
                        &&& on_register(steps.last(), false, true, 4, 0)
                        &&& steps.last().outcome() matches Ok(word) && word & 0xa000_0000
                            == 0xa000_0000
                    },
                    Err(Error::InvalidDpId) => {
                        &&& steps.len() == 8
                        &&& steps[6].outcome() matches Ok(id) && (id % 2 == 0 || id == 0xffff_ffff)
                        &&& steps[7] == Step::Pads(seq![PadOp::Release])
                    },
                    Err(Error::PowerTimeout) => {
                        &&& steps.len() == 10 + 201
                        &&& steps.last() == Step::Pads(seq![PadOp::Release])
                    },
                    Err(Error::LineHeldLow) | Err(Error::Unaligned) => false,
                    Err(error) => steps.last().outcome() == Err::<u32, Error>(error),
                }
            }
        }),
{
    let steps = after.since(before);
    let start = Heard { data: true, clock: true, driven: false, bits: Seq::empty() };
    let ops = link::steps_ops(steps);
    assert(after.pads.skip(before.pads.len() as int) =~= ops);
    let looked = bring_up::looked_at(swdio, swclk);
    assert(steps.take(2)[0] == steps[0] && steps.take(2)[1] == steps[1]);
    lemma_steps_ops_first(looked);
    assert(looked.skip(1) =~= seq![looked[1]]);
    lemma_steps_ops_one(looked[1]);
    let one = listen(start, link::steps_ops(looked));
    lemma_listen_on(start, looked[0].ops(), looked[1].ops());
    lemma_listen_one(start, PadOp::Release);
    lemma_listen_one(hear(start, PadOp::Release), PadOp::Lines(swdio, swclk));
    if !swdio {
        assert(steps =~= looked);
    } else {
        let switch = bring_up::switch_to_swd();
        let brought = steps.skip(6);
        assert(steps =~= looked + switch + brought) by {
            assert(steps =~= steps.take(2) + steps.subrange(2, 6) + brought);
        }
        link::lemma_steps_concat(looked, switch);
        link::lemma_steps_concat(looked + switch, brought);
        lemma_listen_on(start, link::steps_ops(looked), link::steps_ops(switch));
        lemma_switch_heard(one);
        let two = listen(start, link::steps_ops(looked + switch));
        assert(two.bits.skip(0) =~= two.bits);
        lemma_listen_on(start, link::steps_ops(looked + switch), link::steps_ops(brought));
        lemma_steps_ops_first(brought);
        let first = brought[0];
        assert(first == steps[6]);
        assert(first.valid(before.framing));
        lemma_listen_on(two, first.ops(), link::steps_ops(brought.skip(1)));
        law_a_transfer_starts_with_its_request(before.framing, first->Transfer_0, two);
        let three = listen(two, first.ops());
        lemma_listen_grows(three, link::steps_ops(brought.skip(1)));
        let heard = listen(start, ops).bits;
        assert forall|i: int| 0 <= i < three.bits.len() implies #[trigger] heard[i]
            == three.bits[i] by {
            assert(heard.take(three.bits.len() as int)[i] == heard[i]);
        }
        assert(heard.take(136) =~= two.bits) by {
            assert forall|i: int| 0 <= i < 136 implies #[trigger] heard[i] == two.bits[i] by {
                assert(three.bits.take(136)[i] == three.bits[i]);
            }
        }
        assert(heard.subrange(136, 144) =~= three.bits.subrange(136, 144));
        lemma_brought(before.framing, brought, result);
        assert(brought.last() == steps.last());
        if brought.len() >= 4 {
            assert(brought[1] == steps[7] && brought[2] == steps[8] && brought[3] == steps[9]);
        } else if brought.len() >= 2 {
            assert(brought[1] == steps[7]);
        }
    }
}

/// What bringing up a port whose line is ready comes to.
proof fn lemma_brought(framing: Framing, steps: Seq<Step>, result: Result<u32, Error>)
    requires
        bring_up::bring_up(steps) == Some(result),
        forall|i: int| 0 <= i < steps.len() ==> (#[trigger] steps[i]).valid(framing),
    ensures
        steps.len() >= 1,
        on_register(steps[0], false, true, 0, 0),
        match result {
            Ok(id) => {
                &&& steps.len() >= 5
                &&& steps[0].outcome() == Ok::<u32, Error>(id)
                &&& id % 2 == 1 && id != 0xffff_ffff
                &&& on_register(steps[1], false, false, 0, 0x1f)
                &&& on_register(steps[2], false, false, 8, 0)
                &&& on_register(steps[3], false, false, 4, 0x5000_0000)
                &&& steps[1].outcome() is Ok && steps[2].outcome() is Ok && steps[3].outcome() is Ok
                &&& on_register(steps.last(), false, true, 4, 0)
                &&& steps.last().outcome() matches Ok(word) && word & 0xa000_0000 == 0xa000_0000
            },
            Err(Error::InvalidDpId) => {
                &&& steps.len() == 2
                &&& steps[0].outcome() matches Ok(id) && (id % 2 == 0 || id == 0xffff_ffff)
                &&& steps[1] == Step::Pads(seq![PadOp::Release])
            },
            Err(Error::PowerTimeout) => {
                &&& steps.len() == 4 + 201
                &&& steps.last() == Step::Pads(seq![PadOp::Release])
            },
            Err(Error::LineHeldLow) | Err(Error::Unaligned) => false,
            Err(error) => steps.last().outcome() == Err::<u32, Error>(error),
        },
{
    assert forall|i: int| 0 <= i < steps.len() implies settles(#[trigger] steps[i]) by {
        assert(steps[i].valid(framing));
    }
    let rest = steps.skip(1);
    if steps[0].outcome() is Ok && bring_up::plausible_id(steps[0].outcome()->Ok_0) {
        let program = bring_up::power_up_program();
        if rest.len() <= 3 && registers::ran(rest, program) && registers::failure(rest) is Some {
            assert(rest.last() == steps.last());
            lemma_settles(steps.last());
            assert(rest[rest.len() - 1].moves(
                program[rest.len() - 1].0,
                program[rest.len() - 1].1,
            ));
        } else {
            let three = rest.take(3);
            let poll = rest.skip(3);
            assert(three[0].moves(program[0].0, program[0].1));
            assert(three[1].moves(program[1].0, program[1].1));
            assert(three[2].moves(program[2].0, program[2].1));
            assert(three[0] == steps[1] && three[1] == steps[2] && three[2] == steps[3]);
            assert(three[0].outcome() is Ok && three[1].outcome() is Ok);
            assert(three.last() == steps[3]);
            assert forall|i: int| 0 <= i < poll.len() implies settles(#[trigger] poll[i]) by {
                assert(poll[i] == steps[i + 4]);
            }
            lemma_power_poll(poll, 100, steps[0].outcome()->Ok_0, result);
            assert(poll.last() == steps.last());
        }
    } else if steps[0].outcome() is Ok {
        assert(steps[1] == rest[0]);
    } else {
        lemma_settles(steps[0]);
        assert(steps.last() == steps[0]);
    }
}

/// Bits that are clocked out in one go are what a target hears, and all of it.
pub proof fn law_clocked_out_bits_are_heard(out: Seq<bool>)
    ensures
        bits_heard(link::steps_ops(seq![link::clocked_out(out)])) == out,
{
    let start = Heard { data: true, clock: true, driven: false, bits: Seq::empty() };
    lemma_steps_ops_one(link::clocked_out(out));
    lemma_clocked_out_heard(start, out);
    assert(start.bits + out =~= out);
}

/// Whatever a target heard before, a switch is the last of it.
pub(crate) proof fn lemma_switch_ends_it(earlier: Seq<PadOp>)
    ensures
        ({
            let bits = bits_heard(earlier + link::steps_ops(bring_up::switch_to_swd()));
            bits.len() >= 136 && resets_and_switches(bits.skip(bits.len() - 136))
        }),
{
    let start = Heard { data: true, clock: true, driven: false, bits: Seq::empty() };
    lemma_listen_on(start, earlier, link::steps_ops(bring_up::switch_to_swd()));
    lemma_switch_heard(listen(start, earlier));
}

/// A look at the released lines is not heard.
pub(crate) proof fn lemma_looking_is_not_heard(swdio: bool, swclk: bool)
    ensures
        bits_heard(link::steps_ops(bring_up::looked_at(swdio, swclk))).len() == 0,
{
    let start = Heard { data: true, clock: true, driven: false, bits: Seq::empty() };
    let looked = bring_up::looked_at(swdio, swclk);
    lemma_steps_ops_first(looked);
    assert(looked.skip(1) =~= seq![looked[1]]);
    lemma_steps_ops_one(looked[1]);
    lemma_listen_on(start, looked[0].ops(), looked[1].ops());
    lemma_listen_one(start, PadOp::Release);
    lemma_listen_one(hear(start, PadOp::Release), PadOp::Lines(swdio, swclk));
}

} // verus!
