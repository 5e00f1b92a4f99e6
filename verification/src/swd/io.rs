//! The two pads of the wire, and what is done to them.
//!
//! The wire is described by what is done to its two pads, in order: a
//! [`PadOp`] per operation. A backend keeps that account as a ghost log, and
//! every contract here says what is appended to it.

use crate::bits;
use vstd::arithmetic::power2::*;
use vstd::prelude::*;

verus! {

/// The widest field the wire engine moves in one backend call.
pub const MAX_BURST_BITS: u8 = 64;

/// One operation on the two pads.
pub enum PadOp {
    /// SWDIO, and SWCLK with it, starts to drive.
    Output,
    /// SWDIO is released to be listened to.
    Input,
    /// SWCLK starts to drive.
    ClockOutput,
    /// SWDIO is set to a level.
    Data(bool),
    /// SWCLK is set to a level.
    Clock(bool),
    /// SWDIO is read, and reads as this level.
    Sense(bool),
    HalfCycle,
    DelayMs(u16),
    /// Both lines stop driving.
    Release,
    /// Both lines are read: SWDIO, then SWCLK.
    Lines(bool, bool),
    /// From here on nothing may interrupt.
    Begin,
    /// Interruptions are let in again.
    End,
}

/// `ops` without an interruption.
pub open spec fn uninterrupted(ops: Seq<PadOp>) -> Seq<PadOp> {
    seq![PadOp::Begin] + ops + seq![PadOp::End]
}

/// How a backend frames a transfer where it does so in its own way. The plain
/// way, one clock at each turnaround and the resting level restored, is open
/// to every backend.
pub struct Framing {
    /// Clocks between a request and the target's first bit.
    pub lead: nat,
    /// Clocks that hand the bus back to the host.
    pub trail: nat,
    /// Idle bits after a write's data field.
    pub padding: nat,
    /// May the whole reply of a read be clocked though it was refused?
    pub whole: bool,
    /// May a transfer end without the resting level restored?
    pub lazy: bool,
}

impl Framing {
    /// The framing of a backend that has no way of its own.
    pub open spec fn plain() -> Framing {
        Framing { lead: 1, trail: 1, padding: 0, whole: false, lazy: false }
    }

    /// Is `turn` the turnaround before the target's first bit?
    pub open spec fn leads(self, turn: Seq<bool>) -> bool {
        turn.len() == 1 || turn.len() == self.lead
    }

    /// Are `clocks` as many as hand the bus back?
    pub open spec fn hands_back(self, clocks: int) -> bool {
        clocks == 1 || clocks == self.trail
    }

    /// Is `turn` the turnaround that hands the bus back?
    pub open spec fn trails(self, turn: Seq<bool>) -> bool {
        self.hands_back(turn.len() as int)
    }

    /// Do `padding` idle bits follow a write's data field?
    pub open spec fn pads(self, padding: nat) -> bool {
        padding == 0 || padding == self.padding
    }

    /// Do `ops` end a transfer?
    pub open spec fn rests(self, ops: Seq<PadOp>) -> bool {
        ops == seq![PadOp::Output, PadOp::Data(true)] || (self.lazy && ops.len() == 0)
    }

    /// Has a read's reply, acknowledged or not, this many bits? The turnaround
    /// that ends it is owed either way.
    pub open spec fn replies(self, granted: bool, len: nat) -> bool {
        if granted {
            self.hands_back(len - 36)
        } else {
            self.hands_back(len - 3) || (self.whole && self.hands_back(len - 36))
        }
    }
}

/// One bit driven: the level is set, then the target's sampling edge follows a
/// whole low phase later.
pub open spec fn drive_bit(bit: bool) -> Seq<PadOp> {
    seq![
        PadOp::Data(bit),
        PadOp::Clock(false),
        PadOp::HalfCycle,
        PadOp::Clock(true),
        PadOp::HalfCycle,
    ]
}

/// One bit sampled, late in the low phase.
pub open spec fn sample_bit(bit: bool) -> Seq<PadOp> {
    seq![
        PadOp::Clock(false),
        PadOp::HalfCycle,
        PadOp::Sense(bit),
        PadOp::Clock(true),
        PadOp::HalfCycle,
    ]
}

/// `bits` driven, first to last.
pub open spec fn drive_bits(bits: Seq<bool>) -> Seq<PadOp>
    decreases bits.len(),
{
    if bits.len() == 0 {
        Seq::empty()
    } else {
        drive_bits(bits.drop_last()) + drive_bit(bits.last())
    }
}

/// `bits` sampled, first to last.
pub open spec fn sample_bits(bits: Seq<bool>) -> Seq<PadOp>
    decreases bits.len(),
{
    if bits.len() == 0 {
        Seq::empty()
    } else {
        sample_bits(bits.drop_last()) + sample_bit(bits.last())
    }
}

/// The levels that SWDIO was read at, in order.
pub open spec fn sensed(ops: Seq<PadOp>) -> Seq<bool>
    decreases ops.len(),
{
    if ops.len() == 0 {
        Seq::empty()
    } else {
        let earlier = sensed(ops.drop_last());
        match ops.last() {
            PadOp::Sense(high) => earlier.push(high),
            _ => earlier,
        }
    }
}

/// The first `count` bits of `bytes`, each byte's least significant first.
pub open spec fn byte_bits(bytes: Seq<u8>, count: nat) -> Seq<bool> {
    Seq::new(count, |i: int| bits::bits_of(bytes[i / 8] as nat, 8)[i % 8])
}

/// Is `before` the start of `after`?
pub open spec fn grown(before: Seq<PadOp>, after: Seq<PadOp>) -> bool {
    after == before + after.skip(before.len() as int)
}

/// Did a backend only sample, `bits` of them, between two logs?
pub open spec fn sampled(before: Seq<PadOp>, after: Seq<PadOp>, bits: Seq<bool>) -> bool {
    after == before + sample_bits(bits)
}

/// Is `reply` what a transfer's `bits` say: an acknowledgement in its lowest
/// three bits and, where that is `ok`, the data and its parity in the next
/// thirty-three, then the turnaround and nothing more?
pub open spec fn reads_as(framing: Framing, bits: Seq<bool>, ok: u8, reply: u64) -> bool {
    &&& bits.len() >= 3
    &&& reply % 8 == bits::value_of(bits.take(3))
    &&& framing.replies(reply % 8 == ok, bits.len())
    &&& reply % 8 == ok ==> bits.len() >= 36 && reply as nat / 8 % pow2(33) == bits::value_of(
        bits.subrange(3, 36),
    )
}

/// Electrical operations required by the SWD wire engine.
pub trait SwdIo: Sized {
    /// All that was done to the pads, oldest first. It exists in proofs only:
    /// pads that nothing is proved of need not say what it is.
    closed spec fn log(&self) -> Seq<PadOp> {
        Seq::empty()
    }

    /// How it frames a transfer, where not in the plain way.
    open spec fn framing() -> Framing {
        Framing::plain()
    }

    fn set_swdio_output(&mut self)
        ensures
            final(self).log() == old(self).log().push(PadOp::Output),
    ;

    fn set_swdio_input(&mut self)
        ensures
            final(self).log() == old(self).log().push(PadOp::Input),
    ;

    fn set_swclk_output(&mut self)
        ensures
            final(self).log() == old(self).log().push(PadOp::ClockOutput),
    ;

    fn write_swdio(&mut self, high: bool)
        ensures
            final(self).log() == old(self).log().push(PadOp::Data(high)),
    ;

    fn read_swdio(&mut self) -> (high: bool)
        ensures
            final(self).log() == old(self).log().push(PadOp::Sense(high)),
    ;

    fn write_swclk(&mut self, high: bool)
        ensures
            final(self).log() == old(self).log().push(PadOp::Clock(high)),
    ;

    fn delay_half_cycle(&mut self)
        ensures
            final(self).log() == old(self).log().push(PadOp::HalfCycle),
    ;

    fn delay_ms(&mut self, milliseconds: u16)
        ensures
            final(self).log() == old(self).log().push(PadOp::DelayMs(milliseconds)),
    ;

    fn release(&mut self)
        ensures
            final(self).log() == old(self).log().push(PadOp::Release),
    ;

    fn sample_lines(&mut self) -> (levels: (bool, bool))
        ensures
            final(self).log() == old(self).log().push(PadOp::Lines(levels.0, levels.1)),
    ;

    /// Clocks out one bit while SWDIO is already an output.
    fn drive_bit(&mut self, high: bool)
        ensures
            final(self).log() == old(self).log() + drive_bit(high),
    {
        let ghost before = self.log();
        self.write_swdio(high);
        self.write_swclk(false);
        self.delay_half_cycle();
        self.write_swclk(true);
        self.delay_half_cycle();
        assert(self.log() =~= before + drive_bit(high));
    }

    /// Clocks in one bit while SWDIO is already released: the falling edge
    /// first, the sample near the end of the low phase, and the clock left
    /// high.
    fn sample_bit(&mut self) -> (high: bool)
        ensures
            final(self).log() == old(self).log() + sample_bit(high),
    {
        let ghost before = self.log();
        self.write_swclk(false);
        self.delay_half_cycle();
        let value: bool = self.read_swdio();
        self.write_swclk(true);
        self.delay_half_cycle();
        assert(self.log() =~= before + sample_bit(value));
        value
    }

    /// Clocks out `count` bits of `value`, least significant bit first, while
    /// SWDIO is already an output.
    ///
    /// Backends with a hardware shift register override this; the default
    /// implementation drives one pad transition per bit.
    fn write_bits(&mut self, value: u64, count: u8)
        requires
            count <= MAX_BURST_BITS,
        ensures
            final(self).log() == old(self).log() + drive_bits(
                bits::bits_of(value as nat, count as nat),
            ),
    {
        let ghost before = self.log();
        let ghost all = bits::bits_of(value as nat, count as nat);
        let mut rest: u64 = value;
        let mut index: u8 = 0;
        proof {
            bits::lemma_bits_len(value as nat, count as nat);
            assert(all.skip(0) =~= all);
            assert(all.take(0) =~= Seq::empty());
            assert(self.log() =~= before + drive_bits(all.take(0)));
        }
        while index < count
            invariant
                index <= count,
                all.len() == count,
                all.skip(index as int) == bits::bits_of(rest as nat, (count - index) as nat),
                self.log() == before + drive_bits(all.take(index as int)),
            decreases count - index,
        {
            proof {
                bits::lemma_bits_skip(rest as nat, (count - index) as nat);
                assert(all.skip(index as int)[0] == all[index as int]);
                assert(all.skip(index as int).skip(1) =~= all.skip(index + 1));
                assert(all.take(index + 1).drop_last() =~= all.take(index as int));
            }
            self.drive_bit(rest % 2 == 1);
            rest = rest / 2;
            index += 1;
            assert(self.log() =~= before + drive_bits(all.take(index as int)));
        }
        assert(all.take(count as int) =~= all);
    }

    /// Clocks in `count` bits, least significant bit first, while SWDIO is
    /// already released. Bits above `count` are zero.
    fn read_bits(&mut self, count: u8) -> (value: u64)
        requires
            count <= MAX_BURST_BITS,
        ensures
            (value as nat) < pow2(count as nat),
            sampled(
                old(self).log(),
                final(self).log(),
                bits::bits_of(value as nat, count as nat),
            ),
    {
        let ghost before = self.log();
        let ghost mut seen: Seq<bool> = Seq::empty();
        let mut value: u64 = 0;
        let mut weight: u128 = 1;
        let mut index: u8 = 0;
        proof {
            lemma2_to64();
            assert(self.log() =~= before + sample_bits(seen));
        }
        while index < count
            invariant
                index <= count <= 64,
                seen.len() == index,
                weight == pow2(index as nat),
                value == bits::value_of(seen),
                self.log() == before + sample_bits(seen),
            decreases count - index,
        {
            let high: bool = self.sample_bit();
            proof {
                bits::lemma_value_push(seen, high);
                bits::lemma_value_bound(seen.push(high));
                lemma2_to64();
                lemma_pow2_unfold((index + 1) as nat);
                if index + 1 < 64 {
                    lemma_pow2_strictly_increases((index + 1) as nat, 64);
                }
                assert(seen.push(high).drop_last() =~= seen);
                seen = seen.push(high);
                assert(self.log() =~= before + sample_bits(seen));
            }
            if high {
                value = value + weight as u64;
            }
            weight = weight * 2;
            index += 1;
        }
        proof {
            bits::lemma_value_bound(seen);
            bits::law_bits_of_undoes_value_of(seen);
        }
        value
    }

    /// Clocks the turnaround period between the host's request and the
    /// target's first driven bit.
    ///
    /// A backend that samples late in the low phase needs a clock of its own
    /// here, because by the time it looks the target has not started driving.
    /// One that samples on the falling edge already sees the target's first bit
    /// within the first clock of the following read, and overrides this to
    /// nothing.
    fn leading_turnaround(&mut self)
        ensures
            exists|turn: Seq<bool>| #[trigger]
                sampled(old(self).log(), final(self).log(), turn) && Self::framing().leads(turn),
    {
        let ghost before = self.log();
        let value: u64 = self.read_bits(1);
        proof {
            let turn = bits::bits_of(value as nat, 1);
            bits::lemma_bits_len(value as nat, 1);
            assert(sampled(before, self.log(), turn));
        }
    }

    /// Clocks the turnaround period that hands the bus back to the host,
    /// after a read's data phase or before a write's.
    ///
    /// A backend that borrows a clock at `leading_turnaround` repays it here.
    fn trailing_turnaround(&mut self)
        ensures
            exists|turn: Seq<bool>| #[trigger]
                sampled(old(self).log(), final(self).log(), turn) && Self::framing().trails(turn),
    {
        let ghost before = self.log();
        let value: u64 = self.read_bits(1);
        proof {
            let turn = bits::bits_of(value as nat, 1);
            bits::lemma_bits_len(value as nat, 1);
            assert(sampled(before, self.log(), turn));
        }
    }

    /// Clocks a write transfer's 32 data bits followed by its parity bit.
    ///
    /// A backend may send the field longer, with zeros, which is what an idle
    /// line is.
    fn write_data_phase(&mut self, data: u32, parity: bool)
        ensures
            exists|padding: nat| #[trigger]
                data_driven(old(self).log(), final(self).log(), data, parity, padding)
                    && Self::framing().pads(padding),
    {
        let ghost before = self.log();
        let field: u64 = data as u64 + (if parity { 0x1_0000_0000 } else { 0 });
        self.write_bits(field, 33);
        proof {
            lemma_data_field(data, parity);
            assert(data_bits(data, parity) + bits::zeros(0) =~= data_bits(data, parity));
            assert(data_driven(before, self.log(), data, parity, 0));
        }
    }

    /// Clocks a read transfer's 32 data bits, its parity bit, and the
    /// turnaround that follows, returning data in bits 0..32 and parity above
    /// them.
    fn read_data_phase(&mut self) -> (value: u64)
        ensures
            value < 0x2000_0000_0000_0000,
            exists|bits: Seq<bool>|
                {
                    &&& #[trigger] sampled(old(self).log(), final(self).log(), bits)
                    &&& bits.len() >= 33
                    &&& Self::framing().hands_back(bits.len() - 33)
                    &&& value as nat % pow2(33) == bits::value_of(bits.take(33))
                },
    {
        let ghost before = self.log();
        let value: u64 = self.read_bits(33);
        let ghost middle = self.log();
        self.trailing_turnaround();
        proof {
            let first = bits::bits_of(value as nat, 33);
            let turn = choose|turn: Seq<bool>| #[trigger]
                sampled(middle, self.log(), turn) && Self::framing().trails(turn);
            lemma_sampled_twice(before, middle, self.log(), first, turn);
            bits::lemma_bits_len(value as nat, 33);
            bits::law_value_of_undoes_bits_of(value as nat, 33);
            lemma2_to64_rest();
            assert((first + turn).take(33) =~= first);
        }
        value
    }

    /// Reads a transfer's reply: ACK in bits 0..3, data in 3..35, parity in
    /// 35, and the trailing turnaround above that.
    ///
    /// `ok` is the ACK value whose data phase is worth having. A backend where
    /// each field costs a separate peripheral transaction may clock the whole
    /// reply unconditionally and discard it: with SWDIO released the target
    /// drives nothing after a WAIT or FAULT. That licence belongs to reads
    /// alone — a write must never drive its data phase after a refused ACK.
    fn read_reply(&mut self, ok: u8) -> (reply: u64)
        ensures
            exists|bits: Seq<bool>|
                {
                    &&& #[trigger] sampled(old(self).log(), final(self).log(), bits)
                    &&& reads_as(Self::framing(), bits, ok, reply)
                },
    {
        let ghost before = self.log();
        let ack: u64 = self.read_bits(3);
        let ghost middle = self.log();
        let ghost first = bits::bits_of(ack as nat, 3);
        proof {
            lemma2_to64();
            lemma2_to64_rest();
            bits::lemma_bits_len(ack as nat, 3);
            bits::law_value_of_undoes_bits_of(ack as nat, 3);
        }
        if ack != ok as u64 {
            // The turnaround is owed whatever the ACK said; skipping it
            // desynchronises the next transfer.
            self.trailing_turnaround();
            proof {
                let turn = choose|turn: Seq<bool>| #[trigger]
                    sampled(middle, self.log(), turn) && Self::framing().trails(turn);
                lemma_sampled_twice(before, middle, self.log(), first, turn);
                assert((first + turn).take(3) =~= first);
                assert(reads_as(Self::framing(), first + turn, ok, ack));
            }
            return ack;
        }
        let data: u64 = self.read_data_phase();
        let reply: u64 = ack + 8 * data;
        proof {
            let rest = choose|bits: Seq<bool>|
                {
                    &&& #[trigger] sampled(middle, self.log(), bits)
                    &&& bits.len() >= 33
                    &&& Self::framing().hands_back(bits.len() - 33)
                    &&& data as nat % pow2(33) == bits::value_of(bits.take(33))
                };
            lemma_sampled_twice(before, middle, self.log(), first, rest);
            assert((first + rest).take(3) =~= first);
            assert((first + rest).subrange(3, 36) =~= rest.take(33));
            assert(reads_as(Self::framing(), first + rest, ok, reply));
        }
        reply
    }

    /// Returns the bus to its resting state at the end of a transfer.
    ///
    /// Between two transfers there are no clock edges, so the level a backend
    /// leaves on SWDIO is not observable by the target; a backend that would
    /// have to change engines to set it may skip doing so.
    fn end_transfer(&mut self)
        ensures
            exists|ops: Seq<PadOp>|
                #[trigger] Self::framing().rests(ops) && final(self).log() == old(self).log() + ops,
    {
        let ghost before = self.log();
        self.set_swdio_output();
        self.write_swdio(true);
        proof {
            let ops = seq![PadOp::Output, PadOp::Data(true)];
            assert(Self::framing().rests(ops));
            assert(self.log() =~= before + ops);
        }
    }

    /// Clocks out `count` bits taken from `bytes`, least significant bit of
    /// the first byte first, while SWDIO is already an output.
    fn write_sequence(&mut self, bytes: &[u8], count: usize)
        requires
            count <= 8 * bytes@.len(),
        ensures
            final(self).log() == old(self).log() + drive_bits(byte_bits(bytes@, count as nat)),
    {
        let ghost before = self.log();
        let ghost all = byte_bits(bytes@, count as nat);
        let mut written: usize = 0;
        assert(all.take(0) =~= Seq::empty());
        assert(self.log() =~= before + drive_bits(all.take(0)));
        while written < count
            invariant
                written <= count,
                written % 8 == 0 || written == count,
                count <= 8 * bytes@.len(),
                all == byte_bits(bytes@, count as nat),
                self.log() == before + drive_bits(all.take(written as int)),
            decreases count - written,
        {
            let left: usize = count - written;
            let burst: u8 = if left < MAX_BURST_BITS as usize { left as u8 } else { MAX_BURST_BITS };
            let field: u64 = gather(bytes, written / 8, burst);
            self.write_bits(field, burst);
            proof {
                let chunk = byte_bits(bytes@.skip(written as int / 8), burst as nat);
                assert(all.take(written + burst) =~= all.take(written as int) + chunk);
                lemma_drive_concat(all.take(written as int), chunk);
                assert(self.log() =~= before + drive_bits(all.take(written + burst)));
            }
            written += burst as usize;
        }
        assert(all.take(count as int) =~= all);
    }

    /// Starts a span of pad operations that nothing may interrupt, so that no
    /// interrupt can deform a clock edge.
    ///
    /// A backend whose edges no interrupt can deform need not keep any out.
    fn begin_transaction(&mut self)
        ensures
            final(self).log() == old(self).log().push(PadOp::Begin),
    ;

    /// Ends the span that [`SwdIo::begin_transaction`] started.
    fn end_transaction(&mut self)
        ensures
            final(self).log() == old(self).log().push(PadOp::End),
    ;
}

/// The first `count` bits of `bytes[first..]`, as one number's lowest bits.
pub fn gather(bytes: &[u8], first: usize, count: u8) -> (value: u64)
    requires
        count <= MAX_BURST_BITS,
        8 * first + count <= 8 * bytes@.len(),
    ensures
        bits::bits_of(value as nat, count as nat) == byte_bits(
            bytes@.skip(first as int),
            count as nat,
        ),
{
    let len: usize = bytes.len();
    let whole: u8 = (count + 7) / 8;
    let mut value: u64 = 0;
    let mut at: u8 = whole;
    let ghost tail = bytes@.skip(first as int);
    proof {
        lemma2_to64();
        assert(bits::bits_of(0, 0) =~= byte_bits(tail.skip(whole as int), 0));
    }
    while at > 0
        invariant
            at <= whole <= 8,
            whole == (count + 7) / 8,
            8 * first + count <= 8 * len,
            len == bytes@.len(),
            tail == bytes@.skip(first as int),
            (value as nat) < pow2((8 * (whole - at)) as nat),
            bits::bits_of(value as nat, (8 * (whole - at)) as nat) == byte_bits(
                tail.skip(at as int),
                (8 * (whole - at)) as nat,
            ),
        decreases at,
    {
        at -= 1;
        let byte: u8 = bytes[first + at as usize];
        proof {
            let done = (8 * (whole - at - 1)) as nat;
            lemma2_to64();
            lemma_pow2_adds(8, done);
            if done + 8 < 64 {
                lemma_pow2_strictly_increases(done + 8, 64);
            }
            lemma_bits_concat(byte as nat, value as nat, 8, done);
            bits::lemma_bits_len(byte as nat, 8);
            assert(byte_bits(tail.skip(at as int), done + 8) =~= bits::bits_of(byte as nat, 8)
                + byte_bits(tail.skip(at + 1), done));
            assert(value * 256 + byte < pow2(done) * 256) by (nonlinear_arith)
                requires
                    (value as nat) < pow2(done),
                    byte < 256,
            ;
            assert(pow2(done) * 256 == pow2(done + 8)) by (nonlinear_arith)
                requires
                    pow2(8) * pow2(done) == pow2(8 + done),
                    pow2(8) == 256,
                    8 + done == done + 8,
            ;
        }
        value = value * 256 + byte as u64;
    }
    proof {
        lemma_bits_prefix(value as nat, count as nat, (8 * whole) as nat);
        assert(tail.skip(0) =~= tail);
        assert(byte_bits(tail, (8 * whole) as nat).take(count as int) =~= byte_bits(
            tail,
            count as nat,
        ));
    }
    value
}

/// The bits of a number made of a low and a high part.
pub(crate) proof fn lemma_bits_concat(low: nat, high: nat, low_count: nat, high_count: nat)
    requires
        low < pow2(low_count),
        high < pow2(high_count),
    ensures
        bits::bits_of(low + pow2(low_count) * high, low_count + high_count) == bits::bits_of(
            low,
            low_count,
        ) + bits::bits_of(high, high_count),
{
    let (a, b) = (bits::bits_of(low, low_count), bits::bits_of(high, high_count));
    bits::lemma_bits_len(low, low_count);
    bits::lemma_bits_len(high, high_count);
    bits::law_value_of_undoes_bits_of(low, low_count);
    bits::law_value_of_undoes_bits_of(high, high_count);
    bits::lemma_value_concat(a, b);
    bits::law_bits_of_undoes_value_of(a + b);
}

/// A write's data field: the word, then its parity.
pub open spec fn data_bits(data: u32, parity: bool) -> Seq<bool> {
    bits::bits_of(data as nat, 32).push(parity)
}

/// Did a backend drive a data field and `padding` idle bits, and nothing else?
pub open spec fn data_driven(
    before: Seq<PadOp>,
    after: Seq<PadOp>,
    data: u32,
    parity: bool,
    padding: nat,
) -> bool {
    after == before + drive_bits(data_bits(data, parity) + bits::zeros(padding))
}

pub(crate) proof fn lemma_sensed_concat(a: Seq<PadOp>, b: Seq<PadOp>)
    ensures
        sensed(a + b) == sensed(a) + sensed(b),
    decreases b.len(),
{
    if b.len() == 0 {
        assert(a + b =~= a);
        assert(sensed(a + b) =~= sensed(a) + sensed(b));
    } else {
        lemma_sensed_concat(a, b.drop_last());
        assert((a + b).drop_last() =~= a + b.drop_last());
        assert(sensed(a + b) =~= sensed(a) + sensed(b));
    }
}

/// What is sampled is sensed.
pub(crate) proof fn lemma_sampled_is_sensed(bits: Seq<bool>)
    ensures
        sensed(sample_bits(bits)) == bits,
    decreases bits.len(),
{
    if bits.len() == 0 {
        assert(sensed(sample_bits(bits)) =~= bits);
    } else {
        let last = sample_bit(bits.last());
        lemma_sampled_is_sensed(bits.drop_last());
        lemma_sensed_concat(sample_bits(bits.drop_last()), last);
        reveal_with_fuel(sensed, 6);
        assert(last.drop_last().drop_last() =~= seq![
            PadOp::Clock(false),
            PadOp::HalfCycle,
            PadOp::Sense(bits.last()),
        ]);
        assert(sensed(last) =~= seq![bits.last()]);
        assert(sensed(sample_bits(bits)) =~= bits);
    }
}

/// Nothing is sensed where nothing is read.
pub(crate) proof fn lemma_nothing_sensed(ops: Seq<PadOp>)
    requires
        forall|i: int| 0 <= i < ops.len() ==> !(#[trigger] ops[i] is Sense),
    ensures
        sensed(ops) == Seq::<bool>::empty(),
    decreases ops.len(),
{
    if ops.len() > 0 {
        assert(!(ops[ops.len() - 1] is Sense));
        let earlier = ops.drop_last();
        assert forall|i: int| 0 <= i < earlier.len() implies !(#[trigger] earlier[i] is Sense) by {
            assert(earlier[i] == ops[i]);
        }
        lemma_nothing_sensed(earlier);
    }
}

pub(crate) proof fn lemma_uninterrupted_senses(ops: Seq<PadOp>)
    ensures
        sensed(uninterrupted(ops)) == sensed(ops),
{
    lemma_nothing_sensed(seq![PadOp::Begin]);
    lemma_nothing_sensed(seq![PadOp::End]);
    lemma_sensed_concat(seq![PadOp::Begin], ops);
    lemma_sensed_concat(seq![PadOp::Begin] + ops, seq![PadOp::End]);
    assert(sensed(uninterrupted(ops)) =~= sensed(ops));
}

pub(crate) proof fn lemma_driving_senses_nothing(bits: Seq<bool>)
    ensures
        sensed(drive_bits(bits)) == Seq::<bool>::empty(),
    decreases bits.len(),
{
    if bits.len() > 0 {
        lemma_driving_senses_nothing(bits.drop_last());
        lemma_nothing_sensed(drive_bit(bits.last()));
        lemma_sensed_concat(drive_bits(bits.drop_last()), drive_bit(bits.last()));
        assert(sensed(drive_bits(bits)) =~= Seq::empty());
    }
}

pub(crate) proof fn lemma_sample_concat(low: Seq<bool>, high: Seq<bool>)
    ensures
        sample_bits(low + high) == sample_bits(low) + sample_bits(high),
    decreases high.len(),
{
    if high.len() == 0 {
        assert(low + high =~= low);
        assert(sample_bits(low + high) =~= sample_bits(low) + sample_bits(high));
    } else {
        lemma_sample_concat(low, high.drop_last());
        assert((low + high).drop_last() =~= low + high.drop_last());
        assert(sample_bits(low + high) =~= sample_bits(low) + sample_bits(high));
    }
}

pub(crate) proof fn lemma_drive_concat(low: Seq<bool>, high: Seq<bool>)
    ensures
        drive_bits(low + high) == drive_bits(low) + drive_bits(high),
    decreases high.len(),
{
    if high.len() == 0 {
        assert(low + high =~= low);
        assert(drive_bits(low + high) =~= drive_bits(low) + drive_bits(high));
    } else {
        lemma_drive_concat(low, high.drop_last());
        assert((low + high).drop_last() =~= low + high.drop_last());
        assert(drive_bits(low + high) =~= drive_bits(low) + drive_bits(high));
    }
}

pub(crate) proof fn lemma_sampled_twice(
    before: Seq<PadOp>,
    middle: Seq<PadOp>,
    after: Seq<PadOp>,
    low: Seq<bool>,
    high: Seq<bool>,
)
    requires
        sampled(before, middle, low),
        sampled(middle, after, high),
    ensures
        sampled(before, after, low + high),
{
    lemma_sample_concat(low, high);
    assert(after =~= before + sample_bits(low + high));
}

/// A 33-bit number spells the word and its parity.
pub(crate) proof fn lemma_data_field(data: u32, parity: bool)
    ensures
        bits::bits_of(data as nat + (if parity { 0x1_0000_0000nat } else { 0 }), 33) == data_bits(
            data,
            parity,
        ),
{
    let word = bits::bits_of(data as nat, 32);
    lemma2_to64();
    bits::lemma_bits_len(data as nat, 32);
    bits::law_value_of_undoes_bits_of(data as nat, 32);
    bits::lemma_value_push(word, parity);
    bits::law_bits_of_undoes_value_of(word.push(parity));
}

/// The lowest bits of a number are the first of more of its bits.
pub(crate) proof fn lemma_bits_prefix(value: nat, count: nat, more: nat)
    requires
        count <= more,
    ensures
        bits::bits_of(value, count) == bits::bits_of(value, more).take(count as int),
    decreases count,
{
    bits::lemma_bits_len(value, count);
    bits::lemma_bits_len(value, more);
    if count > 0 {
        lemma_bits_prefix(value / 2, (count - 1) as nat, (more - 1) as nat);
        bits::lemma_bits_len(value / 2, (more - 1) as nat);
        assert(bits::bits_of(value, count) =~= bits::bits_of(value, more).take(count as int));
    } else {
        assert(bits::bits_of(value, count) =~= bits::bits_of(value, more).take(0));
    }
}

} // verus!
