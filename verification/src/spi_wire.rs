//! GPSPI2 shift-register backend for the SWD wire.
//!
//! Bit-banging SWD costs two pad transitions and a software delay per bit, so
//! the achievable clock is bounded by how tightly the CPU can be held in a
//! loop, and every interrupt is a potential malformed edge. GPSPI2 generates
//! SWCLK in hardware instead: the CPU writes a shift register, starts the
//! peripheral, and the whole field leaves the pad at an exact frequency no
//! matter what the scheduler does in between.
//!
//! SWD maps onto SPI mode 0 exactly: the host changes SWDIO on the falling
//! edge, the target samples it on the rising edge, and both ends shift the
//! least significant bit first.
//!
//! This module decides what is stored in the peripheral's registers; whoever
//! owns the bus makes the stores, each a pair of offset and value, in order,
//! and then issues [`COMMANDS`].

use crate::clock;
use vstd::arithmetic::power2::*;
use vstd::bits::*;
use vstd::prelude::*;

verus! {

pub const SPI_CMD: u32 = 0x00;

pub const SPI_CTRL: u32 = 0x08;

pub const SPI_CLOCK: u32 = 0x0c;

pub const SPI_USER: u32 = 0x10;

pub const SPI_USER1: u32 = 0x14;

pub const SPI_USER2: u32 = 0x18;

pub const SPI_MS_DLEN: u32 = 0x1c;

pub const SPI_MISC: u32 = 0x20;

pub const SPI_DMA_CONF: u32 = 0x30;

pub const SPI_W0: u32 = 0x98;

pub const SPI_W1: u32 = 0x9c;

pub const SPI_CLK_GATE: u32 = 0xe8;

pub const CMD_UPDATE: u32 = 0x80_0000;

pub const CMD_USR: u32 = 0x100_0000;

/// What starts a transfer, each issued once the one before has cleared itself.
///
/// Configuration registers live in the APB clock domain and only reach the SPI
/// clock domain once UPDATE has self-cleared.
pub const COMMANDS: [u32; 2] = [CMD_UPDATE, CMD_USR];

/// Least significant bit first in both directions.
const CTRL_BIT_ORDER: u32 = 0x600_0000;

const USER_USR_MOSI: u32 = 0x800_0000;

/// Sample, on the other clock edge.
const USER_SAMPLE: u32 = 0x1000_0200;

/// Drive and sample at once.
const USER_LOOPBACK: u32 = 0x1800_0001;

/// No chip select is driven.
const MISC_CS_DIS_ALL: u32 = 0b111;

const DMA_CONF_FIFO_RST: u32 = 0x6000_0000;

/// The register clock, the master clock, and PLL_F80M as its source.
const CLK_GATE_ALL: u32 = 0b111;

/// The widest field one GPSPI2 transfer moves here. The peripheral holds 512
/// bits, but SWD never needs more than a 33-bit data-plus-parity field.
pub const MAX_BURST_BITS: u8 = 64;

/// Iterations of a register poll before a transfer is abandoned. A 64-bit
/// field at the slowest supported clock takes well under a millisecond.
pub const SPIN_LIMIT: u32 = 2_000_000;

/// What a latch holds before anything has been stored in it.
const NOTHING: u32 = u32::MAX;

/// Which direction GPSPI2 drives for one field.
#[derive(Clone, Copy, Debug, Eq, PartialEq, Structural)]
pub enum Phase {
    Drive,
    Sample,
}

pub struct SpiWire {
    pub clock_register: u32,
    pub clock_hz: u32,
    /// Last values latched into the peripheral, so a transfer that repeats a
    /// configuration does not pay to rewrite it.
    pub programmed_user: u32,
    pub programmed_dlen: u32,
    /// Cycles spent inside transfers, and how many there were, so the per-word
    /// cost can be split between the peripheral and everything else.
    pub run_cycles: u32,
    pub run_count: u32,
}

/// What a phase stores in the user register.
///
/// The two directions of SWD do not share a clock phase. The host changes SWDIO
/// on the falling edge and the target samples it on the rising one, which is
/// SPI mode 0; but the target changes SWDIO on the rising edge, so the host has
/// to sample on the falling one — mode 1.
pub open spec fn user_of(phase: Phase) -> u32 {
    match phase {
        Phase::Drive => 0x800_0000,
        Phase::Sample => 0x1000_0200,
    }
}

/// The stores that prepare one field.
pub open spec fn field_writes(wire: SpiWire, phase: Phase, count: u8) -> Seq<(u32, u32)> {
    (if wire.programmed_dlen != count - 1 {
        seq![(SPI_MS_DLEN, (count - 1) as u32)]
    } else {
        Seq::empty()
    }) + (if wire.programmed_user != user_of(phase) {
        seq![(SPI_USER, user_of(phase)), (SPI_CLOCK, wire.clock_register)]
    } else {
        Seq::empty()
    })
}

/// The driver once those stores are made.
pub open spec fn field_prepared(wire: SpiWire, phase: Phase, count: u8) -> SpiWire {
    SpiWire { programmed_user: user_of(phase), programmed_dlen: (count - 1) as u32, ..wire }
}

/// A 64-bit field as the two buffer words.
pub open spec fn buffer_writes(bits: u64) -> Seq<(u32, u32)> {
    seq![(SPI_W0, (bits % 0x1_0000_0000) as u32), (SPI_W1, (bits / 0x1_0000_0000) as u32)]
}

/// What a transfer that drives and samples at once stores.
pub open spec fn loopback_writes(wire: SpiWire, bits: u64, count: u8) -> Seq<(u32, u32)> {
    seq![(SPI_DMA_CONF, 0x6000_0000u32), (SPI_DMA_CONF, 0u32)] + buffer_writes(bits) + seq![
        (SPI_MS_DLEN, (count - 1) as u32),
        (SPI_USER, 0x1800_0001u32),
        (SPI_CLOCK, wire.clock_register),
    ]
}

/// The low `count` bits of the two buffer words.
pub open spec fn buffered(low: u32, high: u32, count: u8) -> int {
    (low + high * 0x1_0000_0000) % (pow2(count as nat) as int)
}

impl SpiWire {
    /// Configures GPSPI2 for SWD framing, given what its control register
    /// holds: what to store, and the driver afterwards.
    ///
    /// The caller must route FSPICLK and FSPID/FSPIQ to the SWCLK and SWDIO
    /// pads, and stays responsible for SWDIO's output enable: this driver
    /// never drives a line the caller has not enabled.
    pub fn new(clock_hz: u32, control: u32) -> (made: (SpiWire, Vec<(u32, u32)>))
        ensures
            clock::chosen(
                clock::SOURCE_CLOCK_HZ,
                clock_hz,
                clock::Divider { register: made.0.clock_register, clock_hz: made.0.clock_hz },
            ),
            made.0.programmed_user == u32::MAX,
            made.0.programmed_dlen == u32::MAX,
            made.0.run_cycles == 0,
            made.0.run_count == 0,
            made.1@ == seq![
                (SPI_CLK_GATE, 7u32),
                (SPI_CTRL, control | 0x600_0000u32),
                (SPI_USER1, 0u32),
                (SPI_USER2, 0u32),
                (SPI_DMA_CONF, 0u32),
                (SPI_MISC, 7u32),
                (SPI_CLOCK, made.0.clock_register),
            ],
    {
        let mut wire = SpiWire {
            clock_register: 0,
            clock_hz: 0,
            programmed_user: NOTHING,
            programmed_dlen: NOTHING,
            run_cycles: 0,
            run_count: 0,
        };
        let set: (u32, (u32, u32)) = wire.set_clock(clock_hz);
        let mut writes: Vec<(u32, u32)> = Vec::new();
        writes.push((SPI_CLK_GATE, CLK_GATE_ALL));
        writes.push((SPI_CTRL, control | CTRL_BIT_ORDER));
        writes.push((SPI_USER1, 0));
        writes.push((SPI_USER2, 0));
        writes.push((SPI_DMA_CONF, 0));
        writes.push((SPI_MISC, MISC_CS_DIS_ALL));
        writes.push(set.1);
        (wire, writes)
    }

    pub fn clock_hz(&self) -> (clock_hz: u32)
        ensures
            clock_hz == self.clock_hz,
    {
        self.clock_hz
    }

    /// Sets the SWCLK frequency: the frequency actually programmed, and the
    /// store that programs it.
    pub fn set_clock(&mut self, requested_hz: u32) -> (set: (u32, (u32, u32)))
        ensures
            clock::chosen(
                clock::SOURCE_CLOCK_HZ,
                requested_hz,
                clock::Divider {
                    register: final(self).clock_register,
                    clock_hz: final(self).clock_hz,
                },
            ),
            *final(self) == (SpiWire {
                clock_register: final(self).clock_register,
                clock_hz: final(self).clock_hz,
                programmed_user: u32::MAX,
                ..*old(self)
            }),
            set == (final(self).clock_hz, (SPI_CLOCK, final(self).clock_register)),
    {
        let divider: clock::Divider = clock::divider_for(clock::SOURCE_CLOCK_HZ, requested_hz);
        self.clock_register = divider.register;
        self.clock_hz = divider.clock_hz;
        self.programmed_user = NOTHING;
        (divider.clock_hz, (SPI_CLOCK, divider.register))
    }

    /// What to store before `count` bits are clocked out, least significant
    /// first. SWDIO must already be an output. Nothing, and no transfer either,
    /// for no bits.
    ///
    /// One transaction per field, always. Splitting a field across two
    /// transactions — even at the word boundary, even for the single trailing
    /// parity bit — breaks it: whatever the pad does in the gap between two
    /// transactions, the target sees it, so fields must not contain gaps.
    pub fn write_bits(&mut self, bits: u64, count: u8) -> (writes: Vec<(u32, u32)>)
        requires
            count <= MAX_BURST_BITS,
        ensures
            if count == 0 {
                *final(self) == *old(self) && writes@.len() == 0
            } else {
                *final(self) == field_prepared(*old(self), Phase::Drive, count) && writes@
                    == buffer_writes(bits) + field_writes(*old(self), Phase::Drive, count)
            },
    {
        let mut writes: Vec<(u32, u32)> = Vec::new();
        if count == 0 {
            return writes;
        }
        writes.push((SPI_W0, (bits % 0x1_0000_0000) as u32));
        writes.push((SPI_W1, (bits / 0x1_0000_0000) as u32));
        assert(writes@ =~= buffer_writes(bits));
        self.run(Phase::Drive, count, &mut writes);
        writes
    }

    /// What to store before `count` bits are clocked in, least significant
    /// first. SWDIO must already be released.
    pub fn read_bits(&mut self, count: u8) -> (writes: Vec<(u32, u32)>)
        requires
            count <= MAX_BURST_BITS,
        ensures
            if count == 0 {
                *final(self) == *old(self) && writes@.len() == 0
            } else {
                *final(self) == field_prepared(*old(self), Phase::Sample, count) && writes@
                    == field_writes(*old(self), Phase::Sample, count)
            },
    {
        let mut writes: Vec<(u32, u32)> = Vec::new();
        if count == 0 {
            return writes;
        }
        self.run(Phase::Sample, count, &mut writes);
        assert(writes@ =~= field_writes(*old(self), Phase::Sample, count));
        writes
    }

    /// The field that the two buffer words hold after a transfer.
    pub fn sampled(low: u32, high: u32, count: u8) -> (bits: u64)
        requires
            count <= MAX_BURST_BITS,
        ensures
            bits == buffered(low, high, count),
    {
        let value: u64 = low as u64 + high as u64 * 0x1_0000_0000;
        if count >= 64 {
            proof {
                lemma2_to64();
                assert(count == 64);
            }
            value
        } else {
            proof {
                lemma_u64_pow2_no_overflow(count as nat);
                lemma_pow2_pos(count as nat);
                lemma_u64_shl_is_mul(1, count as u64);
            }
            value % (1u64 << (count as u64))
        }
    }

    /// What to store before `count` bits are transmitted and the pad sampled at
    /// the same time.
    ///
    /// `FSPID` and `FSPIQ` are both routed to the SWDIO pad, so a full-duplex
    /// transfer reads back the peripheral's own output through the pad. That
    /// turns "what does GPSPI2 actually emit" from an inference off the
    /// target's pass/fail verdict into a direct measurement.
    ///
    /// Without the FIFO reset the peripheral does not read past the first
    /// buffer word.
    ///
    /// The caller must have SWDIO enabled as an output; with it released this
    /// samples the pull-up instead.
    pub fn loopback(&mut self, bits: u64, count: u8) -> (writes: Vec<(u32, u32)>)
        requires
            1 <= count,
        ensures
            *final(self) == (SpiWire {
                programmed_user: u32::MAX,
                programmed_dlen: u32::MAX,
                ..*old(self)
            }),
            writes@ == loopback_writes(*old(self), bits, count),
    {
        self.programmed_user = NOTHING;
        self.programmed_dlen = NOTHING;
        let mut writes: Vec<(u32, u32)> = Vec::new();
        writes.push((SPI_DMA_CONF, DMA_CONF_FIFO_RST));
        writes.push((SPI_DMA_CONF, 0));
        writes.push((SPI_W0, (bits % 0x1_0000_0000) as u32));
        writes.push((SPI_W1, (bits / 0x1_0000_0000) as u32));
        writes.push((SPI_MS_DLEN, count as u32 - 1));
        writes.push((SPI_USER, USER_LOOPBACK));
        writes.push((SPI_CLOCK, self.clock_register));
        assert(writes@ =~= loopback_writes(*old(self), bits, count));
        writes
    }

    /// Adds the stores that prepare one field.
    fn run(&mut self, phase: Phase, count: u8, writes: &mut Vec<(u32, u32)>)
        requires
            1 <= count <= MAX_BURST_BITS,
        ensures
            *final(self) == field_prepared(*old(self), phase, count),
            final(writes)@ == old(writes)@ + field_writes(*old(self), phase, count),
    {
        let dlen: u32 = count as u32 - 1;
        if dlen != self.programmed_dlen {
            writes.push((SPI_MS_DLEN, dlen));
            self.programmed_dlen = dlen;
        }
        let user: u32 = match phase {
            Phase::Drive => USER_USR_MOSI,
            Phase::Sample => USER_SAMPLE,
        };
        if user != self.programmed_user {
            writes.push((SPI_USER, user));
            writes.push((SPI_CLOCK, self.clock_register));
            self.programmed_user = user;
        }
        assert(writes@ =~= old(writes)@ + field_writes(*old(self), phase, count));
    }

    /// Counts a transfer that ran from `started` to `now` by the cycle counter.
    pub fn ran(&mut self, started: u32, now: u32)
        ensures
            *final(self) == (SpiWire {
                run_cycles: ((old(self).run_cycles + (now - started) % 0x1_0000_0000)
                    % 0x1_0000_0000) as u32,
                run_count: ((old(self).run_count + 1) % 0x1_0000_0000) as u32,
                ..*old(self)
            }),
    {
        let cycles: u32 = crate::cycles::elapsed(started, now);
        self.run_cycles = self.run_cycles.wrapping_add(cycles);
        self.run_count = self.run_count.wrapping_add(1);
    }

    /// Cycles spent inside GPSPI2 transactions, and how many there were.
    pub fn profile(&mut self, reset: bool) -> (sample: (u32, u32))
        ensures
            sample == (old(self).run_cycles, old(self).run_count),
            *final(self) == (if reset {
                SpiWire { run_cycles: 0, run_count: 0, ..*old(self) }
            } else {
                *old(self)
            }),
    {
        let sample: (u32, u32) = (self.run_cycles, self.run_count);
        if reset {
            self.run_cycles = 0;
            self.run_count = 0;
        }
        sample
    }
}

/// The peripheral's registers after each store in turn.
pub open spec fn registers_after(registers: Map<u32, u32>, writes: Seq<(u32, u32)>) -> Map<u32, u32>
    decreases writes.len(),
{
    if writes.len() == 0 {
        registers
    } else {
        registers_after(registers, writes.drop_last()).insert(writes.last().0, writes.last().1)
    }
}

/// Do the latched values tell what the peripheral holds?
pub open spec fn in_step(wire: SpiWire, registers: Map<u32, u32>) -> bool {
    &&& wire.programmed_dlen != u32::MAX ==> registers[SPI_MS_DLEN] == wire.programmed_dlen
    &&& wire.programmed_user != u32::MAX ==> registers[SPI_USER] == wire.programmed_user
        && registers[SPI_CLOCK] == wire.clock_register
}

/// Leaving out the stores that a transfer would only repeat changes nothing:
/// whatever was latched before, the peripheral ends up configured for exactly
/// this field, and the latches go on telling what it holds.
pub proof fn law_every_field_is_fully_configured(
    wire: SpiWire,
    phase: Phase,
    count: u8,
    registers: Map<u32, u32>,
)
    requires
        in_step(wire, registers),
        1 <= count <= MAX_BURST_BITS,
    ensures
        ({
            let after = registers_after(registers, field_writes(wire, phase, count));
            &&& after[SPI_MS_DLEN] == count - 1
            &&& after[SPI_USER] == user_of(phase)
            &&& after[SPI_CLOCK] == wire.clock_register
            &&& in_step(field_prepared(wire, phase, count), after)
        }),
{
    let writes = field_writes(wire, phase, count);
    reveal_with_fuel(registers_after, 4);
    let dlen = seq![(SPI_MS_DLEN, (count - 1) as u32)];
    let user = seq![(SPI_USER, user_of(phase)), (SPI_CLOCK, wire.clock_register)];
    assert(dlen.drop_last() =~= Seq::empty());
    assert(user.drop_last() =~= seq![(SPI_USER, user_of(phase))]);
    assert(user.drop_last().drop_last() =~= Seq::empty());
    if wire.programmed_dlen != count - 1 && wire.programmed_user != user_of(phase) {
        assert(writes.drop_last() =~= dlen + seq![(SPI_USER, user_of(phase))]);
        assert(writes.drop_last().drop_last() =~= dlen);
    } else if wire.programmed_dlen != count - 1 {
        assert(writes =~= dlen);
    } else if wire.programmed_user != user_of(phase) {
        assert(writes =~= user);
    }
}

/// What one end writes as two buffer words, the other reads back bit for bit.
pub proof fn law_a_field_is_read_back(bits: u64, count: u8)
    requires
        count <= MAX_BURST_BITS,
    ensures
        buffered(buffer_writes(bits)[0].1, buffer_writes(bits)[1].1, count) == bits as int % (pow2(
            count as nat,
        ) as int),
{
}

} // verus!
