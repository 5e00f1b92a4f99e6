//! ESP32-C3 pad plumbing for the SWD wire.
//!
//! Two engines share the same two pads. GPSPI2 shifts every field that belongs
//! to a transfer, because hardware-generated SWCLK is both far faster and
//! immune to scheduler jitter. The dedicated-GPIO path stays for the pad-level
//! diagnostics — continuity checks, BOOT0 forcing, released-line sampling —
//! where the point is to hold a level rather than clock a field.
//!
//! Both engines drive the pad through the GPIO matrix, so switching between
//! them is a change of output signal. Output *enable* is deliberately taken
//! away from both peripherals and driven from `GPIO_ENABLE`, so exactly one
//! place decides whether this board drives another board's pin.
//!
//! This module decides; whoever owns the registers performs each [`Action`] in
//! order.

use crate::bits;
use crate::pads::{self, MatrixGpio, SWCLK, SWDIO};
use crate::spi_wire::{self, SpiWire};
use crate::swd::io;
use vstd::arithmetic::power2::*;
use vstd::bits::*;
use vstd::prelude::*;

pub mod laws;

verus! {

pub const GPIO_ENABLE_W1TS: u32 = 0x24;

pub const GPIO_ENABLE_W1TC: u32 = 0x28;

/// Fallback wire clock when GPSPI2 is not driving the pads.
pub const BIT_BANG_CLOCK_HZ: u32 = 500_000;

pub const BIT_BANG_MIN_CLOCK_HZ: u32 = 50_000;

/// Past this the software loop's own overhead, not the delay, sets the period,
/// so the request is honoured as "as fast as the loop goes".
pub const BIT_BANG_MAX_CLOCK_HZ: u32 = 20_000_000;

/// The slowest core that can time a half cycle of the fastest bit-banged clock.
pub const MIN_CPU_HZ: u32 = 40_000_000;

/// Roughly what one delay costs before it delays anything. Below this a
/// requested half-period is already covered by the loop itself, and polling the
/// counter would only make the clock slower than asked for.
pub const MIN_DELAY_CYCLES: u32 = 24;

/// How many bits the bit-bang loop is timed over.
pub const MEASURED_BITS: u32 = 256;

/// Which peripheral the pads are routed to.
#[derive(Clone, Copy, Debug, Eq, PartialEq, Structural)]
pub enum Driver {
    DedicatedGpio,
    Spi,
}

/// Which engine clocks the wire.
#[derive(Clone, Copy, Debug, Eq, PartialEq, Structural)]
pub enum Engine {
    /// GPSPI2 shifts each field in hardware. Fastest, and immune to jitter.
    Hardware,
    /// The CPU drives every edge, timed off the cycle counter. Slower, but it
    /// samples where the bring-up firmware sampled, so it is the reference the
    /// hardware engine is measured against.
    BitBang,
}

/// A signal of the GPIO matrix.
#[derive(Clone, Copy, Debug, Eq, PartialEq, Structural)]
pub enum Signal {
    DedicatedIn0,
    DedicatedIn1,
    SpiDataIn,
    DedicatedOut0,
    DedicatedOut1,
    SpiDataOut,
    SpiClockOut,
}

/// One thing to do to the pads.
#[derive(Clone, Copy, Debug, Eq, PartialEq, Structural)]
pub enum Action {
    /// Store a value in a register of the GPIO block.
    Gpio(u32, u32),
    /// Store a value in a register of GPSPI2.
    Spi(u32, u32),
    /// Issue the commands that start a transfer.
    Transfer,
    /// Feed a pad's level to a peripheral.
    Listen(u32, Signal),
    /// Point a pad at a peripheral's output.
    Route(u32, Signal),
    /// Set one dedicated-GPIO channel.
    Latch(u32, bool),
    /// Load the dedicated-GPIO latch with the levels the pads hold.
    HoldLevels,
    /// Stop the dedicated-GPIO channels from driving.
    StopChannels(u32),
    /// Set both dedicated-GPIO channels at once.
    Drive(u32),
    /// Wait for this many CPU cycles.
    Delay(u32),
    /// Sample SWDIO: the next bit of the field being read.
    Sample,
}

pub struct EspSwdIo {
    pub schematic_swdio_pin: u32,
    pub schematic_swclk_pin: u32,
    pub swdio_pin: u32,
    pub swclk_pin: u32,
    pub cpu_hz: u32,
    pub spi: SpiWire,
    pub driver: Driver,
    pub engine: Engine,
    pub half_cycle_cycles: u32,
}

/// Are the pins in the first bank, and can the core time a half cycle?
pub open spec fn well_formed(io: EspSwdIo) -> bool {
    &&& io.schematic_swdio_pin < 32
    &&& io.schematic_swclk_pin < 32
    &&& io.swdio_pin < 32
    &&& io.swclk_pin < 32
    &&& io.cpu_hz >= MIN_CPU_HZ
    &&& io.half_cycle_cycles >= 1
}

/// The pads as they are mapped.
pub open spec fn pads_of(io: EspSwdIo) -> MatrixGpio {
    MatrixGpio { swdio_mask: 1u32 << io.swdio_pin, swclk_mask: 1u32 << io.swclk_pin }
}

/// Each store as an action on the GPIO block.
pub open spec fn gpio(writes: Seq<(u32, u32)>) -> Seq<Action> {
    Seq::new(writes.len(), |i: int| Action::Gpio(writes[i].0, writes[i].1))
}

/// Each store as an action on GPSPI2.
pub open spec fn spi(writes: Seq<(u32, u32)>) -> Seq<Action> {
    Seq::new(writes.len(), |i: int| Action::Spi(writes[i].0, writes[i].1))
}

/// Driving exactly the named channels and releasing the others.
pub open spec fn enabling(io: EspSwdIo, channels: u32) -> Seq<Action> {
    gpio(
        pads::clear_then_set(
            GPIO_ENABLE_W1TC,
            pads::pins_of(pads_of(io), !channels),
            GPIO_ENABLE_W1TS,
            pads::pins_of(pads_of(io), channels),
        ),
    )
}

/// Pointing both pads at one engine's output signal.
pub open spec fn selecting(io: EspSwdIo, driver: Driver) -> Seq<Action> {
    if io.driver == driver {
        Seq::empty()
    } else {
        match driver {
            Driver::Spi => seq![
                Action::Latch(SWCLK, false),
                Action::Route(io.swdio_pin, Signal::SpiDataOut),
                Action::Route(io.swclk_pin, Signal::SpiClockOut),
            ],
            Driver::DedicatedGpio => seq![
                Action::HoldLevels,
                Action::Route(io.swdio_pin, Signal::DedicatedOut0),
                Action::Route(io.swclk_pin, Signal::DedicatedOut1),
            ],
        }
    }
}

/// Letting go of both lines, preloaded high.
pub open spec fn releasing(io: EspSwdIo) -> Seq<Action> {
    enabling(io, 0) + seq![Action::StopChannels(3)] + selecting(io, Driver::DedicatedGpio) + seq![
        Action::Latch(SWDIO, true),
        Action::Latch(SWCLK, true),
    ]
}

/// The pads bound as the schematic has them, or exchanged.
pub open spec fn mapped(io: EspSwdIo, swapped: bool) -> EspSwdIo {
    EspSwdIo {
        swdio_pin: if swapped {
            io.schematic_swclk_pin
        } else {
            io.schematic_swdio_pin
        },
        swclk_pin: if swapped {
            io.schematic_swdio_pin
        } else {
            io.schematic_swclk_pin
        },
        ..io
    }
}

/// Rebinding the pads: both lines are released first.
pub open spec fn mapping(io: EspSwdIo, swapped: bool) -> Seq<Action> {
    let bound = EspSwdIo { driver: Driver::Spi, ..mapped(io, swapped) };
    enabling(io, 0) + seq![
        Action::Listen(bound.swdio_pin, Signal::DedicatedIn0),
        Action::Listen(bound.swclk_pin, Signal::DedicatedIn1),
        Action::Listen(bound.swdio_pin, Signal::SpiDataIn),
    ] + selecting(bound, Driver::DedicatedGpio) + releasing(
        EspSwdIo { driver: Driver::DedicatedGpio, ..bound },
    )
}

/// The wait for half a bit-banged cycle, where the loop does not cover it.
pub open spec fn pausing(cycles: u32) -> Seq<Action> {
    if cycles <= MIN_DELAY_CYCLES {
        Seq::empty()
    } else {
        seq![Action::Delay(cycles)]
    }
}

/// One bit-banged bit: the data level is presented with SWCLK already low, so it
/// is stable over the rising edge the target samples on.
pub open spec fn bit_banged(bit: u32, half: u32) -> Seq<Action> {
    seq![Action::Drive(bit)] + pausing(half) + seq![Action::Drive((bit + SWCLK) as u32)] + pausing(
        half,
    )
}

/// A bit-banged field, least significant bit first.
pub open spec fn bits_banged(bits: nat, count: nat, half: u32) -> Seq<Action>
    decreases count,
{
    if count == 0 {
        Seq::empty()
    } else {
        bit_banged((bits % 2) as u32, half) + bits_banged(bits / 2, (count - 1) as nat, half)
    }
}

/// One bit sampled late in the low phase.
pub open spec fn bit_sampled(half: u32) -> Seq<Action> {
    seq![Action::Drive(0)] + pausing(half) + seq![Action::Sample, Action::Drive(SWCLK)] + pausing(
        half,
    )
}

/// A field sampled with the CPU driving every edge.
pub open spec fn bits_sampled(count: nat, half: u32) -> Seq<Action>
    decreases count,
{
    if count == 0 {
        Seq::empty()
    } else {
        bits_sampled((count - 1) as nat, half) + bit_sampled(half)
    }
}

/// The bit-banged clock that a hardware clock stands for.
pub open spec fn bit_bang_hz(effective_hz: u32) -> u32 {
    if effective_hz < BIT_BANG_MIN_CLOCK_HZ {
        BIT_BANG_MIN_CLOCK_HZ
    } else if effective_hz > BIT_BANG_MAX_CLOCK_HZ {
        BIT_BANG_MAX_CLOCK_HZ
    } else {
        effective_hz
    }
}

/// Adds each store to the actions.
fn push_gpio(out: &mut Vec<Action>, writes: &Vec<(u32, u32)>)
    ensures
        final(out)@ == old(out)@ + gpio(writes@),
{
    let mut at: usize = 0;
    assert(out@ =~= old(out)@ + gpio(writes@).take(0));
    while at < writes.len()
        invariant
            at <= writes@.len(),
            out@ == old(out)@ + gpio(writes@).take(at as int),
        decreases writes@.len() - at,
    {
        let write: (u32, u32) = writes[at];
        out.push(Action::Gpio(write.0, write.1));
        at += 1;
        assert(out@ =~= old(out)@ + gpio(writes@).take(at as int));
    }
    assert(gpio(writes@).take(at as int) =~= gpio(writes@));
}

/// How GPSPI2 frames a transfer: the clock that it borrows before the
/// acknowledgement it repays afterwards, a data field is padded to whole bytes,
/// a reply is read in one piece, and the resting level is left alone.
pub open spec fn gpspi_framing() -> io::Framing {
    io::Framing { lead: 0, trail: 2, padding: 7, whole: true, lazy: true }
}

/// The widest field of a sequence that has `count` bits left.
pub open spec fn burst_of(count: nat) -> u8 {
    if count < spi_wire::MAX_BURST_BITS {
        count as u8
    } else {
        spi_wire::MAX_BURST_BITS
    }
}

/// A sequence of bits shifted out by GPSPI2, a field at a time.
pub open spec fn sequence_shifted(wire: SpiWire, bytes: Seq<u8>, count: nat) -> Seq<Action>
    decreases count,
{
    if count == 0 {
        Seq::empty()
    } else {
        let burst = burst_of(count);
        let field = bits::value_of(io::byte_bits(bytes, burst as nat)) as u64;
        let prepared = spi_wire::field_prepared(wire, spi_wire::Phase::Drive, burst);
        spi(
            spi_wire::buffer_writes(field) + spi_wire::field_writes(
                wire,
                spi_wire::Phase::Drive,
                burst,
            ),
        ) + seq![Action::Transfer] + sequence_shifted(
            prepared,
            bytes.skip(8),
            (count - burst) as nat,
        )
    }
}

/// What GPSPI2 is set up for after a sequence: its last field.
pub open spec fn sequence_prepared(wire: SpiWire, count: nat) -> SpiWire
    decreases count,
{
    if count == 0 {
        wire
    } else {
        let burst = burst_of(count);
        sequence_prepared(
            spi_wire::field_prepared(wire, spi_wire::Phase::Drive, burst),
            (count - burst) as nat,
        )
    }
}

/// The `count` bits from byte `first` on, as one number.
fn field_of(bytes: &[u8], first: usize, count: u8) -> (field: u64)
    requires
        count <= spi_wire::MAX_BURST_BITS,
        8 * first + count <= 8 * bytes@.len(),
    ensures
        field == bits::value_of(io::byte_bits(bytes@.skip(first as int), count as nat)),
{
    let whole: u64 = io::gather(bytes, first, count);
    proof {
        bits::lemma_value_of_bits(whole as nat, count as nat);
        lemma2_to64();
    }
    if count < 64 {
        proof {
            lemma_u64_pow2_no_overflow(count as nat);
            lemma_pow2_pos(count as nat);
            lemma_u64_shl_is_mul(1, count as u64);
        }
        let limit: u64 = 1u64 << (count as u64);
        assert(limit as nat == pow2(count as nat));
        whole % limit
    } else {
        proof {
            lemma2_to64_rest();
            assert(pow2(count as nat) == 0x1_0000_0000_0000_0000);
            vstd::arithmetic::div_mod::lemma_small_mod(whole as nat, pow2(count as nat));
        }
        whole
    }
}

/// Adds each store to the actions.
fn push_spi(out: &mut Vec<Action>, writes: &Vec<(u32, u32)>)
    ensures
        final(out)@ == old(out)@ + spi(writes@),
{
    let mut at: usize = 0;
    assert(out@ =~= old(out)@ + spi(writes@).take(0));
    while at < writes.len()
        invariant
            at <= writes@.len(),
            out@ == old(out)@ + spi(writes@).take(at as int),
        decreases writes@.len() - at,
    {
        let write: (u32, u32) = writes[at];
        out.push(Action::Spi(write.0, write.1));
        at += 1;
        assert(out@ =~= old(out)@ + spi(writes@).take(at as int));
    }
    assert(spi(writes@).take(at as int) =~= spi(writes@));
}

fn push_pause(out: &mut Vec<Action>, cycles: u32)
    ensures
        final(out)@ == old(out)@ + pausing(cycles),
{
    if cycles > MIN_DELAY_CYCLES {
        out.push(Action::Delay(cycles));
    }
    assert(out@ =~= old(out)@ + pausing(cycles));
}

/// The clock that a timed run of the bit-bang loop shows.
pub fn measured_clock(cpu_hz: u32, elapsed: u32) -> (clock_hz: u32)
    ensures
        clock_hz == cpu_hz as int / (if elapsed < MEASURED_BITS {
            1
        } else {
            elapsed as int / MEASURED_BITS as int
        }),
{
    let per_bit: u32 = elapsed / MEASURED_BITS;
    if per_bit == 0 {
        cpu_hz
    } else {
        cpu_hz / per_bit
    }
}

impl EspSwdIo {
    /// Takes the SWDIO and SWCLK pads and the GPSPI2 shift register: the pads,
    /// and what to do to them.
    ///
    /// `swapped` exchanges which pad carries which signal without moving the
    /// logical channel numbering, so a reversed bench harness costs a command
    /// rather than a rebuild.
    pub fn new(swdio_pin: u32, swclk_pin: u32, swapped: bool, cpu_hz: u32, spi: SpiWire) -> (made: (
        EspSwdIo,
        Vec<Action>,
    ))
        requires
            swdio_pin < 32,
            swclk_pin < 32,
            cpu_hz >= MIN_CPU_HZ,
        ensures
            well_formed(made.0),
            ({
                let io = EspSwdIo {
                    schematic_swdio_pin: swdio_pin,
                    schematic_swclk_pin: swclk_pin,
                    swdio_pin,
                    swclk_pin,
                    cpu_hz,
                    spi,
                    driver: Driver::DedicatedGpio,
                    engine: Engine::Hardware,
                    half_cycle_cycles: (cpu_hz as int / (2 * BIT_BANG_CLOCK_HZ)) as u32,
                };
                made.0 == mapped(io, swapped) && made.1@ == mapping(io, swapped)
            }),
    {
        let mut io = EspSwdIo {
            schematic_swdio_pin: swdio_pin,
            schematic_swclk_pin: swclk_pin,
            swdio_pin,
            swclk_pin,
            cpu_hz,
            spi,
            driver: Driver::DedicatedGpio,
            engine: Engine::Hardware,
            half_cycle_cycles: cpu_hz / (2 * BIT_BANG_CLOCK_HZ),
        };
        let mut out: Vec<Action> = Vec::new();
        assert(2 * BIT_BANG_CLOCK_HZ == 1_000_000);
        assert(io.half_cycle_cycles == cpu_hz / 1_000_000u32);
        io.set_pin_map(swapped, &mut out);
        (io, out)
    }

    /// Rebinds the logical signals to the two pads. Both lines are released
    /// first, so a mid-session remap can never step on a live transfer.
    ///
    /// Derived from the schematic assignment, never from the current mapping:
    /// repeating the same request is idempotent, not a toggle.
    pub fn set_pin_map(&mut self, swapped: bool, out: &mut Vec<Action>)
        requires
            well_formed(*old(self)),
        ensures
            well_formed(*final(self)),
            *final(self) == (EspSwdIo {
                driver: Driver::DedicatedGpio,
                ..mapped(*old(self), swapped)
            }),
            final(out)@ == old(out)@ + mapping(*old(self), swapped),
    {
        self.set_output_enable(0, out);
        let (swdio_pin, swclk_pin): (u32, u32) = if swapped {
            (self.schematic_swclk_pin, self.schematic_swdio_pin)
        } else {
            (self.schematic_swdio_pin, self.schematic_swclk_pin)
        };
        self.swdio_pin = swdio_pin;
        self.swclk_pin = swclk_pin;
        out.push(Action::Listen(swdio_pin, Signal::DedicatedIn0));
        out.push(Action::Listen(swclk_pin, Signal::DedicatedIn1));
        out.push(Action::Listen(swdio_pin, Signal::SpiDataIn));
        // Force the routing write even when the engine is already selected:
        // the pads underneath it may have just changed.
        self.driver = Driver::Spi;
        self.select_driver(Driver::DedicatedGpio, out);
        self.release(out);
        assert(out@ =~= old(out)@ + mapping(*old(self), swapped));
    }

    pub fn set_engine(&mut self, engine: Engine, out: &mut Vec<Action>)
        requires
            well_formed(*old(self)),
        ensures
            well_formed(*final(self)),
            *final(self) == (EspSwdIo { driver: Driver::DedicatedGpio, engine, ..*old(self) }),
            final(out)@ == old(out)@ + releasing(*old(self)),
    {
        self.release(out);
        self.engine = engine;
    }

    pub fn engine(&self) -> (engine: Engine)
        ensures
            engine == self.engine,
    {
        self.engine
    }

    /// Sets the clock: what the hardware engine runs at from now on. The
    /// bit-bang loop cannot reach the frequencies GPSPI2 can, so it is clamped
    /// rather than left running open-loop at whatever the loop costs.
    pub fn set_clock_hz(&mut self, clock_hz: u32, out: &mut Vec<Action>) -> (effective_hz: u32)
        requires
            well_formed(*old(self)),
        ensures
            well_formed(*final(self)),
            effective_hz == final(self).spi.clock_hz,
            crate::clock::chosen(
                crate::clock::SOURCE_CLOCK_HZ,
                clock_hz,
                crate::clock::Divider {
                    register: final(self).spi.clock_register,
                    clock_hz: effective_hz,
                },
            ),
            *final(self) == (EspSwdIo {
                spi: SpiWire {
                    clock_register: final(self).spi.clock_register,
                    clock_hz: effective_hz,
                    programmed_user: u32::MAX,
                    ..old(self).spi
                },
                half_cycle_cycles: (old(self).cpu_hz as int / (2 * bit_bang_hz(
                    effective_hz,
                ))) as u32,
                ..*old(self)
            }),
            final(out)@ == old(out)@.push(
                Action::Spi(spi_wire::SPI_CLOCK, final(self).spi.clock_register),
            ),
    {
        let set: (u32, (u32, u32)) = self.spi.set_clock(clock_hz);
        let write: (u32, u32) = set.1;
        out.push(Action::Spi(write.0, write.1));
        let bit_bang: u32 = if set.0 < BIT_BANG_MIN_CLOCK_HZ {
            BIT_BANG_MIN_CLOCK_HZ
        } else if set.0 > BIT_BANG_MAX_CLOCK_HZ {
            BIT_BANG_MAX_CLOCK_HZ
        } else {
            set.0
        };
        self.half_cycle_cycles = self.cpu_hz / (2 * bit_bang);
        assert(self.half_cycle_cycles >= 1) by (nonlinear_arith)
            requires
                self.cpu_hz >= 40_000_000,
                0 < bit_bang <= 20_000_000,
                self.half_cycle_cycles == self.cpu_hz / (2 * bit_bang) as u32,
        ;
        set.0
    }

    /// The clock to report after [`EspSwdIo::set_clock_hz`]. Above the rate at
    /// which the delay stops being the limit, the requested figure is fiction;
    /// this reports what the loop was measured to do.
    pub fn reported_clock(&self, effective_hz: u32, measured_hz: u32) -> (clock_hz: u32)
        ensures
            clock_hz == (match self.engine {
                Engine::Hardware => effective_hz,
                Engine::BitBang => if bit_bang_hz(effective_hz) < measured_hz {
                    bit_bang_hz(effective_hz)
                } else {
                    measured_hz
                },
            }),
    {
        match self.engine {
            Engine::Hardware => effective_hz,
            Engine::BitBang => {
                let bit_bang: u32 = if effective_hz < BIT_BANG_MIN_CLOCK_HZ {
                    BIT_BANG_MIN_CLOCK_HZ
                } else if effective_hz > BIT_BANG_MAX_CLOCK_HZ {
                    BIT_BANG_MAX_CLOCK_HZ
                } else {
                    effective_hz
                };
                if bit_bang < measured_hz {
                    bit_bang
                } else {
                    measured_hz
                }
            },
        }
    }

    pub fn clock_hz(&self) -> (clock_hz: u32)
        requires
            well_formed(*self),
            self.half_cycle_cycles <= 0x7fff_ffff,
        ensures
            clock_hz == (match self.engine {
                Engine::Hardware => self.spi.clock_hz as int,
                Engine::BitBang => self.cpu_hz as int / (2 * self.half_cycle_cycles),
            }),
    {
        match self.engine {
            Engine::Hardware => self.spi.clock_hz(),
            Engine::BitBang => self.cpu_hz / (2 * self.half_cycle_cycles),
        }
    }

    /// Points both pads at one engine's output signal.
    ///
    /// The dedicated-GPIO latch is loaded with the level the pad already holds
    /// before handing it back, and SWCLK is latched low, as GPSPI2 idles it,
    /// before handing it over, so the changeover produces no edge of its own.
    pub fn select_driver(&mut self, driver: Driver, out: &mut Vec<Action>)
        requires
            well_formed(*old(self)),
        ensures
            well_formed(*final(self)),
            *final(self) == (EspSwdIo { driver, ..*old(self) }),
            final(out)@ == old(out)@ + selecting(*old(self), driver),
    {
        if self.driver == driver {
            assert(out@ =~= old(out)@ + selecting(*old(self), driver));
            return;
        }
        match driver {
            Driver::Spi => {
                out.push(Action::Latch(SWCLK, false));
                out.push(Action::Route(self.swdio_pin, Signal::SpiDataOut));
                out.push(Action::Route(self.swclk_pin, Signal::SpiClockOut));
            },
            Driver::DedicatedGpio => {
                out.push(Action::HoldLevels);
                out.push(Action::Route(self.swdio_pin, Signal::DedicatedOut0));
                out.push(Action::Route(self.swclk_pin, Signal::DedicatedOut1));
            },
        }
        self.driver = driver;
        assert(out@ =~= old(out)@ + selecting(*old(self), driver));
    }

    fn gpio_pads(&self) -> (gpio: MatrixGpio)
        requires
            well_formed(*self),
        ensures
            gpio == pads_of(*self),
    {
        MatrixGpio { swdio_mask: 1u32 << self.swdio_pin, swclk_mask: 1u32 << self.swclk_pin }
    }

    /// Drives exactly the requested channels and releases the others.
    pub fn set_output_enable(&self, channels: u32, out: &mut Vec<Action>)
        requires
            well_formed(*self),
        ensures
            final(out)@ == old(out)@ + enabling(*self, channels),
    {
        let gpio: MatrixGpio = self.gpio_pads();
        let writes: Vec<(u32, u32)> = pads::stores(
            GPIO_ENABLE_W1TC,
            gpio.mask_for(!channels),
            GPIO_ENABLE_W1TS,
            gpio.mask_for(channels),
        );
        push_gpio(out, &writes);
    }

    /// Drives the requested channels and leaves the others as they are.
    pub fn add_output_enable(&self, channels: u32, out: &mut Vec<Action>)
        requires
            well_formed(*self),
        ensures
            final(out)@ == old(out)@.push(
                Action::Gpio(GPIO_ENABLE_W1TS, pads::pins_of(pads_of(*self), channels)),
            ),
    {
        let gpio: MatrixGpio = self.gpio_pads();
        out.push(Action::Gpio(GPIO_ENABLE_W1TS, gpio.mask_for(channels)));
    }

    /// Releases the requested channels and leaves the others as they are.
    pub fn remove_output_enable(&self, channels: u32, out: &mut Vec<Action>)
        requires
            well_formed(*self),
        ensures
            final(out)@ == old(out)@.push(
                Action::Gpio(GPIO_ENABLE_W1TC, pads::pins_of(pads_of(*self), channels)),
            ),
    {
        let gpio: MatrixGpio = self.gpio_pads();
        out.push(Action::Gpio(GPIO_ENABLE_W1TC, gpio.mask_for(channels)));
    }

    /// Lets go of both lines.
    ///
    /// The dedicated-GPIO enable is cleared too, so neither path can drive a
    /// line while the bridge believes the target is released, and both latches
    /// are preloaded high so the next enabled transition does not start from a
    /// level that was only ever an artefact of the released bus.
    pub fn release(&mut self, out: &mut Vec<Action>)
        requires
            well_formed(*old(self)),
        ensures
            well_formed(*final(self)),
            *final(self) == (EspSwdIo { driver: Driver::DedicatedGpio, ..*old(self) }),
            final(out)@ == old(out)@ + releasing(*old(self)),
    {
        self.set_output_enable(0, out);
        out.push(Action::StopChannels(3));
        self.select_driver(Driver::DedicatedGpio, out);
        out.push(Action::Latch(SWDIO, true));
        out.push(Action::Latch(SWCLK, true));
        assert(out@ =~= old(out)@ + releasing(*old(self)));
    }

    /// Clocks out a field on the hardware engine.
    pub fn shift_out(&mut self, bits: u64, count: u8, out: &mut Vec<Action>)
        requires
            well_formed(*old(self)),
            1 <= count <= spi_wire::MAX_BURST_BITS,
        ensures
            well_formed(*final(self)),
            *final(self) == (EspSwdIo {
                driver: Driver::Spi,
                spi: spi_wire::field_prepared(old(self).spi, spi_wire::Phase::Drive, count),
                ..*old(self)
            }),
            final(out)@ == old(out)@ + selecting(*old(self), Driver::Spi) + spi(
                spi_wire::buffer_writes(bits) + spi_wire::field_writes(
                    old(self).spi,
                    spi_wire::Phase::Drive,
                    count,
                ),
            ) + seq![Action::Transfer],
    {
        self.select_driver(Driver::Spi, out);
        let writes: Vec<(u32, u32)> = self.spi.write_bits(bits, count);
        push_spi(out, &writes);
        out.push(Action::Transfer);
    }

    /// Clocks out a sequence of bits, the first byte's least significant bit
    /// first. GPSPI2 does it, whatever the engine.
    pub fn write_sequence(&mut self, bytes: &[u8], count: usize, out: &mut Vec<Action>)
        requires
            well_formed(*old(self)),
            count <= 8 * bytes@.len(),
        ensures
            well_formed(*final(self)),
            *final(self) == (EspSwdIo {
                driver: Driver::Spi,
                spi: sequence_prepared(old(self).spi, count as nat),
                ..*old(self)
            }),
            final(out)@ == old(out)@ + selecting(*old(self), Driver::Spi) + sequence_shifted(
                old(self).spi,
                bytes@,
                count as nat,
            ),
    {
        self.select_driver(Driver::Spi, out);
        let ghost start = out@;
        let ghost all = sequence_shifted(self.spi, bytes@, count as nat);
        let ghost end = sequence_prepared(self.spi, count as nat);
        let mut written: usize = 0;
        proof {
            assert(bytes@.skip(0) =~= bytes@);
            assert(out@ + all =~= start + all);
        }
        while written < count
            invariant
                written <= count,
                written % 8 == 0 || written == count,
                count <= 8 * bytes@.len(),
                well_formed(*self),
                *self == (EspSwdIo { driver: Driver::Spi, spi: self.spi, ..*old(self) }),
                sequence_prepared(self.spi, (count - written) as nat) == end,
                out@ + sequence_shifted(
                    self.spi,
                    bytes@.skip(written as int / 8),
                    (count - written) as nat,
                ) == start + all,
            decreases count - written,
        {
            let left: usize = count - written;
            let burst: u8 = if left < spi_wire::MAX_BURST_BITS as usize {
                left as u8
            } else {
                spi_wire::MAX_BURST_BITS
            };
            let ghost before = out@;
            let ghost wire = self.spi;
            let ghost tail = bytes@.skip(written as int / 8);
            let field: u64 = field_of(bytes, written / 8, burst);
            self.shift_out(field, burst, out);
            proof {
                let this = spi(
                    spi_wire::buffer_writes(field) + spi_wire::field_writes(
                        wire,
                        spi_wire::Phase::Drive,
                        burst,
                    ),
                ) + seq![Action::Transfer];
                let next = sequence_shifted(self.spi, tail.skip(8), (left - burst) as nat);
                assert(out@ =~= before + this);
                assert(sequence_shifted(wire, tail, left as nat) == this + next);
                assert(out@ + next =~= before + (this + next));
                if left > burst {
                    assert(tail.skip(8) =~= bytes@.skip((written + burst) as int / 8));
                } else {
                    assert(next =~= Seq::empty());
                }
            }
            written += burst as usize;
        }
        assert(out@ =~= start + all);
    }

    /// Clocks in a field on the hardware engine.
    pub fn shift_in(&mut self, count: u8, out: &mut Vec<Action>)
        requires
            well_formed(*old(self)),
            1 <= count <= spi_wire::MAX_BURST_BITS,
        ensures
            well_formed(*final(self)),
            *final(self) == (EspSwdIo {
                driver: Driver::Spi,
                spi: spi_wire::field_prepared(old(self).spi, spi_wire::Phase::Sample, count),
                ..*old(self)
            }),
            final(out)@ == old(out)@ + selecting(*old(self), Driver::Spi) + spi(
                spi_wire::field_writes(old(self).spi, spi_wire::Phase::Sample, count),
            ) + seq![Action::Transfer],
    {
        self.select_driver(Driver::Spi, out);
        let writes: Vec<(u32, u32)> = self.spi.read_bits(count);
        push_spi(out, &writes);
        out.push(Action::Transfer);
    }

    /// Clocks out a field with the CPU driving every edge, and leaves the line
    /// high, which is the idle state callers expect.
    pub fn bit_bang_write_bits(&mut self, bits: u64, count: u8, out: &mut Vec<Action>)
        requires
            well_formed(*old(self)),
        ensures
            well_formed(*final(self)),
            *final(self) == (EspSwdIo { driver: Driver::DedicatedGpio, ..*old(self) }),
            final(out)@ == old(out)@ + selecting(*old(self), Driver::DedicatedGpio) + bits_banged(
                bits as nat,
                count as nat,
                old(self).half_cycle_cycles,
            ) + seq![Action::Drive(3)],
    {
        self.select_driver(Driver::DedicatedGpio, out);
        let half: u32 = self.half_cycle_cycles;
        let ghost start = out@;
        let ghost all = bits_banged(bits as nat, count as nat, half);
        let mut rest: u64 = bits;
        let mut left: u8 = count;
        assert(out@ + all =~= start + all);
        while left > 0
            invariant
                out@ + bits_banged(rest as nat, left as nat, half) == start + all,
            decreases left,
        {
            let ghost before = out@;
            let data: u32 = (rest % 2) as u32;
            out.push(Action::Drive(data));
            push_pause(out, half);
            out.push(Action::Drive(data + SWCLK));
            push_pause(out, half);
            proof {
                assert(out@ =~= before + bit_banged(data, half));
                let next = bits_banged((rest / 2) as nat, (left - 1) as nat, half);
                assert(bits_banged(rest as nat, left as nat, half) == bit_banged(data, half)
                    + next);
                assert(out@ + next =~= before + (bit_banged(data, half) + next));
            }
            rest = rest / 2;
            left = left - 1;
        }
        assert(bits_banged(rest as nat, 0, half) =~= Seq::empty());
        assert(out@ =~= start + all);
        out.push(Action::Drive(SWDIO + SWCLK));
    }

    /// Samples a field with the CPU driving every edge.
    pub fn bit_bang_read_bits(&mut self, count: u8, out: &mut Vec<Action>)
        requires
            well_formed(*old(self)),
        ensures
            well_formed(*final(self)),
            *final(self) == (EspSwdIo { driver: Driver::DedicatedGpio, ..*old(self) }),
            final(out)@ == old(out)@ + selecting(*old(self), Driver::DedicatedGpio) + bits_sampled(
                count as nat,
                old(self).half_cycle_cycles,
            ),
    {
        self.select_driver(Driver::DedicatedGpio, out);
        let half: u32 = self.half_cycle_cycles;
        let ghost start = out@;
        let mut done: u8 = 0;
        assert(out@ =~= start + bits_sampled(0, half));
        while done < count
            invariant
                done <= count,
                out@ == start + bits_sampled(done as nat, half),
            decreases count - done,
        {
            let ghost before = out@;
            out.push(Action::Drive(0));
            push_pause(out, half);
            out.push(Action::Sample);
            out.push(Action::Drive(SWCLK));
            push_pause(out, half);
            done += 1;
            assert(out@ =~= before + bit_sampled(half));
            assert(out@ =~= start + bits_sampled(done as nat, half));
        }
    }

    /// Drives a pattern and samples the pad simultaneously, so what GPSPI2
    /// emits can be compared against what it was asked to emit.
    pub fn spi_loopback(&mut self, bits: u64, count: u8, out: &mut Vec<Action>)
        requires
            well_formed(*old(self)),
            1 <= count,
        ensures
            well_formed(*final(self)),
            *final(self) == (EspSwdIo {
                driver: Driver::DedicatedGpio,
                spi: SpiWire {
                    programmed_user: u32::MAX,
                    programmed_dlen: u32::MAX,
                    ..old(self).spi
                },
                ..*old(self)
            }),
            ({
                let handed = EspSwdIo { driver: Driver::Spi, ..*old(self) };
                final(out)@ == old(out)@ + selecting(*old(self), Driver::Spi) + enabling(handed, 3)
                    + spi(spi_wire::loopback_writes(old(self).spi, bits, count)) + seq![
                    Action::Transfer,
                ] + releasing(handed)
            }),
    {
        self.select_driver(Driver::Spi, out);
        self.set_output_enable(SWDIO + SWCLK, out);
        let writes: Vec<(u32, u32)> = self.spi.loopback(bits, count);
        push_spi(out, &writes);
        out.push(Action::Transfer);
        let ghost handed = EspSwdIo { driver: Driver::Spi, ..*old(self) };
        proof {
            assert(pads_of(*self) == pads_of(handed));
            assert(enabling(*self, 0) == enabling(handed, 0));
        }
        self.release(out);
    }

    /// Cycles spent inside GPSPI2 transactions, and how many there were.
    pub fn peripheral_profile(&mut self, reset: bool) -> (sample: (u32, u32))
        ensures
            sample == (old(self).spi.run_cycles, old(self).spi.run_count),
            *final(self) == (EspSwdIo {
                spi: if reset {
                    SpiWire { run_cycles: 0, run_count: 0, ..old(self).spi }
                } else {
                    old(self).spi
                },
                ..*old(self)
            }),
    {
        self.spi.profile(reset)
    }

    /// How many clocks a whole reply takes where it is read at once:
    /// acknowledgement, data, parity and both turnaround clocks. `None` where the
    /// acknowledgement is read first, and the rest only if it is the right one.
    ///
    /// Three peripheral round trips per word become two, and on this bus the
    /// sequencing costs far more than the clocks.
    pub fn reply_bits(&self) -> (count: Option<u8>)
        ensures
            count == (match self.engine {
                Engine::Hardware => Some(38u8),
                Engine::BitBang => None,
            }),
            count matches Some(clocks) ==> gpspi_framing().replies(true, clocks as nat)
                && gpspi_framing().replies(false, clocks as nat),
    {
        match self.engine {
            Engine::Hardware => Some(38),
            Engine::BitBang => None,
        }
    }

    /// How many clocks bring a data word and its parity in: on the hardware
    /// engine both turnaround clocks are part of the same transaction.
    pub fn data_phase_bits(&self) -> (count: u8)
        ensures
            count == (match self.engine {
                Engine::Hardware => 35u8,
                Engine::BitBang => 33u8,
            }),
            self.engine == Engine::Hardware ==> gpspi_framing().hands_back(count - 33),
    {
        match self.engine {
            Engine::Hardware => 35,
            Engine::BitBang => 33,
        }
    }

    /// Does a transaction have to be kept from interruption? GPSPI2 generates
    /// every edge from its own clock domain, so an interrupt between fields
    /// cannot deform its waveform, and stalling everything else for a whole
    /// block read would buy nothing.
    pub fn needs_quiet(&self) -> (yes: bool)
        ensures
            yes == (self.engine == Engine::BitBang),
    {
        match self.engine {
            Engine::Hardware => false,
            Engine::BitBang => true,
        }
    }

    /// The clocks that stand between a request and its acknowledgement.
    ///
    /// GPSPI2 samples on the falling edge, half a period earlier than the
    /// bit-bang engine sampling late in the low phase. The first clock of the
    /// read that follows therefore doubles as the turnaround.
    pub fn leading_turnaround_bits(&self) -> (count: u8)
        ensures
            count == (if self.engine == Engine::BitBang {
                1u8
            } else {
                0
            }),
            count == 1 || count == gpspi_framing().lead,
    {
        match self.engine {
            Engine::Hardware => 0,
            Engine::BitBang => 1,
        }
    }

    /// The clocks that hand the line back. The hardware engine repays the clock
    /// it borrowed on top of the protocol's own turnaround.
    pub fn trailing_turnaround_bits(&self) -> (count: u8)
        ensures
            count == (if self.engine == Engine::BitBang {
                1u8
            } else {
                2
            }),
            gpspi_framing().hands_back(count as int),
    {
        match self.engine {
            Engine::Hardware => 2,
            Engine::BitBang => 1,
        }
    }

    /// How many clocks carry a data word and its parity out. GPSPI2 transmits a
    /// partial byte in the second buffer word wrongly, so there the field is
    /// padded to five bytes with the zeros SWD requires of an idle line.
    pub fn data_field_bits(&self) -> (count: u8)
        ensures
            count == (if self.engine == Engine::BitBang {
                33u8
            } else {
                40
            }),
            gpspi_framing().pads((count - 33) as nat),
    {
        match self.engine {
            Engine::Hardware => 40,
            Engine::BitBang => 33,
        }
    }
}

/// A data word with its parity above it.
pub fn data_field(data: u32, parity: bool) -> (bits: u64)
    ensures
        bits == data + (if parity {
            0x1_0000_0000int
        } else {
            0
        }),
{
    if parity {
        data as u64 + 0x1_0000_0000
    } else {
        data as u64
    }
}

/// Mapping the pads twice is mapping them once, whatever they were mapped to
/// before: a request is never a toggle.
pub proof fn law_a_pin_map_request_is_idempotent(io: EspSwdIo, first: bool, swapped: bool)
    ensures
        mapped(mapped(io, swapped), swapped) == mapped(io, swapped),
        mapped(mapped(io, first), swapped) == mapped(io, swapped),
        mapped(io, true).swdio_pin == mapped(io, false).swclk_pin,
        mapped(io, true).swclk_pin == mapped(io, false).swdio_pin,
{
}

/// Releasing clears the output enable of both pads and sets that of none.
pub proof fn law_a_released_wire_drives_nothing(io: EspSwdIo, i: int)
    requires
        well_formed(io),
        0 <= i < releasing(io).len(),
    ensures
        releasing(io)[i] matches Action::Gpio(offset, value) ==> offset == GPIO_ENABLE_W1TC
            && value == (1u32 << io.swdio_pin) | (1u32 << io.swclk_pin),
        exists|j: int|
            0 <= j < releasing(io).len() && #[trigger] releasing(io)[j] == Action::Gpio(
                GPIO_ENABLE_W1TC,
                (1u32 << io.swdio_pin) | (1u32 << io.swclk_pin),
            ),
{
    let (p, q) = (io.swdio_pin, io.swclk_pin);
    let pads = pads_of(io);
    let both = (1u32 << p) | (1u32 << q);
    assert(!0u32 & 1 != 0 && !0u32 & 2 != 0 && 0u32 & 1 == 0 && 0u32 & 2 == 0 && 0u32 | 0u32 == 0)
        by (bit_vector);
    assert(both != 0) by (bit_vector)
        requires
            p < 32,
            q < 32,
            both == (1u32 << p) | (1u32 << q),
    ;
    assert(pads::pins_of(pads, !0u32) == both);
    assert(pads::pins_of(pads, 0) == 0);
    let writes = pads::clear_then_set(GPIO_ENABLE_W1TC, both, GPIO_ENABLE_W1TS, 0);
    assert(writes =~= seq![(GPIO_ENABLE_W1TC, both)]);
    assert(enabling(io, 0) =~= seq![Action::Gpio(GPIO_ENABLE_W1TC, both)]);
    assert(releasing(io)[0] == Action::Gpio(GPIO_ENABLE_W1TC, both));
}

} // verus!
