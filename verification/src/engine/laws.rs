//! What the pads and the peripheral come to when each action is performed.

use crate::bits;
use crate::engine::{self, Action, Driver, EspSwdIo, Signal};
use crate::pads;
use crate::spi_wire::{self, Phase, SpiWire};
use crate::swd::io;
use vstd::arithmetic::power2::*;
use vstd::prelude::*;

verus! {

/// The board as the actions leave it.
pub struct Board {
    /// The levels that the dedicated channels drive: SWDIO in bit 0, SWCLK in
    /// bit 1.
    pub level: u32,
    /// What the peripheral's registers hold.
    pub registers: Map<u32, u32>,
    /// Which signal each pad puts out.
    pub routed: Map<u32, Signal>,
    /// Which pads are driven, by pin.
    pub enabled: u32,
    /// What a target that looks at SWDIO on each rising edge of SWCLK has seen.
    pub heard: Seq<bool>,
    /// How many times SWDIO was sampled.
    pub samples: nat,
    /// Has SWDIO held still over each rising edge, and been sampled only while
    /// SWCLK was low?
    pub steady: bool,
}

impl Board {
    /// After one more action. The offsets are those of the chip's manual: the
    /// pads' output enable is set at 0x24 and cleared at 0x28; the peripheral's
    /// field is the words at 0x98 and 0x9c, one bit more of it than 0x1c says,
    /// and 0x10 says whether it is put out or taken in.
    pub open spec fn after(self, action: Action) -> Board {
        match action {
            Action::Drive(level) => {
                let rises = self.level / 2 % 2 == 0 && level / 2 % 2 == 1;
                Board {
                    level,
                    heard: if rises {
                        self.heard.push(level % 2 == 1)
                    } else {
                        self.heard
                    },
                    steady: self.steady && (rises ==> level % 2 == self.level % 2),
                    ..self
                }
            },
            Action::Sample => Board {
                samples: self.samples + 1,
                steady: self.steady && self.level / 2 % 2 == 0,
                ..self
            },
            Action::Spi(offset, value) => Board {
                registers: self.registers.insert(offset, value),
                ..self
            },
            Action::Route(pin, signal) => Board {
                routed: self.routed.insert(pin, signal),
                ..self
            },
            Action::Gpio(offset, value) => Board {
                enabled: if offset == 0x24 {
                    self.enabled | value
                } else if offset == 0x28 {
                    self.enabled & !value
                } else {
                    self.enabled
                },
                ..self
            },
            Action::Transfer => {
                let count = (self.registers[0x1c] + 1) as nat;
                let field = (self.registers[0x98] + self.registers[0x9c] * 0x1_0000_0000) as nat;
                if self.registers[0x10] == 0x800_0000 {
                    Board { heard: self.heard + bits::bits_of(field, count), ..self }
                } else if self.registers[0x10] == 0x1000_0200 {
                    Board { samples: self.samples + count, ..self }
                } else {
                    self
                }
            },
            _ => self,
        }
    }

    /// After each action in turn.
    pub open spec fn run(self, actions: Seq<Action>) -> Board
        decreases actions.len(),
    {
        if actions.len() == 0 {
            self
        } else {
            self.run(actions.drop_last()).after(actions.last())
        }
    }

    /// Are the pads where the driver believes them, and the peripheral as it is
    /// latched?
    pub open spec fn stands(self, io: EspSwdIo) -> bool {
        &&& spi_wire::in_step(io.spi, self.registers)
        &&& io.swdio_pin != io.swclk_pin
        &&& io.driver == Driver::Spi ==> self.shifts(io)
        &&& io.driver == Driver::DedicatedGpio ==> self.held(io)
    }

    /// Does the peripheral put out both lines?
    pub open spec fn shifts(self, io: EspSwdIo) -> bool {
        self.routed[io.swdio_pin] == Signal::SpiDataOut && self.routed[io.swclk_pin]
            == Signal::SpiClockOut
    }

    /// Do the dedicated channels put out both lines, SWDIO the first?
    pub open spec fn held(self, io: EspSwdIo) -> bool {
        self.routed[io.swdio_pin] == Signal::DedicatedOut0 && self.routed[io.swclk_pin]
            == Signal::DedicatedOut1
    }
}

proof fn lemma_run_both(board: Board, first: Seq<Action>, second: Seq<Action>)
    ensures
        board.run(first + second) == board.run(first).run(second),
    decreases second.len(),
{
    if second.len() == 0 {
        assert(first + second =~= first);
    } else {
        lemma_run_both(board, first, second.drop_last());
        assert((first + second).drop_last() =~= first + second.drop_last());
    }
}

proof fn lemma_run_one(board: Board, action: Action)
    ensures
        board.run(seq![action]) == board.after(action),
{
    assert(seq![action].drop_last() =~= Seq::empty());
    assert(board.run(Seq::empty()) == board);
}

proof fn lemma_run_spi(board: Board, writes: Seq<(u32, u32)>)
    ensures
        board.run(engine::spi(writes)) == (Board {
            registers: spi_wire::registers_after(board.registers, writes),
            ..board
        }),
    decreases writes.len(),
{
    if writes.len() > 0 {
        lemma_run_spi(board, writes.drop_last());
        assert(engine::spi(writes).drop_last() =~= engine::spi(writes.drop_last()));
    }
}

proof fn lemma_paused(board: Board, half: u32)
    ensures
        board.run(engine::pausing(half)) == board,
{
    if half > 24 {
        lemma_run_one(board, Action::Delay(half));
    }
}

proof fn lemma_one_bit(board: Board, bit: u32, half: u32)
    requires
        bit < 2,
    ensures
        board.run(engine::bit_banged(bit, half)) == (Board {
            level: (bit + 2) as u32,
            heard: board.heard.push(bit == 1),
            ..board
        }),
{
    let low = board.after(Action::Drive(bit));
    let high = low.after(Action::Drive((bit + 2) as u32));
    let a = seq![Action::Drive(bit)];
    let b = engine::pausing(half);
    let c = seq![Action::Drive((bit + 2) as u32)];
    lemma_run_one(board, Action::Drive(bit));
    lemma_paused(low, half);
    lemma_run_one(low, Action::Drive((bit + 2) as u32));
    lemma_paused(high, half);
    lemma_run_both(board, a, b);
    lemma_run_both(board, a + b, c);
    lemma_run_both(board, a + b + c, b);
}

/// A field that the CPU clocks out is heard bit for bit, the least significant
/// first, by a target that looks at SWDIO as SWCLK rises; SWDIO never moves as
/// it does.
pub proof fn law_a_banged_field_is_heard(board: Board, bits: nat, count: nat, half: u32)
    ensures
        ({
            let after = board.run(engine::bits_banged(bits, count, half));
            &&& after.heard == board.heard + bits::bits_of(bits, count)
            &&& after.steady == board.steady
            &&& after.samples == board.samples
            &&& after.routed == board.routed && after.enabled == board.enabled
        }),
    decreases count,
{
    if count == 0 {
        assert(board.heard + bits::bits_of(bits, count) =~= board.heard);
    } else {
        let bit = (bits % 2) as u32;
        let this = engine::bit_banged(bit, half);
        let rest = engine::bits_banged(bits / 2, (count - 1) as nat, half);
        lemma_one_bit(board, bit, half);
        lemma_run_both(board, this, rest);
        let middle = board.run(this);
        law_a_banged_field_is_heard(middle, bits / 2, (count - 1) as nat, half);
        assert(middle.heard + bits::bits_of(bits / 2, (count - 1) as nat) =~= board.heard
            + bits::bits_of(bits, count));
    }
}

proof fn lemma_one_sample(board: Board, half: u32)
    ensures
        board.run(engine::bit_sampled(half)) == (Board {
            level: 2,
            heard: board.heard.push(false),
            samples: board.samples + 1,
            ..board
        }),
{
    let low = board.after(Action::Drive(0));
    let seen = low.after(Action::Sample);
    let high = seen.after(Action::Drive(2));
    let a = seq![Action::Drive(0)];
    let b = engine::pausing(half);
    let c = seq![Action::Sample, Action::Drive(2)];
    lemma_run_one(board, Action::Drive(0));
    lemma_paused(low, half);
    lemma_run_one(low, Action::Sample);
    lemma_run_one(seen, Action::Drive(2));
    lemma_run_both(low, seq![Action::Sample], seq![Action::Drive(2)]);
    assert(seq![Action::Sample] + seq![Action::Drive(2)] =~= c);
    lemma_paused(high, half);
    lemma_run_both(board, a, b);
    lemma_run_both(board, a + b, c);
    lemma_run_both(board, a + b + c, b);
}

/// A field that the CPU clocks in takes as many samples as it has bits, each
/// while SWCLK is low and before the edge that ends the bit.
pub proof fn law_a_sampled_field_is_sampled_in_the_low_phase(board: Board, count: nat, half: u32)
    ensures
        ({
            let after = board.run(engine::bits_sampled(count, half));
            &&& after.samples == board.samples + count
            &&& after.heard.len() == board.heard.len() + count
            &&& after.steady == board.steady
            &&& after.routed == board.routed && after.enabled == board.enabled
        }),
    decreases count,
{
    if count > 0 {
        let before = engine::bits_sampled((count - 1) as nat, half);
        law_a_sampled_field_is_sampled_in_the_low_phase(board, (count - 1) as nat, half);
        lemma_run_both(board, before, engine::bit_sampled(half));
        lemma_one_sample(board.run(before), half);
    }
}

/// Whichever engine the pads were pointed at, selecting one points SWDIO and
/// SWCLK at its data and its clock; nothing else about the board changes.
pub proof fn law_selecting_routes_both_pads(board: Board, io: EspSwdIo, driver: Driver)
    requires
        board.stands(io),
    ensures
        ({
            let after = board.run(engine::selecting(io, driver));
            &&& driver == Driver::Spi ==> after.shifts(io)
            &&& driver == Driver::DedicatedGpio ==> after.held(io)
            &&& after.registers == board.registers && after.enabled == board.enabled
            &&& after.heard == board.heard && after.samples == board.samples
            &&& after.steady == board.steady && after.level == board.level
        }),
{
    let actions = engine::selecting(io, driver);
    if io.driver != driver {
        assert(actions.len() == 3);
        assert(actions.drop_last().drop_last().drop_last() =~= Seq::empty());
        let one = actions.drop_last().drop_last();
        let two = actions.drop_last();
        assert(board.run(one.drop_last()) == board);
        assert(board.run(one) == board.run(one.drop_last()).after(actions[0]));
        assert(board.run(two) == board.run(one).after(actions[1]));
        assert(board.run(actions) == board.run(two).after(actions[2]));
    }
}

/// The peripheral, once the stores for a field have been made.
proof fn lemma_field(registers: Map<u32, u32>, wire: SpiWire, phase: Phase, count: u8, bits: u64)
    requires
        spi_wire::in_step(wire, registers),
        1 <= count <= 64,
    ensures
        ({
            let fields = spi_wire::field_writes(wire, phase, count);
            let after = spi_wire::registers_after(
                registers,
                if phase == Phase::Drive {
                    spi_wire::buffer_writes(bits) + fields
                } else {
                    fields
                },
            );
            &&& after[0x1c] == count - 1
            &&& after[0x0c] == wire.clock_register
            &&& phase == Phase::Drive ==> after[0x10] == 0x800_0000 && after[0x98]
                + after[0x9c] * 0x1_0000_0000 == bits
            &&& phase == Phase::Sample ==> after[0x10] == 0x1000_0200
            &&& spi_wire::in_step(spi_wire::field_prepared(wire, phase, count), after)
        }),
{
    let fields = spi_wire::field_writes(wire, phase, count);
    if phase == Phase::Drive {
        let buffers = spi_wire::buffer_writes(bits);
        let loaded = spi_wire::registers_after(registers, buffers);
        assert(buffers.drop_last() =~= seq![buffers[0]]);
        assert(buffers.drop_last().drop_last() =~= Seq::empty());
        reveal_with_fuel(spi_wire::registers_after, 3);
        assert(loaded == registers.insert(0x98, buffers[0].1).insert(0x9c, buffers[1].1));
        lemma_stores_both(registers, buffers, fields);
        spi_wire::law_every_field_is_fully_configured(wire, phase, count, loaded);
        lemma_elsewhere(loaded, fields, 0x98);
        lemma_elsewhere(loaded, fields, 0x9c);
    } else {
        spi_wire::law_every_field_is_fully_configured(wire, phase, count, registers);
    }
}

proof fn lemma_stores_both(
    registers: Map<u32, u32>,
    first: Seq<(u32, u32)>,
    second: Seq<(u32, u32)>,
)
    ensures
        spi_wire::registers_after(registers, first + second) == spi_wire::registers_after(
            spi_wire::registers_after(registers, first),
            second,
        ),
    decreases second.len(),
{
    if second.len() == 0 {
        assert(first + second =~= first);
    } else {
        lemma_stores_both(registers, first, second.drop_last());
        assert((first + second).drop_last() =~= first + second.drop_last());
    }
}

proof fn lemma_elsewhere(registers: Map<u32, u32>, writes: Seq<(u32, u32)>, offset: u32)
    requires
        forall|i: int| 0 <= i < writes.len() ==> (#[trigger] writes[i]).0 != offset,
    ensures
        spi_wire::registers_after(registers, writes)[offset] == registers[offset],
    decreases writes.len(),
{
    if writes.len() > 0 {
        assert forall|i: int| 0 <= i < writes.drop_last().len() implies (
        #[trigger] writes.drop_last()[i]).0 != offset by {
            assert(writes[i].0 != offset);
        }
        lemma_elsewhere(registers, writes.drop_last(), offset);
        assert(writes[writes.len() - 1].0 != offset);
    }
}

proof fn lemma_shifted(board: Board, wire: SpiWire, bits: u64, count: u8)
    requires
        spi_wire::in_step(wire, board.registers),
        1 <= count <= 64,
    ensures
        ({
            let after = board.run(
                engine::spi(
                    spi_wire::buffer_writes(bits) + spi_wire::field_writes(
                        wire,
                        Phase::Drive,
                        count,
                    ),
                ) + seq![Action::Transfer],
            );
            &&& after == (Board {
                registers: after.registers,
                heard: board.heard + bits::bits_of(bits as nat, count as nat),
                ..board
            })
            &&& after.registers[0x0c] == wire.clock_register
            &&& spi_wire::in_step(
                spi_wire::field_prepared(wire, Phase::Drive, count),
                after.registers,
            )
        }),
{
    let writes = spi_wire::buffer_writes(bits) + spi_wire::field_writes(wire, Phase::Drive, count);
    lemma_run_both(board, engine::spi(writes), seq![Action::Transfer]);
    lemma_run_spi(board, writes);
    lemma_field(board.registers, wire, Phase::Drive, count, bits);
    lemma_run_one(board.run(engine::spi(writes)), Action::Transfer);
}

/// A field that the peripheral clocks out is heard bit for bit, the least
/// significant first, at the clock that was set and from the pads as they are
/// mapped.
pub proof fn law_a_shifted_field_is_heard(board: Board, io: EspSwdIo, bits: u64, count: u8)
    requires
        board.stands(io),
        1 <= count <= 64,
    ensures
        ({
            let after = board.run(
                engine::selecting(io, Driver::Spi) + engine::spi(
                    spi_wire::buffer_writes(bits) + spi_wire::field_writes(
                        io.spi,
                        Phase::Drive,
                        count,
                    ),
                ) + seq![Action::Transfer],
            );
            &&& after.heard == board.heard + bits::bits_of(bits as nat, count as nat)
            &&& after.shifts(io)
            &&& after.registers[0x0c] == io.spi.clock_register
            &&& after.samples == board.samples && after.enabled == board.enabled
        }),
{
    let routes = engine::selecting(io, Driver::Spi);
    let writes = engine::spi(
        spi_wire::buffer_writes(bits) + spi_wire::field_writes(io.spi, Phase::Drive, count),
    );
    law_selecting_routes_both_pads(board, io, Driver::Spi);
    lemma_run_both(board, routes, writes + seq![Action::Transfer]);
    assert(routes + (writes + seq![Action::Transfer]) =~= routes + writes + seq![Action::Transfer]);
    lemma_shifted(board.run(routes), io.spi, bits, count);
}

/// A field that the peripheral clocks in takes as many samples as it has bits,
/// and puts out none.
pub proof fn law_a_shifted_in_field_is_sampled(board: Board, io: EspSwdIo, count: u8)
    requires
        board.stands(io),
        1 <= count <= 64,
    ensures
        ({
            let after = board.run(
                engine::selecting(io, Driver::Spi) + engine::spi(
                    spi_wire::field_writes(io.spi, Phase::Sample, count),
                ) + seq![Action::Transfer],
            );
            &&& after.samples == board.samples + count
            &&& after.heard == board.heard
            &&& after.shifts(io)
            &&& after.registers[0x0c] == io.spi.clock_register
        }),
{
    let routes = engine::selecting(io, Driver::Spi);
    let fields = spi_wire::field_writes(io.spi, Phase::Sample, count);
    let writes = engine::spi(fields);
    law_selecting_routes_both_pads(board, io, Driver::Spi);
    let routed = board.run(routes);
    lemma_run_both(board, routes, writes);
    lemma_run_both(board, routes + writes, seq![Action::Transfer]);
    lemma_run_spi(routed, fields);
    lemma_field(routed.registers, io.spi, Phase::Sample, count, 0);
    lemma_run_one(routed.run(writes), Action::Transfer);
}

/// A sequence that the peripheral clocks out a field at a time is heard as one,
/// the first byte's least significant bit first.
pub proof fn law_a_shifted_sequence_is_heard(
    board: Board,
    wire: SpiWire,
    bytes: Seq<u8>,
    count: nat,
)
    requires
        spi_wire::in_step(wire, board.registers),
        count <= 8 * bytes.len(),
    ensures
        board.run(engine::sequence_shifted(wire, bytes, count)).heard == board.heard
            + io::byte_bits(bytes, count),
    decreases count,
{
    if count == 0 {
        assert(board.heard + io::byte_bits(bytes, count) =~= board.heard);
    } else {
        let burst = engine::burst_of(count);
        let here = io::byte_bits(bytes, burst as nat);
        let field = bits::value_of(here) as u64;
        bits::lemma_value_bound(here);
        bits::law_bits_of_undoes_value_of(here);
        lemma_pow2_at_most(burst as nat);
        assert(bits::bits_of(field as nat, burst as nat) == here);
        let this = engine::spi(
            spi_wire::buffer_writes(field) + spi_wire::field_writes(wire, Phase::Drive, burst),
        ) + seq![Action::Transfer];
        let next = engine::sequence_shifted(
            spi_wire::field_prepared(wire, Phase::Drive, burst),
            bytes.skip(8),
            (count - burst) as nat,
        );
        lemma_shifted(board, wire, field, burst);
        lemma_run_both(board, this, next);
        let rest = if count > burst {
            bytes.skip(8)
        } else {
            bytes
        };
        if count > burst {
            law_a_shifted_sequence_is_heard(
                board.run(this),
                spi_wire::field_prepared(wire, Phase::Drive, burst),
                rest,
                (count - burst) as nat,
            );
        }
        let tail = io::byte_bits(rest, (count - burst) as nat);
        assert(board.run(this).heard + tail =~= board.heard + io::byte_bits(bytes, count)) by {
            assert forall|i: int| burst <= i < count implies io::byte_bits(bytes, count)[i]
                == tail[i - burst] by {
                assert(burst == 64);
                assert((i - 64) / 8 == i / 8 - 8 && (i - 64) % 8 == i % 8);
                assert(bytes.skip(8)[i / 8 - 8] == bytes[i / 8]);
            }
        }
        assert(next.len() == 0 ==> board.run(this).run(next) == board.run(this));
    }
}

proof fn lemma_pow2_at_most(count: nat)
    requires
        count <= 64,
    ensures
        pow2(count) <= 0x1_0000_0000_0000_0000,
{
    lemma2_to64();
    lemma2_to64_rest();
    if count < 64 {
        lemma_pow2_strictly_increases(count, 64);
    }
}

/// Driving some channels drives exactly their pads, and leaves every other pin
/// as it was.
pub proof fn law_only_the_named_pads_are_driven(
    board: Board,
    io: EspSwdIo,
    channels: u32,
    pin: u32,
)
    requires
        io.swdio_pin < 32,
        io.swclk_pin < 32,
        io.swdio_pin != io.swclk_pin,
        pin < 32,
    ensures
        (board.run(engine::enabling(io, channels)).enabled & (1u32 << pin) != 0) == (if pin
            == io.swdio_pin {
            channels & 1 != 0
        } else if pin == io.swclk_pin {
            channels & 2 != 0
        } else {
            board.enabled & (1u32 << pin) != 0
        }),
{
    let (p, q, was) = (io.swdio_pin, io.swclk_pin, board.enabled);
    let d = 1u32 << p;
    let k = 1u32 << q;
    let clear = pads::pins_of(engine::pads_of(io), !channels);
    let set = pads::pins_of(engine::pads_of(io), channels);
    let writes = pads::clear_then_set(0x28, clear, 0x24, set);
    let actions = engine::enabling(io, channels);
    assert(actions =~= engine::gpio(writes));
    let after = (was & !clear) | set;
    assert(was & !0u32 == was && was | 0u32 == was && (was & !clear) | 0u32 == was & !clear)
        by (bit_vector);
    let clearing = Action::Gpio(0x28, clear);
    let setting = Action::Gpio(0x24, set);
    if clear != 0 && set != 0 {
        assert(actions =~= seq![clearing] + seq![setting]);
        lemma_run_both(board, seq![clearing], seq![setting]);
        lemma_run_one(board, clearing);
        lemma_run_one(board.after(clearing), setting);
    } else if clear != 0 {
        assert(actions =~= seq![clearing]);
        lemma_run_one(board, clearing);
    } else if set != 0 {
        assert(actions =~= seq![setting]);
        lemma_run_one(board, setting);
    } else {
        assert(actions =~= Seq::empty());
    }
    assert(board.run(actions).enabled == after);
    let bit = 1u32 << pin;
    assert((after & bit != 0) == (if pin == p {
        channels & 1 != 0
    } else if pin == q {
        channels & 2 != 0
    } else {
        was & bit != 0
    })) by (bit_vector)
        requires
            p < 32,
            q < 32,
            p != q,
            pin < 32,
            d == 1u32 << p,
            k == 1u32 << q,
            bit == 1u32 << pin,
            clear == (if !channels & 1 != 0 {
                d
            } else {
                0u32
            }) | (if !channels & 2 != 0 {
                k
            } else {
                0u32
            }),
            set == (if channels & 1 != 0 {
                d
            } else {
                0u32
            }) | (if channels & 2 != 0 {
                k
            } else {
                0u32
            }),
            after == (was & !clear) | set,
    ;
}

/// The pads are bound as the schematic has them unless they are to be
/// exchanged; the schematic itself stays.
pub proof fn law_an_exchange_is_of_the_schematic(io: EspSwdIo, swapped: bool)
    ensures
        ({
            let bound = engine::mapped(io, swapped);
            &&& !swapped ==> bound.swdio_pin == io.schematic_swdio_pin && bound.swclk_pin
                == io.schematic_swclk_pin
            &&& swapped ==> bound.swdio_pin == io.schematic_swclk_pin && bound.swclk_pin
                == io.schematic_swdio_pin
            &&& bound.schematic_swdio_pin == io.schematic_swdio_pin && bound.schematic_swclk_pin
                == io.schematic_swclk_pin
        }),
{
}

/// Rebinding lets go of the old pads first, and ends with the new ones listened
/// to, pointed at the dedicated channels and not driven.
pub proof fn law_rebinding_ends_released(board: Board, io: EspSwdIo, swapped: bool)
    requires
        engine::well_formed(io),
        io.swdio_pin != io.swclk_pin,
        io.schematic_swdio_pin != io.schematic_swclk_pin,
    ensures
        ({
            let bound = engine::mapped(io, swapped);
            let actions = engine::mapping(io, swapped);
            let after = board.run(actions);
            &&& after.held(bound)
            &&& after.enabled & (1u32 << bound.swdio_pin) == 0
            &&& after.enabled & (1u32 << bound.swclk_pin) == 0
            &&& actions.contains(Action::Listen(bound.swdio_pin, Signal::DedicatedIn0))
            &&& actions.contains(Action::Listen(bound.swclk_pin, Signal::DedicatedIn1))
            &&& actions.contains(Action::Listen(bound.swdio_pin, Signal::SpiDataIn))
            &&& actions[actions.len() - 2] == Action::Latch(1, true)
            &&& actions.last() == Action::Latch(2, true)
            &&& board.run(engine::enabling(io, 0)).enabled & (1u32 << io.swdio_pin) == 0
            &&& actions.take(engine::enabling(io, 0).len() as int) == engine::enabling(io, 0)
        }),
{
    let new = engine::mapped(io, swapped);
    let bound = EspSwdIo { driver: Driver::Spi, ..new };
    let held = EspSwdIo { driver: Driver::DedicatedGpio, ..new };
    let first = engine::enabling(io, 0);
    let listens = seq![
        Action::Listen(bound.swdio_pin, Signal::DedicatedIn0),
        Action::Listen(bound.swclk_pin, Signal::DedicatedIn1),
        Action::Listen(bound.swdio_pin, Signal::SpiDataIn),
    ];
    let routes = engine::selecting(bound, Driver::DedicatedGpio);
    let off = engine::enabling(held, 0);
    let last = seq![
        Action::StopChannels(3),
        Action::Latch(1, true),
        Action::Latch(2, true),
    ];
    let actions = engine::mapping(io, swapped);
    assert(0u32 & 1 == 0 && 0u32 & 2 == 0) by (bit_vector);
    assert(actions =~= first + listens + routes + off + last);
    assert(actions.take(first.len() as int) =~= first);
    assert(actions[first.len() as int] == listens[0]);
    assert(actions[first.len() as int + 1] == listens[1]);
    assert(actions[first.len() as int + 2] == listens[2]);
    law_only_the_named_pads_are_driven(board, io, 0, io.swdio_pin);
    lemma_run_both(board, first + listens, routes);
    lemma_run_both(board, first + listens + routes, off);
    lemma_run_both(board, first + listens + routes + off, last);
    let before = board.run(first + listens);
    let routed = before.run(routes);
    assert(routed.held(new)) by {
        assert(routes.drop_last().drop_last().drop_last() =~= Seq::empty());
        let two = routes.drop_last();
        assert(before.run(routes) == before.run(two).after(routes[2]));
        assert(before.run(two) == before.run(two.drop_last()).after(routes[1]));
    }
    law_only_the_named_pads_are_driven(routed, held, 0, new.swdio_pin);
    law_only_the_named_pads_are_driven(routed, held, 0, new.swclk_pin);
    lemma_only_enables(routed, held, 0);
    let released = routed.run(off);
    assert(last.drop_last().drop_last().drop_last() =~= Seq::empty());
    let two = last.drop_last();
    assert(released.run(last) == released.run(two).after(last[2]));
    assert(released.run(two) == released.run(two.drop_last()).after(last[1]));
    assert(released.run(two.drop_last()) == released.run(two.drop_last().drop_last()).after(last[0]));
}

proof fn lemma_only_enables(board: Board, io: EspSwdIo, channels: u32)
    ensures
        ({
            let after = board.run(engine::enabling(io, channels));
            after == (Board { enabled: after.enabled, ..board })
        }),
{
    let actions = engine::enabling(io, channels);
    assert(actions.len() <= 2);
    if actions.len() > 0 {
        let one = actions.drop_last();
        assert(board.run(actions) == board.run(one).after(actions.last()));
        if one.len() > 0 {
            assert(one.drop_last() =~= Seq::empty());
            assert(board.run(one) == board.run(one.drop_last()).after(one.last()));
        }
    }
}

/// The bit-banged clock follows the hardware one from 50 kHz to 20 MHz, and
/// half a cycle is the longest whole number of core cycles that is no slower
/// than it.
pub proof fn law_half_a_cycle_is_half_of_one(cpu_hz: u32, effective_hz: u32)
    ensures
        ({
            let hz = engine::bit_bang_hz(effective_hz);
            let half = cpu_hz as int / (2 * hz);
            &&& 50_000 <= effective_hz <= 20_000_000 ==> hz == effective_hz
            &&& effective_hz < 50_000 ==> hz == 50_000
            &&& effective_hz > 20_000_000 ==> hz == 20_000_000
            &&& 2 * half * hz <= cpu_hz < 2 * (half + 1) * hz
        }),
{
    let hz = engine::bit_bang_hz(effective_hz) as int;
    let half = cpu_hz as int / (2 * hz);
    let cpu = cpu_hz as int;
    assert(2 * half * hz <= cpu && cpu < 2 * (half + 1) * hz) by (nonlinear_arith)
        requires
            hz > 0,
            half == cpu / (2 * hz),
    ;
}

/// Half a bit is waited for as long as it is told, unless the loop itself takes
/// that long: up to 24 cycles.
pub proof fn law_a_short_pause_is_left_to_the_loop(half: u32)
    ensures
        half <= 24 ==> engine::pausing(half) == Seq::<Action>::empty(),
        half > 24 ==> engine::pausing(half) == seq![Action::Delay(half)],
{
}

/// Letting go of the pads takes their output enable away before anything else,
/// stops both dedicated channels, and leaves both of their latches high.
pub proof fn law_letting_go_leaves_both_latches_high(board: Board, io: EspSwdIo)
    requires
        engine::well_formed(io),
        board.stands(io),
    ensures
        ({
            let actions = engine::releasing(io);
            let after = board.run(actions);
            let n = actions.len() as int;
            &&& after.enabled & (1u32 << io.swdio_pin) == 0
            &&& after.enabled & (1u32 << io.swclk_pin) == 0
            &&& after.held(io)
            &&& after.heard == board.heard
            &&& actions.contains(Action::StopChannels(3))
            &&& n >= 2 && actions[n - 2] == Action::Latch(1, true) && actions[n - 1]
                == Action::Latch(2, true)
        }),
{
    let off = engine::enabling(io, 0);
    let stop = seq![Action::StopChannels(3)];
    let routes = engine::selecting(io, Driver::DedicatedGpio);
    let latches = seq![Action::Latch(1, true)] + seq![Action::Latch(2, true)];
    let actions = engine::releasing(io);
    assert(actions =~= off + stop + routes + latches);
    assert(actions[off.len() as int] == Action::StopChannels(3));
    assert(0u32 & 1 == 0 && 0u32 & 2 == 0) by (bit_vector);
    law_only_the_named_pads_are_driven(board, io, 0, io.swdio_pin);
    law_only_the_named_pads_are_driven(board, io, 0, io.swclk_pin);
    lemma_only_enables(board, io, 0);
    lemma_run_both(board, off, stop);
    lemma_run_both(board, off + stop, routes);
    lemma_run_both(board, off + stop + routes, latches);
    let released = board.run(off);
    lemma_run_one(released, Action::StopChannels(3));
    law_selecting_routes_both_pads(released, io, Driver::DedicatedGpio);
    let routed = released.run(routes);
    lemma_run_both(routed, seq![Action::Latch(1, true)], seq![Action::Latch(2, true)]);
    lemma_run_one(routed, Action::Latch(1, true));
    lemma_run_one(routed, Action::Latch(2, true));
}

} // verus!
