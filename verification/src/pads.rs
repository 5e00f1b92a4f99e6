//! Driving and sampling the two debug pads through the ordinary GPIO matrix.
//!
//! # Why "at once" matters
//!
//! A SWD edge is a new data level and a new clock level together. On a part
//! that cannot write both in one instruction, an edge is two stores, and the
//! pads are briefly inconsistent between them. That is harmless for SWD — the
//! target samples on the clock edge, which is the second of the two.
//!
//! Pads are addressed in *channels*, not pins: bit 0 is SWDIO and bit 1 is
//! SWCLK, matching the dedicated-GPIO channel numbering. [`MatrixGpio`] holds
//! the pin numbers so it can translate.

use vstd::prelude::*;

verus! {

/// Bit 0 of every channel mask: the data pad.
pub const SWDIO: u32 = 0b01;

/// Bit 1 of every channel mask: the clock pad.
pub const SWCLK: u32 = 0b10;

/// Offsets from the GPIO block's base. Identical across the family for the
/// first bank.
pub const OUT_W1TS: u32 = 0x08;

pub const OUT_W1TC: u32 = 0x0c;

pub const IN: u32 = 0x3c;

/// The ordinary GPIO matrix, through its output registers.
///
/// Portable to every part in the family, and correspondingly slower: an edge is
/// two stores rather than one, and sampling is a bus read rather than a CSR.
///
/// Addresses pins below 32 only. The first ESP32 carries GPIO32..=39 in a
/// second bank at different offsets, and 34..=39 are input-only; a debug pad
/// belongs in the first bank on every board worth wiring, so that bank is
/// simply not addressed here rather than half-supported.
pub struct MatrixGpio {
    pub swdio_mask: u32,
    pub swclk_mask: u32,
}

/// Does a mask name a channel?
pub open spec fn names(channels: u32, channel: u32) -> bool {
    channels & channel != 0
}

/// The pins of the named channels, as a register mask.
pub open spec fn pins_of(pads: MatrixGpio, channels: u32) -> u32 {
    (if names(channels, SWDIO) {
        pads.swdio_mask
    } else {
        0
    }) | (if names(channels, SWCLK) {
        pads.swclk_mask
    } else {
        0
    })
}

/// The stores that clear some pins and then set others, an empty one left out.
pub open spec fn clear_then_set(
    clear_at: u32,
    clear: u32,
    set_at: u32,
    set: u32,
) -> Seq<(u32, u32)> {
    (if clear != 0 {
        seq![(clear_at, clear)]
    } else {
        Seq::empty()
    }) + (if set != 0 {
        seq![(set_at, set)]
    } else {
        Seq::empty()
    })
}

/// Lists the stores that clear some pins and then set others.
pub fn stores(clear_at: u32, clear: u32, set_at: u32, set: u32) -> (writes: Vec<(u32, u32)>)
    ensures
        writes@ == clear_then_set(clear_at, clear, set_at, set),
{
    let mut writes: Vec<(u32, u32)> = Vec::new();
    if clear != 0 {
        writes.push((clear_at, clear));
    }
    if set != 0 {
        writes.push((set_at, set));
    }
    assert(writes@ =~= clear_then_set(clear_at, clear, set_at, set));
    writes
}

impl MatrixGpio {
    pub fn new(swdio_pin: i32, swclk_pin: i32) -> (pads: MatrixGpio)
        requires
            0 <= swdio_pin < 32,
            0 <= swclk_pin < 32,
        ensures
            pads.swdio_mask == 1u32 << swdio_pin,
            pads.swclk_mask == 1u32 << swclk_pin,
    {
        MatrixGpio { swdio_mask: 1u32 << swdio_pin, swclk_mask: 1u32 << swclk_pin }
    }

    /// The pins of the named channels.
    pub fn mask_for(&self, channels: u32) -> (mask: u32)
        ensures
            mask == pins_of(*self, channels),
    {
        let data: u32 = if channels & SWDIO != 0 {
            self.swdio_mask
        } else {
            0
        };
        let clock: u32 = if channels & SWCLK != 0 {
            self.swclk_mask
        } else {
            0
        };
        data | clock
    }

    /// The register stores that set both pads to the levels in `levels`.
    ///
    /// Both pads move, so both a set and a clear are needed. Clear first:
    /// between the two stores one pad already holds its new level, and a
    /// clock that falls early is a shorter high phase, where a clock that
    /// rises early would be an extra edge.
    pub fn drive(&self, levels: u32) -> (writes: Vec<(u32, u32)>)
        ensures
            writes@ == clear_then_set(
                OUT_W1TC,
                pins_of(*self, !levels),
                OUT_W1TS,
                pins_of(*self, levels),
            ),
    {
        stores(OUT_W1TC, self.mask_for(!levels), OUT_W1TS, self.mask_for(levels))
    }

    /// The register store that sets or clears one channel, leaving the other
    /// alone.
    pub fn latch(&self, channel: u32, high: bool) -> (write: (u32, u32))
        ensures
            write == (
                if high {
                    OUT_W1TS
                } else {
                    OUT_W1TC
                },
                pins_of(*self, channel),
            ),
    {
        (
            if high {
                OUT_W1TS
            } else {
                OUT_W1TC
            },
            self.mask_for(channel),
        )
    }

    /// The levels of both channels, given what the input register reads.
    pub fn levels(&self, raw: u32) -> (levels: u32)
        ensures
            levels == (if raw & self.swdio_mask != 0 {
                SWDIO
            } else {
                0
            }) | (if raw & self.swclk_mask != 0 {
                SWCLK
            } else {
                0
            }),
    {
        let data: u32 = if raw & self.swdio_mask != 0 {
            SWDIO
        } else {
            0
        };
        let clock: u32 = if raw & self.swclk_mask != 0 {
            SWCLK
        } else {
            0
        };
        data | clock
    }
}

/// An output register after a store to its write-one-to-clear or
/// write-one-to-set address.
pub open spec fn stored(out: u32, write: (u32, u32)) -> u32 {
    if write.0 == OUT_W1TS {
        out | write.1
    } else if write.0 == OUT_W1TC {
        out & !write.1
    } else {
        out
    }
}

/// An output register after each store in turn.
pub open spec fn all_stored(out: u32, writes: Seq<(u32, u32)>) -> u32
    decreases writes.len(),
{
    if writes.len() == 0 {
        out
    } else {
        stored(all_stored(out, writes.drop_last()), writes.last())
    }
}

/// Driving puts each pad at its own channel's level and moves no other pin.
pub proof fn law_driving_sets_each_pad_to_its_level(
    swdio_pin: u32,
    swclk_pin: u32,
    levels: u32,
    out: u32,
    pin: u32,
)
    requires
        swdio_pin < 32,
        swclk_pin < 32,
        swdio_pin != swclk_pin,
        pin < 32,
    ensures
        ({
            let pads = MatrixGpio {
                swdio_mask: 1u32 << swdio_pin,
                swclk_mask: 1u32 << swclk_pin,
            };
            let after = all_stored(
                out,
                clear_then_set(OUT_W1TC, pins_of(pads, !levels), OUT_W1TS, pins_of(pads, levels)),
            );
            names(after, 1u32 << pin) == (if pin == swdio_pin {
                names(levels, SWDIO)
            } else if pin == swclk_pin {
                names(levels, SWCLK)
            } else {
                names(out, 1u32 << pin)
            })
        }),
{
    let d = 1u32 << swdio_pin;
    let k = 1u32 << swclk_pin;
    let pads = MatrixGpio { swdio_mask: d, swclk_mask: k };
    let clear = pins_of(pads, !levels);
    let set = pins_of(pads, levels);
    let writes = clear_then_set(OUT_W1TC, clear, OUT_W1TS, set);
    let after = (out & !clear) | set;
    assert(out & !0u32 == out) by (bit_vector);
    assert(out | 0u32 == out && (out & !clear) | 0u32 == out & !clear) by (bit_vector);
    reveal_with_fuel(all_stored, 3);
    if clear != 0 && set != 0 {
        assert(writes.drop_last() =~= seq![(OUT_W1TC, clear)]);
        assert(writes.drop_last().drop_last() =~= Seq::empty());
    } else if clear != 0 {
        assert(writes =~= seq![(OUT_W1TC, clear)]);
        assert(writes.drop_last() =~= Seq::empty());
    } else if set != 0 {
        assert(writes =~= seq![(OUT_W1TS, set)]);
        assert(writes.drop_last() =~= Seq::empty());
    }
    assert(all_stored(out, writes) == after);
    let bit = 1u32 << pin;
    assert((after & bit != 0) == (if pin == swdio_pin {
        levels & 1 != 0
    } else if pin == swclk_pin {
        levels & 2 != 0
    } else {
        out & bit != 0
    })) by (bit_vector)
        requires
            swdio_pin < 32,
            swclk_pin < 32,
            swdio_pin != swclk_pin,
            pin < 32,
            d == 1u32 << swdio_pin,
            k == 1u32 << swclk_pin,
            bit == 1u32 << pin,
            clear == (if !levels & 1 != 0 {
                d
            } else {
                0u32
            }) | (if !levels & 2 != 0 {
                k
            } else {
                0u32
            }),
            set == (if levels & 1 != 0 {
                d
            } else {
                0u32
            }) | (if levels & 2 != 0 {
                k
            } else {
                0u32
            }),
            after == (out & !clear) | set,
    ;
}

/// Pins are set at offset 0x08 of the GPIO block and cleared at 0x0c; SWDIO is
/// the lowest bit of a mask of channels and SWCLK the next.
pub proof fn law_pins_are_set_and_cleared_where_the_block_has_them(
    pads: MatrixGpio,
    out: u32,
    mask: u32,
)
    ensures
        stored(out, (0x08, mask)) == out | mask,
        stored(out, (0x0c, mask)) == out & !mask,
        pins_of(pads, 1) == pads.swdio_mask | 0,
        pins_of(pads, 2) == 0 | pads.swclk_mask,
        pins_of(pads, 3) == pads.swdio_mask | pads.swclk_mask,
{
    assert(1u32 & 1 != 0 && 1u32 & 2 == 0 && 2u32 & 1 == 0 && 2u32 & 2 != 0 && 3u32 & 1 != 0 && 3u32
        & 2 != 0) by (bit_vector);
}

} // verus!
