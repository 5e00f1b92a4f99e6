//! What the timer that clocks the four bridge pins decides.
//!
//! All the planning lives in [`crate::stepper`]. The timer fires at a fixed
//! [`POLL_PERIOD_US`] rather than being armed for each step: a periodic timer
//! that runs late simply runs late, where a self-arming one that fails to
//! re-arm stops the motor mid-move with the windings still energised.

use crate::stepper::Coils;
use vstd::prelude::*;

verus! {

/// How often the bridges are refreshed.
///
/// Two polls per step at the maximum rate, so the interval a step actually
/// lands on is within half a poll of the one asked for.
pub const POLL_PERIOD_US: u64 = 500;

/// A self-test of the bridge pins: asked for by whoever wants to know,
/// performed by the timer, which alone owns the pins.
#[derive(Clone, Copy, Debug, Eq, PartialEq, Structural)]
pub struct SelfTest {
    pub requested: bool,
    pub done: bool,
    /// Two bits per pin, in `AIN1, AIN2, BIN1, BIN2` order: bit 0 of each pair
    /// is "read back high when driven high", bit 1 "read back low when driven
    /// low".
    pub result: u32,
}

/// What one pin read back: high when driven high, and low when driven low.
#[derive(Clone, Copy, Debug, Eq, PartialEq, Structural)]
pub struct Reading {
    pub high: bool,
    pub low: bool,
}

/// A reading's two bits.
pub open spec fn reading_bits(reading: Reading) -> int {
    (if reading.high {
        1int
    } else {
        0
    }) + (if reading.low {
        2int
    } else {
        0
    })
}

/// The result that four readings make.
pub open spec fn readings_bits(readings: [Reading; 4]) -> int {
    reading_bits(readings@[0]) + 4 * reading_bits(readings@[1]) + 16 * reading_bits(readings@[2])
        + 64 * reading_bits(readings@[3])
}

/// Ask the timer to drive each bridge pin and read the pad back.
pub fn request_selftest(test: &mut SelfTest)
    ensures
        *final(test) == (SelfTest { requested: true, done: false, ..*old(test) }),
{
    test.done = false;
    test.requested = true;
}

/// The result, once the timer has performed it.
#[must_use]
pub fn selftest_result(test: &SelfTest) -> (result: Option<u32>)
    ensures
        result == (if test.done {
            Some(test.result)
        } else {
            None
        }),
{
    if test.done {
        Some(test.result)
    } else {
        None
    }
}

fn bits_of(reading: Reading) -> (bits: u32)
    ensures
        bits == reading_bits(reading),
        bits <= 3,
{
    let high: u32 = if reading.high {
        1
    } else {
        0
    };
    let low: u32 = if reading.low {
        2
    } else {
        0
    };
    high + low
}

impl SelfTest {
    /// No test asked for and none done.
    pub fn new() -> (test: SelfTest)
        ensures
            test == (SelfTest { requested: false, done: false, result: 0 }),
    {
        SelfTest { requested: false, done: false, result: 0 }
    }

    /// Is a test to be performed now? Each request is taken once.
    pub fn take_request(&mut self) -> (requested: bool)
        ensures
            requested == old(self).requested,
            *final(self) == (SelfTest { requested: false, ..*old(self) }),
    {
        let requested: bool = self.requested;
        self.requested = false;
        requested
    }

    /// Records what the pins read back, one pin at a time, in `AIN1, AIN2,
    /// BIN1, BIN2` order.
    pub fn finish(&mut self, readings: [Reading; 4])
        ensures
            *final(self) == (SelfTest {
                done: true,
                result: readings_bits(readings) as u32,
                ..*old(self)
            }),
    {
        let a: u32 = bits_of(readings[0]);
        let b: u32 = bits_of(readings[1]);
        let c: u32 = bits_of(readings[2]);
        let d: u32 = bits_of(readings[3]);
        self.result = a + 4 * b + 16 * c + 64 * d;
        self.done = true;
    }
}

/// The levels last written to the bridge pins.
pub struct BridgePins {
    pub last: Coils,
}

impl BridgePins {
    /// Pins that were written low: coasting.
    pub fn new() -> (pins: BridgePins)
        ensures
            pins.last == crate::stepper::coils_of(0, 0),
    {
        BridgePins { last: Coils::released() }
    }

    /// What to write for these coils: nothing when the pins hold them already.
    ///
    /// At two kilohertz against step rates in the hundreds, most polls change
    /// nothing, and four register writes that set a pin to what it already is
    /// are still four register writes.
    pub fn update(&mut self, coils: Coils) -> (write: Option<Coils>)
        ensures
            final(self).last == coils,
            write == (if old(self).last == coils {
                None
            } else {
                Some(coils)
            }),
    {
        if coils == self.last {
            None
        } else {
            self.last = coils;
            Some(coils)
        }
    }

    /// The pins were just driven behind the planner's back, so the cache is
    /// made to disagree with anything the planner asks for.
    pub fn disturbed(&mut self)
        ensures
            final(self).last == (Coils { ain1: true, ain2: true, bin1: true, bin2: true }),
    {
        self.last = Coils { ain1: true, ain2: true, bin1: true, bin2: true };
    }
}

/// After a self-test the next poll writes the pins, whatever it asks for, for
/// no planner ever asks for a brake on both bridges.
pub proof fn law_disturbed_pins_are_written_again(coils: Coils)
    requires
        !coils.braked(),
    ensures
        coils != (Coils { ain1: true, ain2: true, bin1: true, bin2: true }),
{
}

/// All four pins pass exactly when the result is all ones.
pub proof fn law_a_full_result_means_every_pin_reads_back(readings: [Reading; 4])
    ensures
        readings_bits(readings) == 0xff <==> forall|i: int|
            0 <= i < 4 ==> (#[trigger] readings@[i]).high && readings@[i].low,
{
    let all = readings_bits(readings) == 0xff;
    if all {
        assert forall|i: int| 0 <= i < 4 implies (#[trigger] readings@[i]).high
            && readings@[i].low by {
            assert(i == 0 || i == 1 || i == 2 || i == 3);
        }
    } else if (forall|i: int| 0 <= i < 4 ==> (#[trigger] readings@[i]).high && readings@[i].low) {
        assert(readings@[0].high && readings@[1].high && readings@[2].high && readings@[3].high);
    }
}

/// Each pin has its two bits in the result, in the order of the readings: the
/// lower one says that it read back high, the upper one that it read back low.
pub proof fn law_each_pin_has_its_two_bits(readings: [Reading; 4])
    ensures
        ({
            let result = readings_bits(readings);
            &&& 0 <= result <= 255
            &&& readings@[0].high == (result % 2 == 1) && readings@[0].low == (result / 2 % 2 == 1)
            &&& readings@[1].high == (result / 4 % 2 == 1) && readings@[1].low == (result / 8 % 2
                == 1)
            &&& readings@[2].high == (result / 16 % 2 == 1) && readings@[2].low == (result / 32 % 2
                == 1)
            &&& readings@[3].high == (result / 64 % 2 == 1) && readings@[3].low == (result / 128 % 2
                == 1)
        }),
{
}

} // verus!
