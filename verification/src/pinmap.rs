//! GPIO assignment for the debug port.
//!
//! Deliberately not a runtime setting: the pins are claimed and driven during
//! start-up, so a firmware built for the wrong board drives outputs into
//! another board's outputs before anything could reconfigure it.
//!
//! The defaults suit a bare devkit with flying leads. A board that puts these
//! elsewhere overrides them at build time.

use crate::text;
use vstd::prelude::*;

verus! {

/// The debug port itself. These two are the whole probe.
pub const SWDIO: i32 = 1;

pub const SWCLK: i32 = 2;

/// Driven low to hold the target in reset, released to its pull-up otherwise.
/// Never driven high: the target's own pull-up sets the level, so a board whose
/// target is unpowered is not back-fed through this pin.
pub const RESET: i32 = 21;

/// An optional UART to the target, for a serial console or a vendor's ROM
/// bootloader. `TX` runs to the target's receiver and `RX` from its
/// transmitter.
pub const UART_TX: i32 = 3;

pub const UART_RX: i32 = 4;

/// Every pin this firmware claims, for reclaiming them from their reset
/// functions at start-up.
pub const CLAIMED: [i32; 5] = [SWDIO, SWCLK, RESET, UART_TX, UART_RX];

/// The highest GPIO of an ESP32-C3.
pub const LAST_GPIO: i32 = 21;

/// Is `text` a number that an ESP32-C3 has a GPIO for?
pub open spec fn names_a_gpio(text: Seq<char>) -> bool {
    (forall|i: int| 0 <= i < text.len() ==> text::is_digit(text[i])) && text::decimal_value(text)
        <= LAST_GPIO
}

/// A build-time pin override, or the default where there is none.
pub fn pin(override_value: Option<&str>, default: i32) -> (pin: i32)
    requires
        override_value matches Some(text) ==> names_a_gpio(text@),
    ensures
        pin == (match override_value {
            Some(text) => text::decimal_value(text@) as i32,
            None => default,
        }),
{
    match override_value {
        None => default,
        Some(text) => {
            let chars: Vec<char> = text::chars_of(text);
            let len: usize = chars.len();
            assert(chars@.subrange(0, len as int) =~= chars@);
            match text::read_decimal(chars.as_slice(), 0, len, LAST_GPIO as u64) {
                Some(number) => number as i32,
                None => default,
            }
        },
    }
}

} // verus!
