use esprobe::pinmap;

#[test]
fn no_claimed_pin_is_one_the_chip_cannot_give_us() {
    // GPIO18 and GPIO19 are the USB D-/D+ pair this probe is reached over,
    // and GPIO12..=17 are the SPI flash the firmware runs from. Driving any
    // of them does not produce a signal, it produces a brick.
    for pin in pinmap::CLAIMED {
        assert!(
            !(18..=19).contains(&pin),
            "GPIO{pin} is the USB pair this board is talked to over"
        );
        assert!(
            !(12..=17).contains(&pin),
            "GPIO{pin} belongs to the SPI flash"
        );
    }
}

#[test]
fn every_claimed_pin_is_distinct() {
    // Two signals on one pad means one of them is driving the other's net.
    let mut seen = pinmap::CLAIMED;
    seen.sort_unstable();
    let mut index = 1;
    while index < seen.len() {
        assert_ne!(seen[index - 1], seen[index], "a pin is claimed twice");
        index += 1;
    }
}

#[test]
fn the_transmit_pin_is_the_one_wired_to_the_targets_receiver() {
    // Not a naming preference: reversed, two transmitters share one wire
    // and two receivers share the other, which reads as "alive and silent"
    // on both ends. That cost a day to find on a real harness once.
    assert_ne!(pinmap::UART_TX, pinmap::UART_RX);
}

#[test]
fn the_debug_port_does_not_share_a_pad_with_the_serial_port() {
    for uart in [pinmap::UART_TX, pinmap::UART_RX] {
        assert_ne!(uart, pinmap::SWDIO);
        assert_ne!(uart, pinmap::SWCLK);
        assert_ne!(uart, pinmap::RESET);
    }
}
