use esprobe::pads::{MatrixGpio, SWCLK, SWDIO};

#[test]
fn channels_map_to_the_pins_they_were_given() {
    let pads = MatrixGpio::new(1, 2);
    assert_eq!(pads.mask_for(SWDIO), 1 << 1);
    assert_eq!(pads.mask_for(SWCLK), 1 << 2);
    assert_eq!(pads.mask_for(SWDIO | SWCLK), (1 << 1) | (1 << 2));
    assert_eq!(pads.mask_for(0), 0);
}

#[test]
fn a_pin_map_that_moved_moves_the_masks_with_it() {
    // The pins are a build-time override, so nothing may assume 1 and 2.
    let pads = MatrixGpio::new(7, 10);
    assert_eq!(pads.mask_for(SWDIO), 1 << 7);
    assert_eq!(pads.mask_for(SWCLK), 1 << 10);
}

#[test]
fn driving_a_level_sets_one_channel_and_clears_the_other() {
    // `drive` splits its argument into a set mask and a clear mask; getting
    // the complement wrong drives both pads the same way, which reads as a
    // wire that never clocks.
    let pads = MatrixGpio::new(1, 2);
    assert_eq!(pads.mask_for(SWCLK), 1 << 2, "set half");
    assert_eq!(
        pads.mask_for(!SWCLK & (SWDIO | SWCLK)),
        1 << 1,
        "clear half"
    );
}
