use esprobe::clock::{
    divider_for, DEFAULT_CLOCK_HZ, MAX_CLOCK_HZ, MIN_CLOCK_HZ, SOURCE_CLOCK_HZ,
};

#[test]
fn dividers_never_exceed_the_requested_swd_clock() {
    for target in [
        100_000, 250_000, 1_000_000, 4_000_000, 8_000_000, 10_000_000,
    ] {
        let divider = divider_for(SOURCE_CLOCK_HZ, target);
        assert!(
            divider.clock_hz <= target,
            "{target} Hz resolved to {} Hz",
            divider.clock_hz
        );
        let error = f64::from(target - divider.clock_hz) / f64::from(target);
        assert!(
            error < 0.1,
            "{target} Hz resolved to {} Hz",
            divider.clock_hz
        );
    }
}

#[test]
fn common_clocks_divide_exactly() {
    for target in [1_000_000, 2_000_000, 4_000_000, 5_000_000, 10_000_000] {
        assert_eq!(divider_for(SOURCE_CLOCK_HZ, target).clock_hz, target);
    }
}

#[test]
fn divider_fields_stay_inside_their_register_widths() {
    for target in [MIN_CLOCK_HZ, DEFAULT_CLOCK_HZ, MAX_CLOCK_HZ] {
        let register = divider_for(SOURCE_CLOCK_HZ, target).register;
        assert_eq!(register >> 31, 0, "the sysclk bypass must stay off");
        assert!(register >> 22 == 0, "no field may overflow into clkdiv_pre");
    }
}

#[test]
fn requests_outside_the_supported_range_are_clamped() {
    assert_eq!(
        divider_for(SOURCE_CLOCK_HZ, 1),
        divider_for(SOURCE_CLOCK_HZ, MIN_CLOCK_HZ)
    );
    assert_eq!(
        divider_for(SOURCE_CLOCK_HZ, 80_000_000),
        divider_for(SOURCE_CLOCK_HZ, MAX_CLOCK_HZ)
    );
}

#[test]
fn the_high_phase_is_half_the_period() {
    let register = divider_for(SOURCE_CLOCK_HZ, DEFAULT_CLOCK_HZ).register;
    let n = (register >> 12 & 0x3f) + 1;
    assert_eq!((register >> 6 & 0x3f) + 1, n / 2);
    assert_eq!(register & 0x3f, n - 1);
}
