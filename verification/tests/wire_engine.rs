use esprobe::clock::divider_for;
use esprobe::clock::SOURCE_CLOCK_HZ;
use esprobe::engine::{
    data_field, measured_clock, Action, Driver, Engine, EspSwdIo, Signal, GPIO_ENABLE_W1TC,
    GPIO_ENABLE_W1TS,
};
use esprobe::pads::{MatrixGpio, SWCLK, SWDIO};
use esprobe::spi_wire::{SpiWire, SPI_CLOCK, SPI_MS_DLEN, SPI_USER, SPI_W0, SPI_W1};

const CPU_HZ: u32 = 160_000_000;

fn io(swapped: bool) -> (EspSwdIo, Vec<Action>) {
    let (spi, _) = SpiWire::new(4_000_000, 0);
    EspSwdIo::new(1, 2, swapped, CPU_HZ, spi)
}

#[test]
fn a_pin_map_request_is_no_toggle() {
    let (mut io, _) = io(true);
    assert_eq!((io.swdio_pin, io.swclk_pin), (2, 1));
    let mut out = Vec::new();
    io.set_pin_map(true, &mut out);
    assert_eq!((io.swdio_pin, io.swclk_pin), (2, 1));
    assert_eq!(out[0], Action::Gpio(GPIO_ENABLE_W1TC, 0b110));
    assert!(out.contains(&Action::Listen(2, Signal::SpiDataIn)));
    io.set_pin_map(false, &mut out);
    assert_eq!((io.swdio_pin, io.swclk_pin), (1, 2));
}

#[test]
fn a_released_wire_drives_nothing() {
    let (mut io, _) = io(false);
    let mut out = Vec::new();
    io.shift_out(0xa5, 8, &mut out);
    assert_eq!(io.driver, Driver::Spi);
    out.clear();
    io.release(&mut out);
    assert_eq!(
        out,
        [
            Action::Gpio(GPIO_ENABLE_W1TC, 0b110),
            Action::StopChannels(3),
            Action::HoldLevels,
            Action::Route(1, Signal::DedicatedOut0),
            Action::Route(2, Signal::DedicatedOut1),
            Action::Latch(SWDIO, true),
            Action::Latch(SWCLK, true),
        ]
    );
}

#[test]
fn a_field_that_repeats_its_shape_is_not_configured_again() {
    let (mut io, _) = io(false);
    let mut first = Vec::new();
    io.shift_out(0x1_0000_00a5, 40, &mut first);
    assert!(first.contains(&Action::Spi(SPI_W0, 0xa5)));
    assert!(first.contains(&Action::Spi(SPI_W1, 1)));
    assert!(first.contains(&Action::Spi(SPI_MS_DLEN, 39)));
    let mut second = Vec::new();
    io.shift_out(0x5a, 40, &mut second);
    assert_eq!(second.len(), 3);
    assert_eq!(second[2], Action::Transfer);
    let mut third = Vec::new();
    io.shift_in(35, &mut third);
    assert!(third.iter().any(|action| matches!(action, Action::Spi(SPI_USER, _))));
}

#[test]
fn bits_are_banged_with_the_data_up_before_the_clock() {
    let (mut io, _) = io(false);
    let mut out = Vec::new();
    io.bit_bang_write_bits(0b01, 2, &mut out);
    let half = io.half_cycle_cycles;
    assert_eq!(half, 160);
    assert_eq!(
        out,
        [
            Action::Drive(1),
            Action::Delay(half),
            Action::Drive(3),
            Action::Delay(half),
            Action::Drive(0),
            Action::Delay(half),
            Action::Drive(2),
            Action::Delay(half),
            Action::Drive(3),
        ]
    );
    out.clear();
    io.bit_bang_read_bits(1, &mut out);
    assert_eq!(
        out,
        [
            Action::Drive(0),
            Action::Delay(half),
            Action::Sample,
            Action::Drive(2),
            Action::Delay(half),
        ]
    );
}

#[test]
fn each_engine_has_its_own_field_widths() {
    let (mut io, _) = io(false);
    assert_eq!(
        (io.leading_turnaround_bits(), io.trailing_turnaround_bits(), io.data_field_bits()),
        (0, 2, 40)
    );
    assert_eq!((io.reply_bits(), io.data_phase_bits(), io.needs_quiet()), (Some(38), 35, false));
    io.set_engine(Engine::BitBang, &mut Vec::new());
    assert_eq!(io.engine(), Engine::BitBang);
    assert_eq!(
        (io.leading_turnaround_bits(), io.trailing_turnaround_bits(), io.data_field_bits()),
        (1, 1, 33)
    );
    assert_eq!((io.reply_bits(), io.data_phase_bits(), io.needs_quiet()), (None, 33, true));
    assert_eq!(data_field(5, true), 0x1_0000_0005);
    assert_eq!(data_field(5, false), 5);
}

#[test]
fn the_clock_reported_is_the_clock_there_is() {
    let (mut io, _) = io(false);
    let mut out = Vec::new();
    let effective = io.set_clock_hz(10_000_000, &mut out);
    assert_eq!(effective, 10_000_000);
    assert_eq!(
        out,
        [Action::Spi(SPI_CLOCK, divider_for(SOURCE_CLOCK_HZ, 10_000_000).register)]
    );
    assert_eq!(io.clock_hz(), 10_000_000);
    assert_eq!(io.reported_clock(effective, 3), 10_000_000);
    io.set_engine(Engine::BitBang, &mut out);
    assert_eq!(io.reported_clock(effective, 2_500_000), 2_500_000);
    assert_eq!(io.clock_hz(), 10_000_000);
    assert_eq!(measured_clock(CPU_HZ, 256 * 64), 2_500_000);
    assert_eq!(measured_clock(CPU_HZ, 3), CPU_HZ);
}

#[test]
fn a_loopback_drives_both_lines_and_lets_go() {
    let (mut io, _) = io(false);
    let mut out = Vec::new();
    io.spi_loopback(0x55, 8, &mut out);
    assert!(out.contains(&Action::Gpio(GPIO_ENABLE_W1TS, 0b110)));
    assert!(out.contains(&Action::Spi(SPI_USER, 0x1800_0001)));
    assert_eq!(out.last(), Some(&Action::Latch(SWCLK, true)));
    assert_eq!(io.driver, Driver::DedicatedGpio);
    // The next field configures everything again.
    out.clear();
    io.shift_in(8, &mut out);
    assert!(out.contains(&Action::Spi(SPI_MS_DLEN, 7)));
}

#[test]
fn a_sampled_field_is_cut_to_its_width() {
    assert_eq!(SpiWire::sampled(0xffff_ffff, 0xffff_ffff, 3), 7);
    assert_eq!(SpiWire::sampled(0x89ab_cdef, 0x0123_4567, 64), 0x0123_4567_89ab_cdef);
    assert_eq!(SpiWire::sampled(0, 1, 33), 0x1_0000_0000);
}

#[test]
fn the_peripheral_is_profiled() {
    let (mut io, _) = io(false);
    io.spi.ran(u32::MAX - 4, 5);
    io.spi.ran(100, 120);
    assert_eq!(io.peripheral_profile(true), (30, 2));
    assert_eq!(io.peripheral_profile(false), (0, 0));
}

#[test]
fn driving_the_pads_stores_what_is_set_and_what_is_cleared() {
    let pads = MatrixGpio::new(1, 2);
    let writes = pads.drive(SWCLK);
    let set: u32 = writes.iter().map(|(_, value)| value).sum();
    assert_eq!(writes.len(), 2);
    assert_eq!(set, 0b110);
    assert_eq!(pads.levels(0b100), SWCLK);
    assert_eq!(pads.levels(0b110), SWDIO | SWCLK);
    assert_ne!(pads.latch(SWDIO, true).0, pads.latch(SWDIO, false).0);
    assert_eq!(pads.latch(SWDIO, true).1, 0b10);
}

#[test]
fn a_sequence_is_shifted_whatever_the_engine() {
    let (mut io, _) = io(false);
    let mut out = Vec::new();
    io.set_engine(Engine::BitBang, &mut out);
    out.clear();
    let bytes = [0xff, 0xff, 0xff, 0xff, 0xff, 0xff, 0xff, 0x7f, 0x9e];
    io.write_sequence(&bytes, 68, &mut out);
    assert_eq!(io.driver, Driver::Spi);
    assert_eq!(io.engine(), Engine::BitBang);
    let words: Vec<&Action> = out
        .iter()
        .filter(|action| matches!(action, Action::Spi(SPI_W0, _) | Action::Spi(SPI_W1, _)))
        .collect();
    // A field of sixty-four bits and one of the four that are left.
    assert_eq!(
        words,
        [
            &Action::Spi(SPI_W0, 0xffff_ffff),
            &Action::Spi(SPI_W1, 0x7fff_ffff),
            &Action::Spi(SPI_W0, 0xe),
            &Action::Spi(SPI_W1, 0)
        ]
    );
    let transfers = out.iter().filter(|action| **action == Action::Transfer).count();
    assert_eq!(transfers, 2);
    assert!(out.contains(&Action::Spi(SPI_MS_DLEN, 63)));
    assert!(out.contains(&Action::Spi(SPI_MS_DLEN, 3)));
}
