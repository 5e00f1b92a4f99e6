use esprobe::swd::wire::{DP_IDCODE, DP_SELECT, TRANSFER_OK, TRANSFER_WAIT};
use esprobe::swd::{
    auto_increment_words, packet_request, read_bit, wire_transfer, write_bit, Error, SwdIo, SwdLink,
};
use std::collections::VecDeque;


#[derive(Default)]
struct MockIo {
    samples: VecDeque<bool>,
    released: bool,
    transactions: usize,
    ended: usize,
    line_state: (bool, bool),
}

impl SwdIo for MockIo {
    fn set_swdio_output(&mut self) {}
    fn set_swdio_input(&mut self) {}
    fn set_swclk_output(&mut self) {}
    fn write_swdio(&mut self, _high: bool) {}
    fn read_swdio(&mut self) -> bool {
        self.samples.pop_front().unwrap_or(true)
    }
    fn write_swclk(&mut self, _high: bool) {}
    fn delay_half_cycle(&mut self) {}
    fn delay_ms(&mut self, _milliseconds: u16) {}
    fn release(&mut self) {
        self.released = true;
    }
    fn sample_lines(&mut self) -> (bool, bool) {
        self.line_state
    }
    fn begin_transaction(&mut self) {
        self.transactions += 1;
    }
    fn end_transaction(&mut self) {
        self.ended += 1;
        assert_eq!(self.ended, self.transactions);
    }
}

#[derive(Default)]
struct TimingIo {
    events: Vec<&'static str>,
}

impl SwdIo for TimingIo {
    fn set_swdio_output(&mut self) {}
    fn set_swdio_input(&mut self) {}
    fn set_swclk_output(&mut self) {}
    fn write_swdio(&mut self, high: bool) {
        self.events.push(if high { "dio1" } else { "dio0" });
    }
    fn read_swdio(&mut self) -> bool {
        self.events.push("read");
        true
    }
    fn write_swclk(&mut self, high: bool) {
        self.events.push(if high { "clk1" } else { "clk0" });
    }
    fn delay_half_cycle(&mut self) {
        self.events.push("delay");
    }
    fn delay_ms(&mut self, _milliseconds: u16) {}
    fn release(&mut self) {}
    fn sample_lines(&mut self) -> (bool, bool) {
        (false, false)
    }
    fn begin_transaction(&mut self) {
        self.events.push("begin");
    }
    fn end_transaction(&mut self) {
        self.events.push("end");
    }
}

#[test]
fn bit_primitives_change_and_sample_data_while_clock_is_low() {
    let mut output = TimingIo::default();
    write_bit(&mut output, true);
    assert_eq!(output.events, ["dio1", "clk0", "delay", "clk1", "delay"]);

    let mut input = TimingIo::default();
    assert!(read_bit(&mut input));
    assert_eq!(input.events, ["clk0", "delay", "read", "clk1", "delay"]);
}

#[test]
fn wire_read_accepts_odd_parity_and_returns_lsb_first_word() {
    let expected = 0xa55a_1234u32;
    // Turnaround period, then ACK OK least significant bit first.
    let mut samples = VecDeque::from([false, true, false, false]);
    samples.extend((0..32).map(|bit| expected >> bit & 1 != 0));
    samples.push_back(expected.count_ones() & 1 != 0);
    let mut io = MockIo {
        samples,
        ..Default::default()
    };
    let mut observed = 0;

    assert_eq!(
        wire_transfer(&mut io, DP_IDCODE, &mut observed),
        Ok(TRANSFER_OK)
    );
    assert_eq!(observed, expected);
}

#[test]
fn wire_read_rejects_bad_parity() {
    let expected = 0x0000_0001u32;
    // Turnaround period, then ACK OK least significant bit first.
    let mut samples = VecDeque::from([false, true, false, false]);
    samples.extend((0..32).map(|bit| expected >> bit & 1 != 0));
    samples.push_back(false);
    let mut io = MockIo {
        samples,
        ..Default::default()
    };

    assert_eq!(
        wire_transfer(&mut io, DP_IDCODE, &mut 0),
        Err(Error::Parity)
    );
}

#[test]
fn packet_request_matches_the_bit_by_bit_encoding() {
    for request in 0..16u8 {
        let expected = 1u64
            | u64::from(request & 1) << 1
            | u64::from(request >> 1 & 1) << 2
            | u64::from(request >> 2 & 1) << 3
            | u64::from(request >> 3 & 1) << 4
            | u64::from(request.count_ones() as u8 & 1) << 5
            | 1 << 7;
        assert_eq!(u64::from(packet_request(request)), expected);
    }
}

#[test]
fn default_bit_bursts_are_least_significant_bit_first() {
    let mut io = TimingIo::default();
    io.write_bits(0b10, 2);
    assert_eq!(
        io.events,
        [
            "dio0", "clk0", "delay", "clk1", "delay", "dio1", "clk0", "delay", "clk1", "delay"
        ]
    );

    let mut sequence = TimingIo::default();
    sequence.write_sequence(&[0x00, 0x01], 9);
    assert_eq!(sequence.events.iter().filter(|e| **e == "dio1").count(), 1);
    assert_eq!(sequence.events.iter().filter(|e| **e == "clk1").count(), 9);
}

#[test]
fn auto_increment_stops_at_each_kibibyte_boundary() {
    assert_eq!(auto_increment_words(0x0800_0000), 256);
    assert_eq!(auto_increment_words(0x0800_03fc), 1);
    assert_eq!(auto_increment_words(0x0800_0400), 256);
}

#[test]
fn block_reads_of_an_access_port_use_one_posted_transfer_per_word() {
    // ACK plus 32 data bits and parity for every posted response.
    let mut samples = VecDeque::new();
    for value in [0u32, 0x1111_1111, 0x2222_2222, 0x3333_3333] {
        samples.extend([false, true, false, false]);
        samples.extend((0..32).map(|bit| value >> bit & 1 != 0));
        samples.push_back(value.count_ones() & 1 != 0);
        // Trailing turnaround period before the line is driven again.
        samples.push_back(false);
    }
    let mut link = SwdLink::new(MockIo {
        samples,
        ..Default::default()
    });

    let mut values = [0u32; 3];
    assert_eq!(
        link.raw_read_register_block(true, 0x0c, &mut values),
        Ok(())
    );
    assert_eq!(values, [0x1111_1111, 0x2222_2222, 0x3333_3333]);
    // One priming transfer, one per word, and RDBUFF for the last value.
    assert_eq!(link.into_io().transactions, 4);
}

#[test]
fn disconnect_releases_programming_pins() {
    let mut link = SwdLink::new(MockIo::default());
    link.disconnect();
    assert!(link.into_io().released);
}

#[test]
fn initialize_refuses_to_drive_an_externally_low_swdio_line() {
    let mut link = SwdLink::new(MockIo {
        line_state: (false, false),
        ..Default::default()
    });

    assert_eq!(link.initialize(), Err(Error::LineHeldLow));
    let io = link.into_io();
    assert!(io.released);
    assert_eq!(io.transactions, 0);
}

/// What a granted read samples: the turnaround, the acknowledgement, the word,
/// its parity, and the turnaround back.
fn granted(value: u32) -> Vec<bool> {
    let mut samples = vec![false, true, false, false];
    samples.extend((0..32).map(|bit| value >> bit & 1 != 0));
    samples.push(value.count_ones() & 1 != 0);
    samples.push(false);
    samples
}

#[test]
fn a_refused_write_is_still_turned_round_and_ended() {
    let mut io = MockIo {
        samples: VecDeque::from([true, false, true, false, true, false]),
        ..Default::default()
    };
    let mut data = 7;
    assert_eq!(wire_transfer(&mut io, DP_SELECT, &mut data), Ok(TRANSFER_WAIT));
    assert_eq!(data, 7);
    // One for each turnaround and three for the acknowledgement.
    assert_eq!(io.samples, [false]);

    let mut io = MockIo {
        samples: VecDeque::from([true, false, true, false, true, false]),
        ..Default::default()
    };
    assert_eq!(wire_transfer(&mut io, DP_IDCODE, &mut data), Ok(TRANSFER_WAIT));
    assert_eq!(data, 7);
    assert_eq!(io.samples, [false]);
}

#[test]
fn a_transfer_runs_without_interruption() {
    let mut link = SwdLink::new(TimingIo::default());
    let _ = link.raw_write_register(false, 0, 0);
    let events = link.into_io().events;
    assert_eq!(events.first(), Some(&"begin"));
    assert_eq!(events.last(), Some(&"end"));
    let begun = events.iter().filter(|event| **event == "begin").count();
    let ended = events.iter().filter(|event| **event == "end").count();
    assert_eq!((begun, ended), (1, 1));
}

#[test]
fn a_write_probe_tells_what_was_sampled() {
    let powered = 0xf000_0000;
    let acked = [false, true, false, false, false];
    let mut samples = VecDeque::new();
    samples.extend(granted(0x0bc1_1477));
    samples.extend(acked);
    samples.extend(acked);
    samples.extend(acked);
    samples.extend(granted(powered));
    samples.extend(granted(powered));
    samples.extend(acked);
    samples.extend(granted(0xf000_0040));
    samples.extend(acked);
    samples.extend(granted(0xdead_beef));
    samples.extend(granted(powered));
    let mut link = SwdLink::new(MockIo {
        samples,
        ..Default::default()
    });
    assert_eq!(
        link.ap_write_handover_probe(powered, None, None),
        (1, 1, 0xf000_0000, 0xf000_0040)
    );
    assert!(link.into_io().samples.is_empty());
}
