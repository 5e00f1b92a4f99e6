use esprobe::hub::{Hub, TargetError};
use esprobe::stm32g0::Error as DeviceError;
use esprobe::swd::wire::{
    AP_DRW_READ, AP_DRW_WRITE, AP_TAR, AP_TAR_READ, DP_CTRL_STAT_READ, DP_IDCODE, DP_RDBUFF,
};
use esprobe::swd::{Error, SwdIo, SwdLink, WordMemory};
use std::collections::HashMap;

const DPIDR: u32 = 0x0bc1_1477;

/// A target with a debug port and a MEM-AP whose auto-increment wraps at every
/// 1 KiB, behind fields of the wire.
struct Target {
    memory: HashMap<u32, u32>,
    tar: u32,
    posted: u32,
    request: u8,
    reply: u64,
    ack: u8,
    waits: u32,
    tars: Vec<u32>,
    released: bool,
    lines: (bool, bool),
}

impl Target {
    fn new() -> Target {
        Target {
            memory: HashMap::new(),
            tar: 0,
            posted: 0,
            request: 0,
            reply: 0,
            ack: 1,
            waits: 0,
            tars: Vec::new(),
            released: false,
            lines: (true, false),
        }
    }

    fn advance(&mut self) {
        self.tar = self.tar / 1024 * 1024 + (self.tar % 1024 + 4) % 1024;
    }

    fn take_request(&mut self, packet: u8) {
        self.request = packet >> 1 & 0xf;
        if self.waits > 0 {
            self.waits -= 1;
            self.ack = 2;
            return;
        }
        self.ack = 1;
        let word = match self.request {
            DP_IDCODE => DPIDR,
            DP_CTRL_STAT_READ => 0xf000_0000,
            DP_RDBUFF => self.posted,
            AP_DRW_READ => {
                let before = self.posted;
                self.posted = *self.memory.get(&self.tar).unwrap_or(&0);
                self.advance();
                before
            }
            AP_TAR_READ => self.tar,
            _ => 0,
        };
        self.reply = u64::from(word) | u64::from(word.count_ones() & 1) << 32;
    }

    fn take_data(&mut self, data: u32) {
        match self.request {
            AP_TAR => {
                self.tar = data;
                self.tars.push(data);
            }
            AP_DRW_WRITE => {
                self.memory.insert(self.tar, data);
                self.advance();
            }
            _ => {}
        }
    }
}

impl SwdIo for Target {
    fn set_swdio_output(&mut self) {}
    fn set_swdio_input(&mut self) {}
    fn set_swclk_output(&mut self) {}
    fn begin_transaction(&mut self) {}
    fn end_transaction(&mut self) {}
    fn write_swdio(&mut self, _high: bool) {}
    fn read_swdio(&mut self) -> bool {
        true
    }
    fn write_swclk(&mut self, _high: bool) {}
    fn delay_half_cycle(&mut self) {}
    fn delay_ms(&mut self, _milliseconds: u16) {}
    fn release(&mut self) {
        self.released = true;
    }
    fn sample_lines(&mut self) -> (bool, bool) {
        self.lines
    }
    fn write_bits(&mut self, value: u64, count: u8) {
        match count {
            8 => self.take_request(value as u8),
            33 => {
                let data = value as u32;
                assert_eq!(value >> 32, u64::from(data.count_ones() & 1), "write parity");
                self.take_data(data);
            }
            _ => {}
        }
    }
    fn read_bits(&mut self, count: u8) -> u64 {
        match count {
            3 => u64::from(self.ack),
            33 => self.reply,
            _ => 0,
        }
    }
    fn write_sequence(&mut self, _bytes: &[u8], _count: usize) {}
}

#[test]
fn a_block_write_is_read_back_across_regions() {
    let mut link = SwdLink::new(Target::new());
    let words: Vec<u32> = (0..600u32).map(|index| index.wrapping_mul(0x9e37_79b9)).collect();
    assert_eq!(link.write_words(0x2000_03f8, &words), Ok(()));
    let mut back = vec![0u32; 600];
    assert_eq!(link.read_words(0x2000_03f8, &mut back), Ok(()));
    assert_eq!(back, words);
    let target = link.into_io();
    // TAR is written at the start and at every boundary, for each of the two.
    assert_eq!(
        target.tars,
        [
            0x2000_03f8, 0x2000_0400, 0x2000_0800, 0x2000_0c00, 0x2000_03f8, 0x2000_0400,
            0x2000_0800, 0x2000_0c00
        ]
    );
    assert_eq!(target.memory.len(), 600);
    assert_eq!(target.memory.get(&0x2000_03f4), None);
}

#[test]
fn single_words_are_written_and_read() {
    let mut link = SwdLink::new(Target::new());
    assert_eq!(link.write_word(0x2000_0010, 0xdead_beef), Ok(()));
    assert_eq!(link.read_word(0x2000_0010), Ok(0xdead_beef));
    assert_eq!(link.read_word(0x2000_0012), Err(Error::Unaligned));
    assert_eq!(link.read_words(0x2000_0001, &mut [0]), Err(Error::Unaligned));
}

#[test]
fn a_waiting_target_is_asked_again() {
    let mut target = Target::new();
    target.waits = 3;
    let mut link = SwdLink::new(target);
    assert_eq!(link.raw_read_register(false, 0), Ok(DPIDR));
    let mut stuck = Target::new();
    stuck.waits = u32::MAX;
    let mut link = SwdLink::new(stuck);
    assert_eq!(link.raw_read_register(false, 0), Err(Error::WaitTimeout));
}

#[test]
fn a_target_that_answers_nothing_is_told_apart() {
    struct Silent;
    impl SwdIo for Silent {
        fn set_swdio_output(&mut self) {}
        fn set_swdio_input(&mut self) {}
        fn set_swclk_output(&mut self) {}
        fn begin_transaction(&mut self) {}
        fn end_transaction(&mut self) {}
        fn write_swdio(&mut self, _high: bool) {}
        fn read_swdio(&mut self) -> bool {
            true
        }
        fn write_swclk(&mut self, _high: bool) {}
        fn delay_half_cycle(&mut self) {}
        fn delay_ms(&mut self, _milliseconds: u16) {}
        fn release(&mut self) {}
        fn sample_lines(&mut self) -> (bool, bool) {
            (true, false)
        }
    }
    let mut link = SwdLink::new(Silent);
    assert_eq!(link.raw_read_register(false, 0), Err(Error::Protocol(7)));
    assert_eq!(link.initialize(), Err(Error::Protocol(7)));
}

#[test]
fn a_powered_target_is_brought_up() {
    let mut link = SwdLink::new(Target::new());
    assert_eq!(link.initialize(), Ok(DPIDR));
    link.disconnect();
    assert!(link.into_io().released);
}

#[test]
fn a_device_of_another_family_is_refused_and_let_go_of() {
    let mut target = Target::new();
    target.memory.insert(0x4001_5800, 0x0460);
    let mut hub = Hub::new(Some(SwdLink::new(target)), [0; 7]);
    assert_eq!(
        hub.probe_stm32(),
        Err(TargetError::Device(DeviceError::InvalidDevice(0x460)))
    );
    let mut target = Target::new();
    target.memory.insert(0x4001_5800, 0x2000_0466);
    let mut hub = Hub::new(Some(SwdLink::new(target)), [0; 7]);
    assert_eq!(hub.probe_stm32(), Ok((DPIDR, 0x2000_0466)));
    assert!(hub.swd.take().unwrap().into_io().released);
}

#[test]
fn an_access_port_write_is_probed_without_retries() {
    let mut link = SwdLink::new(Target::new());
    let (id_ack, write_ack, _, status) = link.ap_write_probe(0x2300_0052);
    assert_eq!((id_ack, write_ack), (1, 1));
    assert_eq!(status, 0xf000_0000);
}
