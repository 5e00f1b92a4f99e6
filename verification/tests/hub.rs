use esprobe::frame::{Command, Status};
use esprobe::hub::{is_admissible, Action, Event, Hub, Move, Serial, Target, WifiControl};
use esprobe::swd::{SwdIo, SwdLink};
use esprobe::wifi;

#[derive(Default)]
struct Pads {
    released: usize,
    lines: (bool, bool),
}

impl SwdIo for Pads {
    fn set_swdio_output(&mut self) {}
    fn set_swdio_input(&mut self) {}
    fn set_swclk_output(&mut self) {}
    fn begin_transaction(&mut self) {}
    fn end_transaction(&mut self) {}
    fn write_swdio(&mut self, _high: bool) {}
    fn read_swdio(&mut self) -> bool {
        true
    }
    fn write_swclk(&mut self, _high: bool) {}
    fn delay_half_cycle(&mut self) {}
    fn delay_ms(&mut self, _milliseconds: u16) {}
    fn release(&mut self) {
        self.released += 1;
    }
    fn sample_lines(&mut self) -> (bool, bool) {
        self.lines
    }
}

/// A board that does as it is told, and remembers it.
struct Board {
    reset_high: bool,
    reset_held: bool,
    transmit: bool,
    stored: bool,
    fail_frame: bool,
    done: Vec<Action>,
}

impl Board {
    fn new() -> Board {
        Board {
            reset_high: true,
            reset_held: false,
            transmit: false,
            stored: false,
            fail_frame: false,
            done: Vec::new(),
        }
    }

    fn perform(&mut self, action: Action) -> Event {
        self.done.push(action);
        match action {
            Action::Reset { held, .. } => {
                self.reset_held = held;
                Event::Done
            }
            Action::ReadReset => Event::Level(self.reset_high && !self.reset_held),
            Action::ReadSelectors => Event::Levels(true, false),
            Action::Uart(Serial::Transmit { driven }) => {
                self.transmit = driven;
                Event::Done
            }
            Action::Uart(Serial::WriteFrame) if self.fail_frame => Event::Failed,
            Action::Uart(Serial::WriteFrame) => Event::Number(5),
            Action::Uart(Serial::Read { .. }) | Action::Uart(Serial::ReadOn { .. }) => {
                Event::Bytes(vec![0x79])
            }
            Action::SetClock { clock_hz } => Event::Number(clock_hz / 2),
            Action::ReadClock => Event::Number(4_000_000),
            Action::SetEngine(_) => Event::Number(500_000),
            Action::Loopback { bits, .. } => Event::Field(bits),
            Action::Store => {
                self.stored = true;
                Event::Done
            }
            _ => Event::Done,
        }
    }
}

fn finish(
    hub: &mut Hub<Pads>,
    board: &mut Board,
    control: &mut WifiControl,
    mut next: Move,
) -> (Status, Vec<u8>) {
    loop {
        match next {
            Move::Reply(status, payload) => return (status, payload),
            Move::Ask(action, job) => {
                let event = board.perform(action);
                next = hub.bridge_event(job, event, control);
            }
        }
    }
}

fn run(
    hub: &mut Hub<Pads>,
    board: &mut Board,
    control: &mut WifiControl,
    command: Command,
    payload: &[u8],
) -> (Status, Vec<u8>) {
    assert!(hub.gate(command).is_some() || is_admissible(command, payload));
    let next = hub.bridge_command(command, payload, control);
    finish(hub, board, control, next)
}

fn hub(lines: (bool, bool)) -> Hub<Pads> {
    let pads = Pads { released: 0, lines };
    Hub::new(Some(SwdLink::new(pads)), [1, 2, 21, 10, 20, 4, 3])
}

#[test]
fn a_bridge_says_what_it_is() {
    let (mut hub, mut board, mut control) = (hub((true, false)), Board::new(), WifiControl::new());
    assert_eq!(
        run(&mut hub, &mut board, &mut control, Command::Hello, &[]),
        (Status::Okay, b"DAP1".to_vec())
    );
    assert_eq!(
        run(&mut hub, &mut board, &mut control, Command::PinMap, &[]),
        (Status::Okay, vec![1, 2, 21, 10, 20, 4, 3])
    );
    assert_eq!(
        run(&mut hub, &mut board, &mut control, Command::Capabilities, &[]),
        (Status::Okay, vec![0, 4, 0, 0, 0, 9, 61, 0])
    );
    assert_eq!(
        run(&mut hub, &mut board, &mut control, Command::Echo, &[3, 0]),
        (Status::Okay, vec![0xa5; 3])
    );
}

#[test]
fn the_target_bus_needs_an_attached_target_out_of_reset() {
    let (mut hub, mut board, mut control) = (hub((true, false)), Board::new(), WifiControl::new());
    assert_eq!(
        run(&mut hub, &mut board, &mut control, Command::ReadRegister, &[0, 0]),
        (Status::NotAttached, vec![])
    );
    // Whatever is asked for.
    let past_the_end = [0xfc, 0xff, 0xff, 0xff, 2, 0];
    assert_eq!(
        run(&mut hub, &mut board, &mut control, Command::MemoryRead, &past_the_end),
        (Status::NotAttached, vec![])
    );
    hub.attached = true;
    hub.reset_held = true;
    assert_eq!(
        run(&mut hub, &mut board, &mut control, Command::MemoryRead, &past_the_end),
        (Status::TargetInReset, vec![])
    );
    assert_eq!(
        run(
            &mut hub,
            &mut board,
            &mut control,
            Command::MemoryRead,
            &[0, 0, 0, 8, 1, 0]
        ),
        (Status::TargetInReset, vec![])
    );
    // The raw commands are what connecting under reset is built on.
    assert_ne!(
        run(&mut hub, &mut board, &mut control, Command::ReadRegister, &[0, 0]).0,
        Status::TargetInReset
    );
}

#[test]
fn asserting_reset_leaves_the_mux_and_the_link_alone() {
    let (mut hub, mut board, mut control) = (hub((true, false)), Board::new(), WifiControl::new());
    hub.attached = true;
    hub.selected = Target::Dwm0;
    let reply = run(&mut hub, &mut board, &mut control, Command::ResetAssert, &[]);
    assert_eq!(reply, (Status::Okay, vec![0]));
    assert!(hub.reset_held && hub.attached);
    assert_eq!(hub.selected, Target::Dwm0);
    assert_eq!(
        board.done,
        [Action::Reset { held: true, settle_ms: 10 }, Action::ReadReset]
    );
    let reply = run(&mut hub, &mut board, &mut control, Command::ResetRelease, &[]);
    assert_eq!(reply, (Status::Okay, vec![1]));
    assert!(!hub.reset_held);
}

#[test]
fn the_lines_are_read_released() {
    let (mut hub, mut board, mut control) = (hub((true, false)), Board::new(), WifiControl::new());
    assert_eq!(
        run(&mut hub, &mut board, &mut control, Command::LineState, &[]),
        (Status::Okay, vec![1, 0, 1])
    );
    assert_eq!(
        run(&mut hub, &mut board, &mut control, Command::ResetLineState, &[]),
        (Status::Okay, vec![1, 0, 0, 1, 0, 1])
    );
    assert!(!board.reset_held);
}

#[test]
fn a_held_line_refuses_an_attach() {
    let (mut hub, mut board, mut control) = (hub((false, false)), Board::new(), WifiControl::new());
    let (status, detail) = run(&mut hub, &mut board, &mut control, Command::Attach, &[]);
    assert_eq!((status, detail), (Status::Transport, vec![4]));
    assert!(!hub.attached && !board.reset_held);
}

#[test]
fn a_target_whose_power_is_not_proven_is_not_selected() {
    let (mut hub, mut board, mut control) = (hub((false, true)), Board::new(), WifiControl::new());
    let next = hub.select(Target::Gps);
    let reply = finish(&mut hub, &mut board, &mut control, next);
    assert_eq!(reply, (Status::Transport, vec![4]));
    assert_eq!(hub.selected, Target::Stm32);
    // Only the passive position was ever asked for.
    for action in &board.done {
        assert!(!matches!(action, Action::Select { target: Target::Gps, .. }));
    }
}

#[test]
fn a_powered_target_is_selected() {
    let (mut hub, mut board, mut control) = (hub((true, false)), Board::new(), WifiControl::new());
    let next = hub.select(Target::Dwm1);
    let reply = finish(&mut hub, &mut board, &mut control, next);
    assert_eq!(reply, (Status::Okay, vec![]));
    assert_eq!(hub.selected, Target::Dwm1);
}

#[test]
fn a_display_frame_lets_go_of_the_line_whatever_came_of_it() {
    let (mut hub, mut board, mut control) = (hub((true, false)), Board::new(), WifiControl::new());
    let next = hub.write_display();
    let reply = finish(&mut hub, &mut board, &mut control, next);
    assert_eq!(reply, (Status::Okay, vec![5, 0, 0, 0]));
    assert!(!board.transmit);
    board.fail_frame = true;
    let next = hub.write_display();
    let reply = finish(&mut hub, &mut board, &mut control, next);
    assert_eq!(reply, (Status::Transport, vec![0]));
    assert!(!board.transmit);
}

#[test]
fn bytes_are_sent_and_the_answer_captured() {
    let (mut hub, mut board, mut control) = (hub((true, false)), Board::new(), WifiControl::new());
    let next = hub.send_uart();
    assert_eq!(
        finish(&mut hub, &mut board, &mut control, next),
        (Status::Okay, vec![0x79])
    );
    assert!(!board.transmit);
    assert_eq!(
        board.done,
        [
            Action::Uart(Serial::Parity { even: false }),
            Action::Uart(Serial::Clear),
            Action::Uart(Serial::Transmit { driven: true }),
            Action::Uart(Serial::WriteFrame),
            Action::Uart(Serial::Drain { ticks: 200 }),
            Action::Uart(Serial::Transmit { driven: false }),
            Action::Uart(Serial::Read { capacity: 4096, ticks: 200 }),
        ]
    );
    board.fail_frame = true;
    let next = hub.send_uart();
    assert_eq!(
        finish(&mut hub, &mut board, &mut control, next),
        (Status::Transport, vec![0])
    );
    assert!(!board.transmit, "the line was left driven");
}

#[test]
fn a_refusal_for_want_of_power_tells_the_clock() {
    for clock in [false, true] {
        let (mut hub, mut board, mut control) =
            (hub((false, clock)), Board::new(), WifiControl::new());
        let next = hub.select(Target::Dwm0);
        assert_eq!(
            finish(&mut hub, &mut board, &mut control, next),
            (Status::Transport, vec![4])
        );
        assert_eq!(hub.clock_high, clock);
    }
    assert_eq!(
        esprobe::http::power_not_proven(true),
        "target power not proven: released STM32 SWDIO is low (SWCLK=true)"
    );
}

#[test]
fn a_reset_line_without_its_pull_up_is_not_pulsed() {
    let (mut hub, mut board, mut control) = (hub((true, false)), Board::new(), WifiControl::new());
    let next = hub.pulse_reset_all();
    assert_eq!(
        finish(&mut hub, &mut board, &mut control, next),
        (Status::Okay, vec![])
    );
    assert_eq!(board.done.len(), 3);
    board.reset_high = false;
    let next = hub.pulse_reset_all();
    assert_eq!(
        finish(&mut hub, &mut board, &mut control, next),
        (Status::Transport, vec![4])
    );
    assert_eq!(board.done.len(), 4);
    assert!(!hub.reset_held);
}

#[test]
fn a_mux_probe_ends_in_the_passive_position() {
    let (mut hub, mut board, mut control) = (hub((true, false)), Board::new(), WifiControl::new());
    let (status, reply) = run(&mut hub, &mut board, &mut control, Command::MuxProbe, &[2]);
    assert_eq!(status, Status::Okay);
    assert_eq!(reply.len(), 9);
    // The selectors as the board read them.
    assert_eq!(&reply[7..], &[1, 0]);
    assert_eq!(hub.selected, Target::Stm32);
    assert!(matches!(
        board.done.last(),
        Some(Action::Select { target: Target::Stm32, .. })
    ));
}

#[test]
fn a_uart_capture_goes_back_to_its_usual_line() {
    let (mut hub, mut board, mut control) = (hub((true, false)), Board::new(), WifiControl::new());
    let (status, reply) = run(
        &mut hub,
        &mut board,
        &mut control,
        Command::UartResetCapture,
        &[1],
    );
    assert_eq!((status, reply), (Status::Okay, vec![0x79]));
    assert_eq!(
        board.done.last(),
        Some(&Action::Uart(Serial::Receive { swapped: false }))
    );
}

#[test]
fn a_network_is_stored_before_it_is_asked_for() {
    let (mut hub, mut board, mut control) = (hub((true, false)), Board::new(), WifiControl::new());
    let mut payload = [0u8; 64];
    let length = wifi::encode("bench", "secret phrase", &mut payload).unwrap();
    assert_eq!(
        run(&mut hub, &mut board, &mut control, Command::WifiSet, &payload[..length]),
        (Status::Okay, vec![])
    );
    assert!(board.stored);
    assert_eq!(
        run(&mut hub, &mut board, &mut control, Command::WifiStatus, &[]),
        (Status::Okay, [&[0, 0, 0, 0, 0, 5][..], b"bench"].concat())
    );
    let (pending, forget) = control.take_requests();
    assert_eq!(pending, Some(("bench".to_string(), "secret phrase".to_string())));
    assert!(!forget);
    control.publish(true, [192, 0, 2, 7], "bench".to_string());
    assert_eq!(control.status(), [&[1, 192, 0, 2, 7, 5][..], b"bench"].concat());
    run(&mut hub, &mut board, &mut control, Command::WifiForget, &[]);
    assert_eq!(control.status(), [0, 0, 0, 0, 0, 0]);
    assert!(control.take_requests().1);
}

#[test]
fn a_malformed_payload_is_refused() {
    let (mut hub, mut board, mut control) = (hub((true, false)), Board::new(), WifiControl::new());
    for (command, payload) in [
        (Command::SetSpeed, &[1u8, 2][..]),
        (Command::MuxProbe, &[9]),
        (Command::DiagnosticSwdio, &[]),
        (Command::WifiSet, &[4, 0, b'a']),
    ] {
        let (status, _) = run(&mut hub, &mut board, &mut control, command, payload);
        assert_eq!(status, Status::Transport, "{command:?}");
    }
    assert!(!board.stored);
}

#[test]
fn what_the_wire_cannot_address_is_not_admissible() {
    assert!(is_admissible(Command::MemoryRead, &[0, 0, 0, 8, 1, 0]));
    assert!(!is_admissible(Command::MemoryRead, &[0xfc, 0xff, 0xff, 0xff, 2, 0]));
    assert!(is_admissible(Command::MemoryRead, &[0xfc, 0xff, 0xff, 0xff, 1, 0]));
    assert!(!is_admissible(Command::ApWriteProbe, &[0, 0, 0, 0, 65, 1]));
}

#[test]
fn a_bridge_without_a_wire_says_so() {
    let mut board = Board::new();
    let mut control = WifiControl::new();
    let mut hub: Hub<Pads> = Hub::new(None, [0; 7]);
    for command in [Command::LineState, Command::Capabilities, Command::Attach] {
        assert_eq!(
            run(&mut hub, &mut board, &mut control, command, &[]),
            (Status::Transport, vec![0])
        );
    }
    assert!(hub.probe_stm32().is_err());
    assert!(hub.flash_stm32(&[1]).is_err());
}

#[test]
fn a_rom_boot_gives_the_uart_back() {
    let (mut hub, mut board, mut control) = (hub((true, false)), Board::new(), WifiControl::new());
    let (status, reply) = run(&mut hub, &mut board, &mut control, Command::EnterRomBoot, &[]);
    // What the application answered, then what the bootloader did.
    assert_eq!((status, reply), (Status::Okay, vec![0x79, 0x79]));
    assert!(board.done.contains(&Action::Uart(Serial::Parity { even: true })));
    assert_eq!(
        board.done.last(),
        Some(&Action::Uart(Serial::Parity { even: false }))
    );
}

#[test]
fn a_recovery_probe_lets_go_of_reset() {
    let (mut hub, mut board, mut control) = (hub((true, false)), Board::new(), WifiControl::new());
    let (status, _) = run(&mut hub, &mut board, &mut control, Command::RecoveryProbe, &[5, 0]);
    assert_ne!(status, Status::Okay);
    assert!(board.done.contains(&Action::DelayUs { delay_us: 5 }));
    assert!(board
        .done
        .iter()
        .any(|action| matches!(action, Action::Reset { held: true, .. })));
    assert!(!board.reset_held && !hub.reset_held);
}

#[test]
fn a_low_position_is_only_looked_at() {
    let (mut hub, mut board, mut control) = (hub((false, false)), Board::new(), WifiControl::new());
    let (status, reply) = run(&mut hub, &mut board, &mut control, Command::MuxProbe, &[2]);
    assert_eq!(status, Status::Okay);
    // Both levels, then the status of a held line and no identity.
    assert_eq!(reply, [0, 0, 2, 0, 0, 0, 0, 1, 0]);
}
