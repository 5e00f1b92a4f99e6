use esprobe::link::{Command, CMD_JOG, CMD_STOP, MSG_PONG};
use esprobe::stepper::{Coils, Planner, StepMode};
use esprobe::stepper_hw::{
    request_selftest, selftest_result, BridgePins, Reading, SelfTest,
};
use esprobe::ws_link::{judge, obey, snapshot, Clients, Pusher, Received, Verdict};

#[test]
fn an_unchanged_status_is_not_pushed() {
    let mut planner = Planner::new(StepMode::Half);
    let mut pusher = Pusher::new();
    let still = snapshot(&planner);
    assert_eq!(pusher.due(1, Some(still)), Some(still));
    assert_eq!(pusher.due(1, Some(still)), None);
    assert_eq!(pusher.due(1, None), None);
    planner.jog(200, 0);
    let moving = snapshot(&planner);
    assert!(moving.moving);
    assert_eq!(pusher.due(1, Some(moving)), Some(moving));
    // Somebody new is told at once.
    assert_eq!(pusher.due(0, Some(moving)), None);
    assert_eq!(pusher.due(1, Some(moving)), Some(moving));
}

#[test]
fn only_the_last_client_to_leave_stops_the_motor() {
    let mut clients = Clients::new();
    assert!(clients.join(10, &[]).is_empty());
    assert!(clients.join(11, &[true]).is_empty());
    assert!(clients.join(12, &[true; 2]).is_empty());
    assert_eq!(clients.join(13, &[true; 3]), [10]);
    assert!(!clients.leave(10, &[true; 3]), "an evicted client stopped the motor");
    assert!(!clients.leave(11, &[true; 3]));
    assert!(!clients.leave(12, &[true; 2]));
    assert!(clients.leave(13, &[true]));
}

#[test]
fn whoever_went_away_neither_takes_a_place_nor_keeps_the_motor() {
    let mut clients = Clients::new();
    clients.join(1, &[]);
    clients.join(2, &[true]);
    clients.join(3, &[true; 2]);
    assert!(clients.join(4, &[true, false, true]).is_empty());
    assert_eq!(clients.sockets, [1, 3, 4]);
    assert!(clients.leave(4, &[false, false, true]));
}

#[test]
fn clients_that_went_away_are_dropped() {
    let mut clients = Clients::new();
    clients.join(1, &[]);
    clients.join(2, &[true]);
    clients.join(3, &[true; 2]);
    clients.reap(&[true, false, true]);
    assert_eq!(clients.sockets, [1, 3]);
}

#[test]
fn a_frame_is_obeyed_ignored_or_ends_the_link() {
    let mut buffer = [0u8; 64];
    buffer[..3].copy_from_slice(&[CMD_JOG, 0x2c, 0x01]);
    assert_eq!(judge(Received::Binary, 3, &buffer), Verdict::Obey(Command::Jog(300)));
    assert_eq!(judge(Received::Other, 3, &buffer), Verdict::Ignore);
    assert_eq!(judge(Received::Close, 0, &buffer), Verdict::Abandon);
    assert_eq!(judge(Received::Binary, 65, &buffer), Verdict::Abandon);
    buffer[0] = 0x7f;
    assert_eq!(judge(Received::Binary, 3, &buffer), Verdict::Ignore);
    buffer[0] = CMD_STOP;
    assert_eq!(judge(Received::Binary, 1, &buffer), Verdict::Obey(Command::Stop));
}

#[test]
fn the_link_drives_the_motor() {
    let mut planner = Planner::new(StepMode::Half);
    assert_eq!(obey(&mut planner, Command::Jog(300), 0), None);
    assert_eq!(planner.target_rate(), 300);
    assert_eq!(obey(&mut planner, Command::Ping, 1_000), Some(MSG_PONG));
    obey(&mut planner, Command::Stop, 2_000);
    assert!(!planner.is_moving() && planner.is_energised());
    obey(&mut planner, Command::Move { steps: -4, steps_per_s: 100 }, 3_000);
    assert_eq!(planner.remaining(), Some(4));
    obey(&mut planner, Command::Release, 4_000);
    assert!(!planner.is_energised());
}

#[test]
fn a_self_test_is_performed_once() {
    let mut test = SelfTest::new();
    assert!(!test.take_request());
    request_selftest(&mut test);
    assert_eq!(selftest_result(&test), None);
    assert!(test.take_request());
    assert!(!test.take_request());
    let good = Reading { high: true, low: true };
    let stuck = Reading { high: true, low: false };
    test.finish([good, stuck, good, good]);
    assert_eq!(selftest_result(&test), Some(0b11_11_01_11));
    request_selftest(&mut test);
    assert_eq!(selftest_result(&test), None);
    test.finish([good; 4]);
    assert_eq!(selftest_result(&test), Some(0xff));
}

#[test]
fn pins_are_written_only_when_they_change() {
    let mut pins = BridgePins::new();
    let drive = Coils { ain1: true, ain2: false, bin1: false, bin2: false };
    assert_eq!(pins.update(Coils::released()), None);
    assert_eq!(pins.update(drive), Some(drive));
    assert_eq!(pins.update(drive), None);
    pins.disturbed();
    assert_eq!(pins.update(drive), Some(drive));
}
