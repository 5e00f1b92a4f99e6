use esprobe::link::{
    decode, decode_status, encode_status, Command, Status, CMD_ACCEL, CMD_JOG, CMD_MOVE, CMD_PING,
    CMD_RELEASE, CMD_STOP, MAX_COMMAND_LEN, MSG_PONG, MSG_STATUS, STATUS_LEN,
};
use esprobe::stepper::MAX_STEPS_PER_S;

#[test]
fn a_jog_is_three_bytes_on_the_wire() {
    // The hot frame. An HTTP POST carrying the same number was several
    // hundred bytes plus a response, and this is the whole point of the
    // exercise, so it is worth a test rather than a comment.
    let frame = [CMD_JOG, 0x2c, 0x01];
    assert_eq!(frame.len(), 3);
    assert_eq!(decode(&frame), Some(Command::Jog(300)));
}

#[test]
fn a_negative_rate_survives_the_round_trip() {
    let frame = [CMD_JOG, 0xd4, 0xfe];
    assert_eq!(decode(&frame), Some(Command::Jog(-300)));
}

#[test]
fn the_rate_field_covers_the_whole_range_the_planner_allows() {
    // i16 was chosen to keep the frame small; if the step-rate ceiling ever
    // outgrows it the frame has to widen, and this is where that is caught.
    let limit = MAX_STEPS_PER_S as i32;
    assert!(
        limit <= i16::MAX as i32,
        "the rate no longer fits the wire format"
    );
    let frame = [CMD_JOG, (limit as i16).to_le_bytes()[0], (limit as i16).to_le_bytes()[1]];
    assert_eq!(decode(&frame), Some(Command::Jog(limit)));
}

#[test]
fn a_truncated_frame_is_discarded_rather_than_half_applied() {
    // A jog missing its second rate byte must not read as a jog at some
    // other rate. There is no partial command that anyone asked for.
    assert_eq!(decode(&[CMD_JOG, 0x2c]), None);
    assert_eq!(decode(&[CMD_JOG]), None);
    assert_eq!(decode(&[CMD_MOVE, 1, 0, 0, 0, 1]), None);
    assert_eq!(decode(&[CMD_ACCEL, 0, 0, 0]), None);
    assert_eq!(decode(&[]), None);
}

#[test]
fn trailing_bytes_are_refused_too() {
    // A frame longer than its opcode implies is not a frame this protocol
    // produced, so it is not one to guess at.
    assert_eq!(decode(&[CMD_STOP, 0]), None);
    assert_eq!(decode(&[CMD_JOG, 1, 0, 0]), None);
    assert_eq!(decode(&[CMD_RELEASE, 9, 9]), None);
}

#[test]
fn an_unknown_opcode_is_refused() {
    assert_eq!(decode(&[0x00]), None);
    assert_eq!(decode(&[0x7f, 1, 2]), None);
    // Server-to-client opcodes must not be accepted as commands.
    assert_eq!(decode(&[MSG_STATUS]), None);
    assert_eq!(decode(&[MSG_PONG]), None);
}

#[test]
fn the_one_byte_commands_decode() {
    assert_eq!(decode(&[CMD_STOP]), Some(Command::Stop));
    assert_eq!(decode(&[CMD_RELEASE]), Some(Command::Release));
    assert_eq!(decode(&[CMD_PING]), Some(Command::Ping));
}

#[test]
fn a_move_carries_its_distance_and_rate() {
    let mut frame = [CMD_MOVE, 0, 0, 0, 0, 0, 0];
    frame[1..5].copy_from_slice(&(-1234i32).to_le_bytes());
    frame[5..7].copy_from_slice(&600u16.to_le_bytes());
    assert_eq!(
        decode(&frame),
        Some(Command::Move {
            steps: -1234,
            steps_per_s: 600
        })
    );
    assert!(frame.len() <= MAX_COMMAND_LEN);
}

#[test]
fn status_survives_the_round_trip() {
    for status in [
        Status::default(),
        Status {
            position: -2_000_000,
            rate: -1000,
            moving: true,
            energised: true,
            remaining: None,
        },
        Status {
            position: i32::MAX,
            rate: i16::MAX,
            moving: true,
            energised: false,
            remaining: Some(0),
        },
        Status {
            position: i32::MIN,
            rate: i16::MIN,
            moving: false,
            energised: true,
            remaining: Some(u32::MAX),
        },
    ] {
        let encoded = encode_status(&status);
        assert_eq!(encoded.len(), STATUS_LEN);
        assert_eq!(decode_status(&encoded), Some(status), "round trip failed");
    }
}

#[test]
fn no_remaining_is_distinct_from_a_remaining_of_zero() {
    // The page shows a dash for one and a number for the other, and a
    // sentinel value would have made a bounded move about to finish look
    // like a jog.
    let none = encode_status(&Status {
        remaining: None,
        ..Status::default()
    });
    let zero = encode_status(&Status {
        remaining: Some(0),
        ..Status::default()
    });
    assert_ne!(none, zero);
    assert_eq!(decode_status(&none).unwrap().remaining, None);
    assert_eq!(decode_status(&zero).unwrap().remaining, Some(0));
}

#[test]
fn a_malformed_status_is_rejected() {
    let good = encode_status(&Status::default());
    assert_eq!(decode_status(&good[..STATUS_LEN - 1]), None);
    let mut wrong_opcode = good;
    wrong_opcode[0] = CMD_JOG;
    assert_eq!(decode_status(&wrong_opcode), None);
}

#[test]
fn every_command_fits_the_receive_buffer() {
    // The server reads into a fixed buffer sized by this constant, so a
    // frame the protocol can express but the buffer cannot hold would be
    // dropped at runtime rather than caught here.
    for frame in [
        vec![CMD_JOG, 0, 0],
        vec![CMD_STOP],
        vec![CMD_RELEASE],
        vec![CMD_PING],
        vec![CMD_MOVE, 0, 0, 0, 0, 0, 0],
        vec![CMD_ACCEL, 0, 0, 0, 0],
    ] {
        assert!(decode(&frame).is_some(), "{frame:?} did not decode");
        assert!(
            frame.len() <= MAX_COMMAND_LEN,
            "{frame:?} is longer than MAX_COMMAND_LEN"
        );
    }
}
