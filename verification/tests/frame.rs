use esprobe::frame::{
    crc16, decode_request, decode_response, encode_request, encode_response, Command, Status,
    MAX_BLOCK_WORDS, MAX_FRAME, VERSION,
};

/// Byte-exact encodings the firmware and the host must both produce.
///
/// The ends are built by different toolchains for different architectures,
/// and a silent divergence here would show up as a bridge that connects and
/// then misbehaves. A changed command number, a changed magic, a changed CRC or
/// a changed COBS boundary all fail this instead.
#[test]
fn wire_format_fixtures() {
    let mut frame = [0u8; MAX_FRAME + 2];

    let length = encode_request(0x1234, Command::Hello, &[], &mut frame).unwrap();
    assert_eq!(
        &frame[..length],
        &[11, b'E', b'S', b'P', b'B', 3, 0x34, 0x12, 1, 0xb3, 0x6f, 0],
        "the Hello request encoding moved"
    );

    // The status byte is zero for Ok, so COBS relocates it: this fixture
    // pins the framing as much as the fields.
    let length = encode_response(0x1234, Status::Okay, &[0xde, 0xad], &mut frame).unwrap();
    assert_eq!(
        &frame[..length],
        &[
            8, b'E', b'S', b'P', b'R', 3, 0x34, 0x12, 5, 0xde, 0xad, 0x88, 0xde, 0
        ],
        "the response encoding moved"
    );

    // Command numbers are part of the contract; renumbering one silently
    // repoints every host that has not been rebuilt.
    assert_eq!(Command::Hello.code(), 0x01);
    assert_eq!(Command::ReadRegister.code(), 0x10);
    assert_eq!(Command::MemoryRead.code(), 0x29);
    assert_eq!(Status::TargetInReset.code(), 8);
    assert_eq!(VERSION, 3);
}

#[test]
fn request_round_trip_preserves_zero_bytes() {
    let mut frame = [0u8; MAX_FRAME + 2];
    let length =
        encode_request(0x1234, Command::WriteRegister, &[0, 1, 0, 2], &mut frame).unwrap();
    let request = decode_request(&mut frame[..length - 1]).unwrap();
    assert_eq!(request.sequence, 0x1234);
    assert_eq!(request.command, Command::WriteRegister);
    assert_eq!(request.payload, [0, 1, 0, 2]);
}

#[test]
fn reset_line_state_has_a_stable_wire_command() {
    assert_eq!(Command::try_from(0x14), Ok(Command::ResetLineState));
    assert_eq!(Command::ResetLineState.code(), 0x14);
}

#[test]
fn reset_hold_commands_have_stable_wire_values() {
    assert_eq!(Command::try_from(0x15), Ok(Command::ResetAssert));
    assert_eq!(Command::try_from(0x16), Ok(Command::ResetRelease));
    assert_eq!(Command::try_from(0x17), Ok(Command::AttachUnderReset));
    assert_eq!(Command::try_from(0x18), Ok(Command::PadSelfTest));
    assert_eq!(Command::try_from(0x19), Ok(Command::RecoveryProbe));
    assert_eq!(Command::try_from(0x1a), Ok(Command::DiagnosticSwdio));
    assert_eq!(Command::try_from(0x1b), Ok(Command::EnterRomBoot));
    assert_eq!(Command::try_from(0x1c), Ok(Command::UartReceive));
    assert_eq!(Command::try_from(0x1d), Ok(Command::UartResetCapture));
    assert_eq!(Command::try_from(0x1e), Ok(Command::MuxProbe));
    assert_eq!(Command::try_from(0x1f), Ok(Command::ReadRegisterBlock));
    assert_eq!(Command::try_from(0x20), Ok(Command::SetSpeed));
    assert_eq!(Command::try_from(0x21), Ok(Command::SetPinMap));
    assert_eq!(Command::try_from(0x22), Ok(Command::Capabilities));
    assert_eq!(Command::try_from(0x23), Ok(Command::WriteRegisterBlock));
    assert_eq!(Command::try_from(0x24), Ok(Command::RecoverLine));
    assert_eq!(Command::try_from(0x25), Ok(Command::WireProbe));
    assert_eq!(Command::try_from(0x26), Ok(Command::SetEngine));
    assert_eq!(Command::try_from(0x27), Ok(Command::ApWriteProbe));
    assert_eq!(Command::try_from(0x28), Ok(Command::SpiLoopback));
    assert_eq!(Command::try_from(0x29), Ok(Command::MemoryRead));
    assert_eq!(Command::try_from(0x2a), Ok(Command::Ping));
    assert_eq!(Command::try_from(0x2b), Ok(Command::Profile));
    assert_eq!(Command::try_from(0x2c), Ok(Command::Echo));
    assert_eq!(Command::try_from(0x2d), Ok(Command::PinMap));
    assert_eq!(Command::try_from(0x2e), Ok(Command::WifiStatus));
    assert_eq!(Command::try_from(0x2f), Ok(Command::WifiSet));
    assert_eq!(Command::try_from(0x30), Ok(Command::WifiForget));
}

#[test]
fn a_full_block_read_survives_the_round_trip() {
    let payload: Vec<u8> = (0..MAX_BLOCK_WORDS * 4).map(|index| index as u8).collect();
    let mut frame = vec![0u8; MAX_FRAME + 2];
    let length = encode_response(9, Status::Okay, &payload, &mut frame).unwrap();
    assert!(length <= frame.len());
    let response = decode_response(&mut frame[..length - 1]).unwrap();
    assert_eq!(response.sequence, 9);
    assert_eq!(response.payload, payload.as_slice());
}

#[test]
fn the_table_driven_crc_matches_the_bit_at_a_time_definition() {
    fn reference(bytes: &[u8]) -> u16 {
        let mut crc = 0xffffu16;
        for &byte in bytes {
            crc ^= u16::from(byte) << 8;
            for _ in 0..8 {
                crc = if crc & 0x8000 != 0 {
                    (crc << 1) ^ 0x1021
                } else {
                    crc << 1
                };
            }
        }
        crc
    }

    let sample: Vec<u8> = (0..1024).map(|index| (index * 31 % 251) as u8).collect();
    for length in [0, 1, 2, 7, 8, 255, 256, 1024] {
        assert_eq!(
            crc16(&sample[..length]),
            reference(&sample[..length]),
            "{length}"
        );
    }
}

#[test]
fn response_rejects_corrupt_crc() {
    let mut frame = [0u8; MAX_FRAME + 2];
    let length = encode_response(7, Status::Okay, &[1, 2, 3], &mut frame).unwrap();
    frame[3] ^= 0x40;
    assert!(decode_response(&mut frame[..length - 1]).is_err());
}
