use esprobe::frame::{Command, Status, MAX_FRAME};
use esprobe::serial_dap::{is_bridge, SerialDapProbe};
use esprobe::server::{framed_reply, Assembler};
use esprobe::transport::{describe_failure, Failure, Read, Transport, Wait};

/// Answers the handshake the way the firmware does, and nothing else.
fn answer(assembler: &mut Assembler, bytes: &[u8]) -> Vec<u8> {
    let mut out = Vec::new();
    for &byte in bytes {
        if let Some(request) = assembler.feed(byte) {
            let payload: &[u8] = match request.command {
                Command::Hello => b"DAP1",
                // Block words, and the clock behind them.
                Command::Capabilities => &[0, 4, 0, 0, 0x00, 0x12, 0x7a, 0x00],
                _ => &[],
            };
            out.extend(framed_reply(request.sequence, Status::Okay, payload).unwrap());
        }
    }
    out
}

fn awaited(transport: &mut Transport, sequence: u16) -> Option<Vec<u8>> {
    match transport.receive(sequence, false) {
        Wait::Over(Ok(payload)) => Some(payload),
        _ => None,
    }
}

#[test]
fn a_reply_sharing_a_read_with_the_next_is_not_lost() {
    let mut bridge = Assembler::new();
    let mut transport = Transport::new();
    let (first, one) = transport.send(Command::Ping, &[]).expect("send the first");
    let (second, two) = transport.send(Command::Ping, &[]).expect("send the second");
    // Both replies in one read.
    let mut batch = answer(&mut bridge, &one);
    batch.extend(answer(&mut bridge, &two));
    assert!(transport.absorb(Read::Bytes(batch)).is_ok());
    awaited(&mut transport, first).expect("the first reply");
    // The bytes of this one arrived in the read that completed the first.
    awaited(&mut transport, second)
        .expect("the second reply shared a read with the first and was lost");
}

#[test]
fn the_network_transport_completes_a_handshake() {
    let mut bridge = Assembler::new();
    let mut transport = Transport::new();
    let (hello, bytes) = transport.send(Command::Hello, &[]).unwrap();
    let reply = answer(&mut bridge, &bytes);
    assert!(transport.absorb(Read::Bytes(reply)).is_ok());
    assert!(is_bridge(&awaited(&mut transport, hello).unwrap()));
    let (capabilities, bytes) = transport.send(Command::Capabilities, &[]).unwrap();
    let reply = answer(&mut bridge, &bytes);
    assert!(transport.absorb(Read::Bytes(reply)).is_ok());
    let reply = awaited(&mut transport, capabilities).unwrap();
    let probe = SerialDapProbe::with_capabilities(&reply)
        .expect("the bridge handshake should complete");
    // Capabilities is what tells the host how much it may ask for at once.
    assert_eq!(probe.block_words, 1024);
    assert_eq!(probe.speed_khz, 8_000);
}

#[test]
fn a_stale_reply_is_passed_over() {
    let mut transport = Transport::new();
    let (first, _) = transport.send(Command::Ping, &[]).unwrap();
    let (second, _) = transport.send(Command::Ping, &[]).unwrap();
    assert!(first != second);
    let mut bytes = framed_reply(first, Status::Okay, &[1]).unwrap();
    bytes.extend(framed_reply(second, Status::Okay, &[2]).unwrap());
    assert!(transport.absorb(Read::Bytes(bytes)).is_ok());
    assert_eq!(awaited(&mut transport, second), Some(vec![2]));
}

#[test]
fn console_output_between_frames_is_discarded() {
    let mut transport = Transport::new();
    let (sequence, _) = transport.send(Command::Ping, &[]).unwrap();
    let mut bytes = b"I (123) wifi: joined\n".to_vec();
    bytes.extend(framed_reply(sequence, Status::Okay, &[7]).unwrap());
    assert!(transport.absorb(Read::Bytes(bytes)).is_ok());
    assert_eq!(awaited(&mut transport, sequence), Some(vec![7]));
}

#[test]
fn a_refusal_carries_its_status_and_detail() {
    let mut transport = Transport::new();
    let (sequence, _) = transport.send(Command::Attach, &[]).unwrap();
    let bytes = framed_reply(sequence, Status::Transport, &[4]).unwrap();
    assert!(transport.absorb(Read::Bytes(bytes)).is_ok());
    match transport.receive(sequence, false) {
        Wait::Over(Err(Failure::Refused { status, detail })) => {
            assert_eq!(status, Status::Transport);
            assert_eq!(detail, [4]);
            assert_eq!(
                Failure::Refused { status, detail }.message(),
                describe_failure(Status::Transport, &[4])
            );
        }
        _ => panic!("the refusal was lost"),
    }
}

#[test]
fn each_way_a_command_can_fail_is_told_apart() {
    let mut transport = Transport::new();
    let payload = vec![0u8; MAX_FRAME];
    assert!(matches!(
        transport.send(Command::Echo, &payload),
        Err(Failure::TooLarge)
    ));
    let (sequence, _) = transport.send(Command::Ping, &[]).unwrap();
    assert!(matches!(transport.receive(sequence, false), Wait::Read));
    assert!(transport.absorb(Read::Quiet).is_ok());
    assert!(matches!(
        transport.receive(sequence, true),
        Wait::Over(Err(Failure::Timeout))
    ));
    assert!(matches!(transport.absorb(Read::Closed), Err(Failure::Closed)));
}

#[test]
fn a_frame_that_is_too_long_is_dropped() {
    let mut assembler = Assembler::new();
    for _ in 0..5_000 {
        assert!(assembler.feed(1).is_none());
    }
    assert!(assembler.feed(0).is_none());
    let mut transport = Transport::new();
    let (sequence, bytes) = transport.send(Command::Ping, &[9, 8]).unwrap();
    let mut seen = None;
    for byte in bytes {
        if let Some(request) = assembler.feed(byte) {
            seen = Some(request);
        }
    }
    let request = seen.expect("the next request still arrives");
    assert_eq!(request.sequence, sequence);
    assert_eq!(request.command, Command::Ping);
    assert_eq!(request.payload, [9, 8]);
}
