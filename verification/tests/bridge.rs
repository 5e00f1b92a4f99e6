use esprobe::debug_port::{
    power_up_debug_port, read_debug_port_id, read_debug_port_id_once, DebugPortId, Identify,
    IdentifyError, IdentifyStep,
};
use esprobe::engine::Engine;
use esprobe::frame::Command;
use esprobe::hub::request::parse;
use esprobe::hub::Request;
use esprobe::serial_dap::{
    decode_word, decode_words, encode_memory_read, encode_read, encode_sequence, encode_write,
    engine_selector, is_bridge, pins_after, pins_command, BlockTransfer, SerialDapProbe, PIN_NRESET,
};
use esprobe::transport::describe_failure;
use esprobe::frame::Status;

fn probe(block_words: usize) -> SerialDapProbe {
    SerialDapProbe {
        attached: false,
        speed_khz: 4_000,
        block_words,
        attach_under_reset: false,
    }
}

#[test]
fn a_debug_port_tells_what_it_is() {
    let id = DebugPortId::decode(0x0bc1_1477);
    assert_eq!(id.designer, 0x23b);
    assert_eq!(id.part_number, 0xbc);
    assert_eq!(id.version, 1);
    assert!(id.minimal);
    assert_eq!(
        id.describe(),
        "dp_id=0x0bc11477 designer=0x23b part=0xbc rev=0 dp_version=1 minimal=true"
    );
}

fn identify(status: u32, id: u32, plain_attach: bool) -> IdentifyStep {
    answer(read_debug_port_id(), status, id, plain_attach)
}

/// Answers every request: CTRL/STAT and every other register read as given.
fn answer(
    (mut machine, mut step): (Identify, IdentifyStep),
    status: u32,
    id: u32,
    plain_attach: bool,
) -> IdentifyStep {
    loop {
        let reply = match &step {
            IdentifyStep::Ask(Command::Attach, _) => {
                if plain_attach {
                    Some(vec![])
                } else {
                    None
                }
            }
            IdentifyStep::Ask(Command::ReadRegister, payload) => {
                let word: u32 = if payload[1] == 4 { status } else { id };
                Some(word.to_le_bytes().to_vec())
            }
            IdentifyStep::Ask(..) => Some(vec![]),
            _ => return step,
        };
        step = machine.next(reply);
    }
}

#[test]
fn a_target_that_keeps_resetting_is_identified_under_reset() {
    match identify(0xf000_0000, 0x0bc1_1477, true) {
        IdentifyStep::Found(id, false) => assert_eq!(id.raw, 0x0bc1_1477),
        other => panic!("{other:?}"),
    }
    match identify(0xf000_0000, 0x0bc1_1477, false) {
        IdentifyStep::Found(id, true) => assert_eq!(id.raw, 0x0bc1_1477),
        other => panic!("{other:?}"),
    }
}

#[test]
fn each_way_an_identification_fails_is_told_apart() {
    match identify(0x8000_0000, 0x0bc1_1477, true) {
        IdentifyStep::Failed(error) => {
            assert_eq!(error, IdentifyError::NotPowered { status: 0x8000_0000 });
        }
        other => panic!("{other:?}"),
    }
    match identify(0xf000_0000, u32::MAX, true) {
        IdentifyStep::Failed(error) => {
            assert_eq!(error, IdentifyError::NoIdentity { raw: u32::MAX });
        }
        other => panic!("{other:?}"),
    }
    let (mut machine, _) = read_debug_port_id();
    let mut step = machine.next(None);
    while let IdentifyStep::Ask(..) = step {
        step = machine.next(None);
    }
    assert!(matches!(step, IdentifyStep::Failed(IdentifyError::Transport)));
}

#[test]
fn one_attempt_is_not_made_again() {
    let (powered, id) = (0xf000_0000, 0x0bc1_1477);
    assert!(matches!(
        answer(read_debug_port_id_once(false), powered, id, false),
        IdentifyStep::Failed(IdentifyError::Transport)
    ));
    assert!(matches!(
        answer(read_debug_port_id_once(false), powered, id, true),
        IdentifyStep::Found(_, false)
    ));
    assert!(matches!(
        answer(read_debug_port_id_once(true), powered, id, false),
        IdentifyStep::Found(_, true)
    ));
}

#[test]
fn a_port_can_be_powered_up_and_no_more() {
    // What it would call itself is not asked for.
    assert!(matches!(
        answer(power_up_debug_port(false), 0xa000_0000, u32::MAX, true),
        IdentifyStep::Powered
    ));
    assert!(matches!(
        answer(power_up_debug_port(true), 0x2000_0000, 0, false),
        IdentifyStep::Failed(IdentifyError::NotPowered { status: 0x2000_0000 })
    ));
}

#[test]
fn capabilities_bound_a_block() {
    let known = SerialDapProbe::with_capabilities(&[0, 1, 0, 0, 0x00, 0x09, 0x3d, 0x00]).unwrap();
    assert_eq!((known.block_words, known.speed_khz), (256, 4_000));
    let greedy = SerialDapProbe::with_capabilities(&[0xff, 0xff, 0, 0, 0, 0, 0, 0]).unwrap();
    assert_eq!(greedy.block_words, 1_024);
    assert!(SerialDapProbe::with_capabilities(&[0; 7]).is_none());
}

#[test]
fn speeds_are_asked_for_within_range_and_taken_as_told() {
    assert_eq!(SerialDapProbe::clock_request(4_000), 4_000_000);
    assert_eq!(SerialDapProbe::clock_request(0), esprobe::clock::MIN_CLOCK_HZ);
    assert_eq!(SerialDapProbe::clock_request(u32::MAX), esprobe::clock::MAX_CLOCK_HZ);
    let mut bridge = probe(4);
    assert_eq!(bridge.take_clock(&1_000_000u32.to_le_bytes()), Some(1_000));
    assert_eq!(bridge.speed_khz, 1_000);
    assert_eq!(bridge.take_clock(&[1]), None);
    assert_eq!(bridge.speed_khz, 1_000);
    assert_eq!(bridge.attach_command(), Command::Attach);
    bridge.attach_under_reset = true;
    assert_eq!(bridge.attach_command(), Command::AttachUnderReset);
    bridge.note_attached(true);
    assert!(bridge.attached);
}

#[test]
fn payloads_are_laid_out_for_the_bridge() {
    assert!(is_bridge(b"DAP1"));
    assert!(!is_bridge(b"DAP2"));
    assert_eq!(encode_read(true, 0x0c), [1, 0x0c]);
    assert_eq!(encode_write(false, 4, 0x5000_0000), [0, 4, 0, 0, 0, 0x50]);
    assert_eq!(encode_sequence(16, 0xe79e), [16, 0x9e, 0xe7, 0, 0, 0, 0, 0, 0]);
    assert_eq!(encode_memory_read(0x0800_0000, 512), [0, 0, 0, 8, 0, 2]);
    assert_eq!(decode_word(&[1, 2, 3, 4]), Some(0x0403_0201));
    assert_eq!(decode_word(&[1, 2, 3]), None);
    assert_eq!(decode_words(&[1, 0, 0, 0, 2, 0, 0, 0], 2), Some(vec![1, 2]));
    assert_eq!(decode_words(&[1, 0, 0, 0], 2), None);
    assert_eq!(engine_selector(Engine::Hardware), 0);
    assert_eq!(engine_selector(Engine::BitBang), 1);
}

#[test]
fn only_nreset_is_driven_by_hand() {
    assert_eq!(pins_command(0, 0), None);
    assert_eq!(pins_command(0, PIN_NRESET), Some(Command::ResetAssert));
    assert_eq!(pins_command(PIN_NRESET, PIN_NRESET), Some(Command::ResetRelease));
    assert_eq!(pins_after(3, &[1]), 3 + PIN_NRESET);
    assert_eq!(pins_after(0xff, &[0]), 3);
    assert_eq!(pins_after(0, &[]), 0);
}

#[test]
fn a_block_is_read_and_written_in_pieces() {
    let mut reading = BlockTransfer::new(&probe(2), true, 0x0c, 5);
    let mut values = [0u32; 5];
    let mut asked = Vec::new();
    while let Some((command, payload)) = reading.next_read() {
        assert_eq!(command, Command::ReadRegisterBlock);
        let count = usize::from(payload[2]);
        asked.push(count);
        let from = reading.done as u32;
        let mut reply = Vec::new();
        for word in from..from + count as u32 {
            reply.extend_from_slice(&(100 + word).to_le_bytes());
        }
        assert!(reading.take(&reply, &mut values));
    }
    assert_eq!(asked, [2, 2, 1]);
    assert_eq!(values, [100, 101, 102, 103, 104]);

    let mut short = BlockTransfer::new(&probe(2), true, 0x0c, 2);
    assert!(!short.take(&[0; 4], &mut values));

    let mut writing = BlockTransfer::new(&probe(2), true, 0x0c, 3);
    let mut sent = Vec::new();
    while let Some((command, payload)) = writing.next_write(&[7, 8, 9]) {
        assert_eq!(command, Command::WriteRegisterBlock);
        sent.push(payload);
    }
    assert_eq!(sent.len(), 2);
    assert_eq!(&sent[1][sent[1].len() - 4..], &[9, 0, 0, 0]);
}

#[test]
fn refusals_name_their_likely_cause() {
    assert!(describe_failure(Status::Transport, &[4]).starts_with("SWDIO reads low when released"));
    assert_eq!(
        describe_failure(Status::Wait, &[]),
        "bridge status Wait, detail=[]"
    );
    assert_eq!(
        describe_failure(Status::NotAttached, &[1, 0xab]),
        "not attached; run a command that attaches first (bridge status NotAttached, \
         detail=[01, ab])"
    );
}

#[test]
fn what_the_host_lays_out_the_bridge_understands() {
    assert!(matches!(
        parse(Command::ReadRegister, &encode_read(true, 0x0c)),
        Ok(Request::ReadRegister { access_port: true, register: 0x0c })
    ));
    assert!(matches!(
        parse(Command::WriteRegister, &encode_write(false, 4, 0x5000_0000)),
        Ok(Request::WriteRegister { access_port: false, register: 4, value: 0x5000_0000 })
    ));
    assert!(matches!(
        parse(Command::SwjSequence, &encode_sequence(16, 0xe79e)),
        Ok(Request::SwjSequence { bit_len: 16, bits: 0xe79e })
    ));
    assert!(matches!(
        parse(Command::MemoryRead, &encode_memory_read(0x2000_0000, 300)),
        Ok(Request::MemoryRead { address: 0x2000_0000, count: 300 })
    ));
    let (command, payload) = BlockTransfer::new(&probe(2), true, 0x0c, 3)
        .next_write(&[7, 0xdead_beef, 9])
        .unwrap();
    match parse(command, &payload) {
        Ok(Request::WriteRegisterBlock { access_port: true, register: 0x0c, words }) => {
            assert_eq!(words, [7, 0xdead_beef]);
        }
        other => panic!("{other:?}"),
    }
}
