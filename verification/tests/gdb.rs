use esprobe::gdb::{
    register_bytes, register_value, wait_for_stop_reason, Adding, CortexMRegId, CortexMRegs,
    StepAction, StepEnd, Stepping, Units, WaitAction, WaitEvent, REGISTERS,
};

fn file() -> CortexMRegs {
    let mut regs = CortexMRegs::default();
    for id in 0..REGISTERS {
        regs.set(id, 0x1000_0000 + u32::from(id));
    }
    regs
}

#[test]
fn a_register_file_survives_its_packet() {
    let regs = file();
    let packet = regs.gdb_serialize();
    assert_eq!(packet.len(), 68);
    assert_eq!(&packet[..8], &[0, 0, 0, 0x10, 1, 0, 0, 0x10]);
    let mut back = CortexMRegs::default();
    assert_eq!(back.gdb_deserialize(&packet), Ok(()));
    assert_eq!(back, regs);
    assert_eq!(back.pc(), 0x1000_000f);
    assert_eq!(back.xpsr, 0x1000_0010);
}

#[test]
fn a_packet_of_another_length_is_refused_and_changes_nothing() {
    let mut regs = file();
    let packet = regs.gdb_serialize();
    assert_eq!(regs.gdb_deserialize(&packet[..67]), Err(()));
    assert_eq!(regs.gdb_deserialize(&[0; 168]), Err(()));
    assert_eq!(regs, file());
}

#[test]
fn register_numbers_stop_at_xpsr() {
    assert_eq!(CortexMRegId::from_raw_id(15), Some((CortexMRegId(15), 4)));
    assert_eq!(CortexMRegId::from_raw_id(16), Some((CortexMRegId(16), 4)));
    assert_eq!(CortexMRegId::from_raw_id(17), None);
}

#[test]
fn one_register_takes_four_bytes() {
    assert_eq!(register_bytes(0x1234_5678, 8), [0x78, 0x56, 0x34, 0x12]);
    assert_eq!(register_bytes(0x1234_5678, 2), [0x78, 0x56]);
    assert_eq!(register_value(&[0x78, 0x56, 0x34, 0x12]), Some(0x1234_5678));
    assert_eq!(register_value(&[0x78, 0x56, 0x34]), None);
}

#[test]
fn no_more_breakpoints_are_set_than_there_are_units() {
    let mut units = Units::new(2);
    assert_eq!(units.adding(0x100), Adding::Free);
    units.note_set(0x100);
    assert_eq!(units.adding(0x100), Adding::Held);
    units.note_set(0x200);
    assert_eq!(units.adding(0x300), Adding::Full);
    assert_eq!(units.adding(0x200), Adding::Held);
    let at = units.position(0x100).unwrap();
    units.note_cleared(at);
    assert_eq!(units.position(0x100), None);
    assert_eq!(units.adding(0x300), Adding::Free);
    assert_eq!(units.held, [0x200]);
}

#[test]
fn stepping_off_a_breakpoint_arms_it_again_even_when_the_step_fails() {
    let mut units = Units::new(4);
    units.note_set(0x100);
    let (stage, action) = Stepping::ReadingPc.next(&units, true, 0x100);
    assert_eq!(action, StepAction::Disarm(0x100));
    let (stage, action) = stage.next(&units, true, 0);
    assert_eq!(action, StepAction::Step);
    let (stage, action) = stage.next(&units, false, 0);
    assert_eq!(action, StepAction::Arm(0x100));
    assert_eq!(stage.next(&units, true, 0).1, StepAction::Over(StepEnd::StepFailed));
    assert_eq!(stage.next(&units, false, 0).1, StepAction::Over(StepEnd::LastFailed));
}

#[test]
fn stepping_elsewhere_touches_no_breakpoint() {
    let units = Units::new(4);
    let (stage, action) = Stepping::ReadingPc.next(&units, true, 0x100);
    assert_eq!(action, StepAction::Step);
    assert_eq!(stage.next(&units, true, 0).1, StepAction::Over(StepEnd::Stepped));
    assert_eq!(stage.next(&units, false, 0).1, StepAction::Over(StepEnd::LastFailed));
    assert_eq!(
        Stepping::ReadingPc.next(&units, false, 0).1,
        StepAction::Over(StepEnd::LastFailed)
    );
}

#[test]
fn a_running_core_is_polled_and_the_debugger_heard() {
    assert_eq!(wait_for_stop_reason(WaitEvent::Halted(false)), WaitAction::Peek);
    assert_eq!(wait_for_stop_reason(WaitEvent::Peeked(false)), WaitAction::Pause);
    assert_eq!(wait_for_stop_reason(WaitEvent::Paused), WaitAction::AskHalted);
    assert_eq!(wait_for_stop_reason(WaitEvent::Peeked(true)), WaitAction::ReadByte);
    assert_eq!(wait_for_stop_reason(WaitEvent::Halted(true)), WaitAction::AskStatus);
    assert_eq!(
        wait_for_stop_reason(WaitEvent::Status(true)),
        WaitAction::StoppedAtBreakpoint
    );
    assert_eq!(wait_for_stop_reason(WaitEvent::Status(false)), WaitAction::Trapped);
}
