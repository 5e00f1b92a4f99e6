use esprobe::core_run::{
    next, not_reached, to_words, CoreEnd, CoreEvent, CoreMove, CoreOp, CoreRequest,
};

/// A core that halts after a few looks.
struct Core {
    halted: bool,
    looks: u32,
    late: bool,
    clears: bool,
    pc: u64,
    memory: Vec<u32>,
    ops: Vec<CoreOp>,
}

impl Core {
    fn new(halted: bool) -> Core {
        Core {
            halted,
            looks: 2,
            late: false,
            clears: true,
            pc: 0x0800_0100,
            memory: vec![0; 4],
            ops: Vec::new(),
        }
    }

    fn perform(&mut self, op: CoreOp, request: &CoreRequest) -> CoreEvent {
        self.ops.push(op);
        match op {
            CoreOp::AskStatus => CoreEvent::Told("Running".to_string()),
            CoreOp::AskHalted => {
                if !self.halted && self.ops.contains(&CoreOp::SetBreakpoint) {
                    self.looks -= 1;
                    self.halted = self.looks == 0;
                }
                CoreEvent::Yes(self.halted)
            }
            CoreOp::Halt | CoreOp::ResetAndHalt => {
                self.halted = true;
                CoreEvent::Pc(self.pc)
            }
            CoreOp::Run | CoreOp::Reset => {
                self.halted = false;
                CoreEvent::Done
            }
            CoreOp::Step => {
                self.pc += 2;
                CoreEvent::Pc(self.pc)
            }
            CoreOp::ReadRegisters => CoreEvent::Lines(vec!["R0           0x0".to_string()]),
            CoreOp::ReadWords => CoreEvent::Words(self.memory.clone()),
            CoreOp::WriteWords => {
                if let CoreRequest::Write { values, .. } = request {
                    self.memory = values.clone();
                }
                CoreEvent::Done
            }
            CoreOp::ClearBreakpoint if !self.clears => CoreEvent::Failed,
            CoreOp::AskLate => CoreEvent::Yes(self.late),
            CoreOp::ReadPc => CoreEvent::Pc(self.pc),
            CoreOp::AskUnits => CoreEvent::Units(4),
            CoreOp::SetBreakpoint | CoreOp::ClearBreakpoint | CoreOp::Pause => CoreEvent::Done,
        }
    }

    fn run(&mut self, request: &CoreRequest) -> (Vec<String>, CoreEnd) {
        let mut said = Vec::new();
        let mut step = request.start();
        loop {
            match step {
                CoreMove::Over(end) => return (said, end),
                CoreMove::Ask(op, stage) => {
                    let event = self.perform(op, request);
                    let (lines, after) = next(request, stage, event);
                    said.extend(lines);
                    step = after;
                }
            }
        }
    }
}

#[test]
fn a_core_is_stopped_and_started() {
    let mut core = Core::new(false);
    for (request, line) in [
        (CoreRequest::Status, "status=Running"),
        (CoreRequest::Halt, "halted pc=0x08000100"),
        (CoreRequest::Run, "running"),
        (CoreRequest::ResetHalt, "reset and halted pc=0x08000100"),
        (CoreRequest::Reset, "reset and running"),
        (CoreRequest::BreakSet { address: 0x10 }, "breakpoint set at 0x00000010"),
        (CoreRequest::BreakClear { address: 0x10 }, "breakpoint cleared at 0x00000010"),
        (CoreRequest::BreakInfo, "hardware breakpoint units=4"),
    ] {
        assert_eq!(core.run(&request), (vec![line.to_string()], CoreEnd::Good));
    }
}

#[test]
fn a_running_core_is_halted_before_it_is_stepped() {
    let mut core = Core::new(false);
    let (said, end) = core.run(&CoreRequest::Step { count: 2 });
    assert_eq!(end, CoreEnd::Good);
    assert_eq!(said, ["step=1 pc=0x08000102", "step=2 pc=0x08000104"]);
    assert_eq!(
        core.ops,
        [CoreOp::AskHalted, CoreOp::Halt, CoreOp::Step, CoreOp::Step]
    );
    assert_eq!(Core::new(true).run(&CoreRequest::Step { count: 0 }), (vec![], CoreEnd::Good));
}

#[test]
fn reading_registers_leaves_the_core_as_it_was() {
    let mut running = Core::new(false);
    running.run(&CoreRequest::Registers);
    assert!(!running.halted);
    let mut halted = Core::new(true);
    let (said, _) = halted.run(&CoreRequest::Registers);
    assert!(halted.halted);
    assert_eq!(said.len(), 1);
}

#[test]
fn words_are_written_and_read_back() {
    let mut core = Core::new(true);
    let request = CoreRequest::Write { address: 0x2000_0000, values: vec![7, 8] };
    let (said, end) = core.run(&request);
    assert_eq!(end, CoreEnd::Good);
    assert_eq!(said[1], "0x20000004 wrote 0x00000008 reads 0x00000008");
    let (said, _) = core.run(&CoreRequest::Read { address: 0x2000_0000, words: 2 });
    assert_eq!(said[0], "0x20000000 0x00000007");
    let (_, stage) = match request.start() {
        CoreMove::Ask(op, stage) => (op, stage),
        CoreMove::Over(_) => panic!("a write asks for something"),
    };
    let back = match next(&request, stage, CoreEvent::Done).1 {
        CoreMove::Ask(_, stage) => stage,
        CoreMove::Over(_) => panic!("a write is read back"),
    };
    let (said, after) = next(&request, back, CoreEvent::Words(vec![7, 9]));
    assert_eq!(after, CoreMove::Over(CoreEnd::NotTaken));
    assert!(said[1].ends_with("  MISMATCH"));
    assert_eq!(to_words(&vec![0x1_0000_0002, 3]), [2, 3]);
}

#[test]
fn a_breakpoint_to_run_to_is_cleared_either_way() {
    let request = CoreRequest::RunTo { address: 0x0800_0100, timeout_ms: 5_000 };
    let mut core = Core::new(false);
    let (said, end) = core.run(&request);
    assert_eq!(
        (said, end),
        (vec!["halted at breakpoint pc=0x08000100".to_string()], CoreEnd::Good)
    );
    assert!(core.ops.contains(&CoreOp::ClearBreakpoint));

    let mut late = Core::new(false);
    late.late = true;
    late.looks = 9;
    assert_eq!(late.run(&request), (vec![], CoreEnd::NotReached));
    assert_eq!(late.ops.last(), Some(&CoreOp::ClearBreakpoint));
    assert_eq!(
        not_reached(0x0800_0100, 5_000),
        "the core did not reach 0x08000100 within 5000 ms"
    );

    let mut stuck = Core::new(true);
    stuck.clears = false;
    stuck.looks = 1;
    assert_eq!(stuck.run(&request).1, CoreEnd::ClearFailed);
    let mut both = Core::new(true);
    both.clears = false;
    both.late = true;
    both.looks = 9;
    assert_eq!(both.run(&request).1, CoreEnd::LastFailed);
}

#[test]
fn a_core_that_does_not_answer_ends_the_command() {
    let request = CoreRequest::Halt;
    let stage = match request.start() {
        CoreMove::Ask(CoreOp::Halt, stage) => stage,
        _ => panic!("a halt asks for a halt"),
    };
    assert_eq!(
        next(&request, stage, CoreEvent::Failed),
        (vec![], CoreMove::Over(CoreEnd::LastFailed))
    );
}
