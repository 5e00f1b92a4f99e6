//! A Cortex-M core as a debugger drives it: its register file, its breakpoint
//! units, and stepping off an armed instruction.

use crate::bytes;
use vstd::prelude::*;

verus! {

/// Cortex-M register numbers, which are also the order of the register file.
pub const SP: u16 = 13;

pub const LR: u16 = 14;

pub const PC: u16 = 15;

pub const XPSR: u16 = 16;

/// How many registers the register file has.
pub const REGISTERS: u16 = 17;

/// How long to wait before an operation is tried again.
pub const RETRY_MS: u64 = 2;

/// The seventeen registers this architecture exposes to GDB.
///
/// The register file that an A-profile core describes carries the legacy FPA
/// registers as well — 168 bytes where a Cortex-M has 68. GDB checks that
/// length against the target description and refuses the session outright, so
/// the register file has to be defined here to match.
#[derive(Clone, Copy, Debug, Default, PartialEq)]
pub struct CortexMRegs {
    pub r: [u32; 13],
    pub sp: u32,
    pub lr: u32,
    pub pc: u32,
    pub xpsr: u32,
}

impl CortexMRegs {
    /// The registers in the order of their numbers.
    pub open spec fn words(self) -> Seq<u32> {
        self.r@ + seq![self.sp, self.lr, self.pc, self.xpsr]
    }

    pub fn pc(&self) -> (pc: u32)
        ensures
            pc == self.pc,
    {
        self.pc
    }

    /// What the register with this number holds.
    pub fn get(&self, id: u16) -> (value: u32)
        requires
            id < REGISTERS,
        ensures
            value == self.words()[id as int],
    {
        if id < SP {
            self.r[id as usize]
        } else if id == SP {
            self.sp
        } else if id == LR {
            self.lr
        } else if id == PC {
            self.pc
        } else {
            self.xpsr
        }
    }

    /// Puts a value into the register with this number.
    pub fn set(&mut self, id: u16, value: u32)
        requires
            id < REGISTERS,
        ensures
            final(self).words() == old(self).words().update(id as int, value),
    {
        if id < SP {
            self.r[id as usize] = value;
        } else if id == SP {
            self.sp = value;
        } else if id == LR {
            self.lr = value;
        } else if id == PC {
            self.pc = value;
        } else {
            self.xpsr = value;
        }
        assert(self.words() =~= old(self).words().update(id as int, value));
    }

    /// The register file as GDB's packets carry it, least significant byte
    /// first.
    pub fn gdb_serialize(&self) -> (packet: Vec<u8>)
        ensures
            packet@ == bytes::words_le(self.words()),
    {
        let mut words: Vec<u32> = Vec::new();
        let mut id: u16 = 0;
        while id < REGISTERS
            invariant
                id <= REGISTERS,
                words@ == self.words().take(id as int),
            decreases REGISTERS - id,
        {
            words.push(self.get(id));
            id += 1;
            assert(words@ =~= self.words().take(id as int));
        }
        assert(words@ =~= self.words());
        let mut packet: Vec<u8> = Vec::new();
        bytes::push_words(&mut packet, words.as_slice());
        assert(packet@ =~= bytes::words_le(self.words()));
        packet
    }

    /// Takes the register file from a packet. One that is not exactly the
    /// register file is refused, and nothing changes.
    pub fn gdb_deserialize(&mut self, packet: &[u8]) -> (taken: Result<(), ()>)
        ensures
            taken is Ok <==> packet@.len() == 68,
            taken is Ok ==> final(self).words() == bytes::read_words(packet@),
            taken is Err ==> *final(self) == *old(self),
    {
        if packet.len() != 68 {
            return Err(());
        }
        let words: Vec<u32> = bytes::get_words(packet);
        let mut id: u16 = 0;
        while id < REGISTERS
            invariant
                id <= REGISTERS,
                words@.len() == REGISTERS,
                self.words().take(id as int) == words@.take(id as int),
            decreases REGISTERS - id,
        {
            let ghost before = self.words();
            self.set(id, words[id as usize]);
            assert(self.words().take(id + 1) =~= words@.take(id + 1)) by {
                assert forall|i: int| 0 <= i < id implies self.words()[i] == words@[i] by {
                    assert(before.take(id as int)[i] == words@.take(id as int)[i]);
                }
            }
            id += 1;
        }
        assert(self.words() =~= words@) by {
            assert(self.words().take(17) =~= self.words());
            assert(words@.take(17) =~= words@);
        }
        Ok(())
    }
}

/// Register numbers, which are GDB's and the core's alike for r0..pc.
#[derive(Clone, Copy, Debug, Eq, PartialEq, Structural)]
pub struct CortexMRegId(pub u16);

impl CortexMRegId {
    /// The register that GDB calls `id`, and how many bytes it takes.
    pub fn from_raw_id(id: usize) -> (register: Option<(CortexMRegId, usize)>)
        ensures
            register == (if id < REGISTERS {
                Some((CortexMRegId(id as u16), 4usize))
            } else {
                None
            }),
    {
        if id < REGISTERS as usize {
            Some((CortexMRegId(id as u16), 4))
        } else {
            None
        }
    }
}

/// As much of a register's bytes as a reader has room for.
pub fn register_bytes(value: u32, room: usize) -> (bytes: Vec<u8>)
    ensures
        bytes@ == bytes::le32(value).take(if room < 4 {
            room as int
        } else {
            4
        }),
{
    let mut out: Vec<u8> = Vec::new();
    bytes::push_le32(&mut out, value);
    assert(out@ =~= bytes::le32(value));
    if room < 4 {
        out.truncate(room);
    }
    assert(out@ =~= bytes::le32(value).take(if room < 4 {
        room as int
    } else {
        4
    }));
    out
}

/// The value of a register from its bytes, which must be four.
pub fn register_value(packet: &[u8]) -> (value: Option<u32>)
    ensures
        value == (if packet@.len() == 4 {
            Some(bytes::read32(packet@))
        } else {
            None
        }),
{
    if packet.len() == 4 {
        assert(packet@.skip(0) =~= packet@);
        Some(bytes::get_le32(packet, 0))
    } else {
        None
    }
}

/// Every breakpoint GDB has asked for. GDB sets and clears these around each
/// resume, and the core has only a handful of units, so refusing clearly beats
/// silently dropping one.
#[derive(Debug)]
pub struct Units {
    pub held: Vec<u64>,
    pub units: usize,
}

/// What setting a breakpoint takes.
#[derive(Clone, Copy, Debug, Eq, PartialEq, Structural)]
pub enum Adding {
    /// It is set already.
    Held,
    /// Every unit is taken. Reported to GDB as a plain failure, which it
    /// renders as "cannot insert breakpoint". Better than accepting it and
    /// never stopping.
    Full,
    /// A unit has to be pointed at it, and `note_set` told.
    Free,
}

impl Units {
    /// No address is held twice, and no more than there are units.
    pub open spec fn wf(self) -> bool {
        self.held@.no_duplicates() && self.held@.len() <= self.units
    }

    pub fn new(units: usize) -> (fresh: Units)
        ensures
            fresh.wf(),
            fresh.held@ == Seq::<u64>::empty(),
            fresh.units == units,
    {
        Units { held: Vec::new(), units }
    }

    /// Where an address is held.
    pub fn position(&self, address: u64) -> (at: Option<usize>)
        ensures
            match at {
                Some(at) => at < self.held@.len() && self.held@[at as int] == address,
                None => !self.held@.contains(address),
            },
    {
        let mut at: usize = 0;
        while at < self.held.len()
            invariant
                at <= self.held@.len(),
                forall|i: int| 0 <= i < at ==> self.held@[i] != address,
            decreases self.held@.len() - at,
        {
            if self.held[at] == address {
                return Some(at);
            }
            at += 1;
        }
        None
    }

    /// What setting a breakpoint at `address` takes.
    pub fn adding(&self, address: u64) -> (adding: Adding)
        ensures
            adding == (if self.held@.contains(address) {
                Adding::Held
            } else if self.held@.len() >= self.units {
                Adding::Full
            } else {
                Adding::Free
            }),
    {
        match self.position(address) {
            Some(at) => {
                assert(self.held@[at as int] == address);
                Adding::Held
            },
            None => if self.held.len() >= self.units {
                Adding::Full
            } else {
                Adding::Free
            },
        }
    }

    /// A unit has been pointed at `address`.
    pub fn note_set(&mut self, address: u64)
        requires
            old(self).wf(),
            !old(self).held@.contains(address),
            old(self).held@.len() < old(self).units,
        ensures
            final(self).wf(),
            final(self).held@ == old(self).held@.push(address),
            final(self).units == old(self).units,
    {
        self.held.push(address);
    }

    /// The unit that was pointed at the held address with this index is free.
    pub fn note_cleared(&mut self, at: usize)
        requires
            old(self).wf(),
            at < old(self).held@.len(),
        ensures
            final(self).wf(),
            final(self).held@ == old(self).held@.remove(at as int),
            final(self).units == old(self).units,
            !final(self).held@.contains(old(self).held@[at as int]),
    {
        let ghost before = self.held@;
        self.held.remove(at);
        assert forall|i: int, j: int|
            0 <= i < self.held@.len() && 0 <= j < self.held@.len() && i != j implies self.held@[i]
            != self.held@[j] by {
            let a = if i < at {
                i
            } else {
                i + 1
            };
            let b = if j < at {
                j
            } else {
                j + 1
            };
            assert(self.held@[i] == before[a]);
            assert(self.held@[j] == before[b]);
        }
        assert(!self.held@.contains(before[at as int])) by {
            if self.held@.contains(before[at as int]) {
                let i = choose|i: int|
                    0 <= i < self.held@.len() && self.held@[i] == before[at as int];
                let a = if i < at {
                    i
                } else {
                    i + 1
                };
                assert(self.held@[i] == before[a]);
            }
        }
    }
}

/// A breakpoint that was set and removed again leaves the others as they were.
pub proof fn law_removing_undoes_adding(held: Seq<u64>, address: u64)
    requires
        !held.contains(address),
    ensures
        held.push(address).remove(held.len() as int) == held,
{
    assert(held.push(address).remove(held.len() as int) =~= held);
}

/// What to ask of the core next, while one instruction is stepped.
#[derive(Clone, Copy, Debug, Eq, PartialEq, Structural)]
pub enum StepAction {
    ReadPc,
    /// Takes the breakpoint at this address away.
    Disarm(u64),
    Step,
    /// Points a unit at this address again.
    Arm(u64),
    /// The step is over: done, or failed with the error of the first action
    /// here that says so.
    Over(StepEnd),
}

/// How a step ends.
#[derive(Clone, Copy, Debug, Eq, PartialEq, Structural)]
pub enum StepEnd {
    Stepped,
    /// The last action that was asked for failed.
    LastFailed,
    /// The step itself failed; what was asked for after it did not.
    StepFailed,
}

/// How far the stepping of one instruction has come.
#[derive(Clone, Copy, Debug, Eq, PartialEq, Structural)]
pub enum Stepping {
    ReadingPc,
    Disarming(u64),
    /// Over the instruction at an address that is to be armed again, if any.
    Crossing(Option<u64>),
    /// Arming again; whether the step before it succeeded.
    Arming(bool),
}

impl Stepping {
    /// What an answer leads to. The address that the core is at counts only
    /// while it is being read.
    pub open spec fn led_to(
        self,
        held: Seq<u64>,
        succeeded: bool,
        pc: u64,
    ) -> (Stepping, StepAction) {
        match self {
            Stepping::ReadingPc => if !succeeded {
                (self, StepAction::Over(StepEnd::LastFailed))
            } else if held.contains(pc) {
                (Stepping::Disarming(pc), StepAction::Disarm(pc))
            } else {
                (Stepping::Crossing(None), StepAction::Step)
            },
            Stepping::Disarming(at) => if succeeded {
                (Stepping::Crossing(Some(at)), StepAction::Step)
            } else {
                (self, StepAction::Over(StepEnd::LastFailed))
            },
            Stepping::Crossing(Some(at)) => (Stepping::Arming(succeeded), StepAction::Arm(at)),
            Stepping::Crossing(None) => (
                self,
                StepAction::Over(
                    if succeeded {
                        StepEnd::Stepped
                    } else {
                        StepEnd::LastFailed
                    },
                ),
            ),
            Stepping::Arming(stepped) => (
                self,
                StepAction::Over(
                    if !succeeded {
                        StepEnd::LastFailed
                    } else if stepped {
                        StepEnd::Stepped
                    } else {
                        StepEnd::StepFailed
                    },
                ),
            ),
        }
    }

    /// Steps one instruction, disarming any breakpoint on the instruction being
    /// stepped over.
    ///
    /// Stepping off an address that still has a hardware unit pointed at it
    /// makes the core halt on the breakpoint again instead of advancing. Left
    /// alone, a source-level `step` in GDB, which is many instruction steps,
    /// would fail and take the whole session down with it. The breakpoint is
    /// armed again even if the step failed, so that the one GDB believes in
    /// still exists.
    pub fn next(&self, units: &Units, succeeded: bool, pc: u64) -> (next: (Stepping, StepAction))
        ensures
            next == self.led_to(units.held@, succeeded, pc),
    {
        match *self {
            Stepping::ReadingPc => if !succeeded {
                (*self, StepAction::Over(StepEnd::LastFailed))
            } else {
                match units.position(pc) {
                    Some(at) => {
                        assert(units.held@[at as int] == pc);
                        (Stepping::Disarming(pc), StepAction::Disarm(pc))
                    },
                    None => (Stepping::Crossing(None), StepAction::Step),
                }
            },
            Stepping::Disarming(at) => if succeeded {
                (Stepping::Crossing(Some(at)), StepAction::Step)
            } else {
                (*self, StepAction::Over(StepEnd::LastFailed))
            },
            Stepping::Crossing(Some(at)) => (Stepping::Arming(succeeded), StepAction::Arm(at)),
            Stepping::Crossing(None) => if succeeded {
                (*self, StepAction::Over(StepEnd::Stepped))
            } else {
                (*self, StepAction::Over(StepEnd::LastFailed))
            },
            Stepping::Arming(stepped) => if !succeeded {
                (*self, StepAction::Over(StepEnd::LastFailed))
            } else if stepped {
                (*self, StepAction::Over(StepEnd::Stepped))
            } else {
                (*self, StepAction::Over(StepEnd::StepFailed))
            },
        }
    }
}

/// A breakpoint that was taken away for a step is asked for again, whether the
/// step succeeded or not.
pub proof fn law_a_disarmed_breakpoint_is_armed_again(
    held: Seq<u64>,
    pc: u64,
    stepped: bool,
    later: u64,
    latest: u64,
)
    requires
        held.contains(pc),
    ensures
        ({
            let (disarming, first) = Stepping::ReadingPc.led_to(held, true, pc);
            let (crossing, second) = disarming.led_to(held, true, later);
            let (arming, third) = crossing.led_to(held, stepped, latest);
            &&& first == StepAction::Disarm(pc)
            &&& second == StepAction::Step
            &&& third == StepAction::Arm(pc)
            &&& arming.led_to(held, true, latest).1 == StepAction::Over(
                if stepped {
                    StepEnd::Stepped
                } else {
                    StepEnd::StepFailed
                },
            )
        }),
{
}

/// What to do next, while the core runs for a debugger.
#[derive(Clone, Copy, Debug, Eq, PartialEq, Structural)]
pub enum WaitAction {
    /// Ask whether the core has halted. The core is polled rather than
    /// interrupt-driven: SWD has no way to notify, so stopping is only ever
    /// observed by asking.
    AskHalted,
    /// Ask why it has.
    AskStatus,
    /// Look whether the debugger has sent something.
    Peek,
    /// Take the byte that it has sent, and hand it on.
    ReadByte,
    /// Pause before the next question.
    Pause,
    StoppedAtBreakpoint,
    Trapped,
}

/// What came of an action.
#[derive(Clone, Copy, Debug, Eq, PartialEq, Structural)]
pub enum WaitEvent {
    Halted(bool),
    /// Whether a breakpoint is why.
    Status(bool),
    /// Whether there is a byte.
    Peeked(bool),
    Paused,
}

/// What a running core's answers lead to.
pub fn wait_for_stop_reason(event: WaitEvent) -> (action: WaitAction)
    ensures
        action == (match event {
            WaitEvent::Halted(true) => WaitAction::AskStatus,
            WaitEvent::Halted(false) => WaitAction::Peek,
            WaitEvent::Status(true) => WaitAction::StoppedAtBreakpoint,
            WaitEvent::Status(false) => WaitAction::Trapped,
            WaitEvent::Peeked(true) => WaitAction::ReadByte,
            WaitEvent::Peeked(false) => WaitAction::Pause,
            WaitEvent::Paused => WaitAction::AskHalted,
        }),
{
    match event {
        WaitEvent::Halted(halted) => if halted {
            WaitAction::AskStatus
        } else {
            WaitAction::Peek
        },
        WaitEvent::Status(breakpoint) => if breakpoint {
            WaitAction::StoppedAtBreakpoint
        } else {
            WaitAction::Trapped
        },
        WaitEvent::Peeked(waiting) => if waiting {
            WaitAction::ReadByte
        } else {
            WaitAction::Pause
        },
        WaitEvent::Paused => WaitAction::AskHalted,
    }
}

/// The register file survives its packet: reading back what was written gives
/// the same registers.
pub proof fn law_registers_survive_their_packet(regs: CortexMRegs)
    ensures
        bytes::words_le(regs.words()).len() == 68,
        bytes::read_words(bytes::words_le(regs.words())) == regs.words(),
{
    bytes::lemma_words_le_len(regs.words());
    bytes::law_read_words_undoes_words_le(regs.words());
}

/// Each register has its place in the packet: r0 to r12 first, then the stack
/// pointer, the link register, the program counter and the status, four bytes
/// each and the least significant first.
pub proof fn law_each_register_has_its_place(regs: CortexMRegs, i: int)
    requires
        0 <= i < 13,
    ensures
        ({
            let packet = bytes::words_le(regs.words());
            &&& packet.len() == 68
            &&& packet.subrange(4 * i, 4 * i + 4) == bytes::le32(regs.r@[i])
            &&& packet.subrange(52, 56) == bytes::le32(regs.sp)
            &&& packet.subrange(56, 60) == bytes::le32(regs.lr)
            &&& packet.subrange(60, 64) == bytes::le32(regs.pc)
            &&& packet.subrange(64, 68) == bytes::le32(regs.xpsr)
        }),
{
    let words = regs.words();
    bytes::law_a_word_of_a_block_stands_in_its_place(words, i);
    bytes::law_a_word_of_a_block_stands_in_its_place(words, 13);
    bytes::law_a_word_of_a_block_stands_in_its_place(words, 14);
    bytes::law_a_word_of_a_block_stands_in_its_place(words, 15);
    bytes::law_a_word_of_a_block_stands_in_its_place(words, 16);
}

/// A step that crosses no breakpoint is one step and touches none; whatever
/// fails before it ends it at once.
pub proof fn law_a_plain_step_touches_no_breakpoint(
    held: Seq<u64>,
    pc: u64,
    stepped: bool,
    later: u64,
    at: u64,
)
    requires
        !held.contains(pc),
    ensures
        ({
            let (crossing, first) = Stepping::ReadingPc.led_to(held, true, pc);
            &&& first == StepAction::Step
            &&& crossing.led_to(held, stepped, later).1 == StepAction::Over(
                if stepped {
                    StepEnd::Stepped
                } else {
                    StepEnd::LastFailed
                },
            )
        }),
        Stepping::ReadingPc.led_to(held, false, pc).1 == StepAction::Over(StepEnd::LastFailed),
        Stepping::Disarming(at).led_to(held, false, pc).1 == StepAction::Over(StepEnd::LastFailed),
        Stepping::Arming(stepped).led_to(held, false, pc).1 == StepAction::Over(
            StepEnd::LastFailed,
        ),
{
}

} // verus!
