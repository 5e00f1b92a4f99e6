//! Transfers driven by hand, to find which access sets a sticky error.
//!
//! The debug domain is powered up, one word of memory is read, written and read
//! back, and the debug port's status is asked for after each step.

use crate::report;
use crate::swd::wire::{ABORT_ALL, CORTEX_M_WORD_CSW, POWER_REQUEST};
use crate::text;
use vstd::prelude::*;

verus! {

/// One thing to do, in turn.
#[derive(Clone, Copy, Debug, Eq, PartialEq, Structural)]
pub enum Poke {
    /// Read the debug port's identification: after a line reset it answers
    /// nothing else.
    Identity,
    /// Write a register.
    Write { access_port: bool, register: u8, value: u32 },
    /// Read the word of memory that the access port points at.
    Memory { back: bool },
    /// Read the debug port's status.
    Status(After),
}

/// What the status is asked for after.
#[derive(Clone, Copy, Debug, Eq, PartialEq, Structural)]
pub enum After {
    PowerUp,
    Csw,
    Tar,
    Read,
    Write,
    ReadBack,
}

impl After {
    pub open spec fn words(self) -> Seq<char> {
        match self {
            After::PowerUp => "after power-up"@,
            After::Csw => "after csw write"@,
            After::Tar => "after tar write"@,
            After::Read => "after drw read"@,
            After::Write => "after drw write"@,
            After::ReadBack => "after readback"@,
        }
    }
}

/// A write to the debug port, or to the access port.
pub open spec fn write(access_port: bool, register: u8, value: u32) -> Poke {
    Poke::Write { access_port, register, value }
}

/// All that is done, in order.
pub open spec fn poking(address: u32, value: u32) -> Seq<Poke> {
    seq![
        Poke::Identity,
        write(false, 0x00, ABORT_ALL),
        write(false, 0x08, 0),
        write(false, 0x04, POWER_REQUEST),
        Poke::Status(After::PowerUp),
        write(true, 0x00, CORTEX_M_WORD_CSW),
        Poke::Status(After::Csw),
        write(true, 0x04, address),
        Poke::Status(After::Tar),
        Poke::Memory { back: false },
        Poke::Status(After::Read),
        write(true, 0x0c, value),
        Poke::Status(After::Write),
        write(true, 0x04, address),
        Poke::Memory { back: true },
        Poke::Status(After::ReadBack),
    ]
}

/// Lists all that is done, in order.
pub fn plan(address: u32, value: u32) -> (steps: Vec<Poke>)
    ensures
        steps@ == poking(address, value),
{
    let mut steps: Vec<Poke> = Vec::new();
    steps.push(Poke::Identity);
    steps.push(Poke::Write { access_port: false, register: 0x00, value: ABORT_ALL });
    steps.push(Poke::Write { access_port: false, register: 0x08, value: 0 });
    steps.push(Poke::Write { access_port: false, register: 0x04, value: POWER_REQUEST });
    steps.push(Poke::Status(After::PowerUp));
    steps.push(Poke::Write { access_port: true, register: 0x00, value: CORTEX_M_WORD_CSW });
    steps.push(Poke::Status(After::Csw));
    steps.push(Poke::Write { access_port: true, register: 0x04, value: address });
    steps.push(Poke::Status(After::Tar));
    steps.push(Poke::Memory { back: false });
    steps.push(Poke::Status(After::Read));
    steps.push(Poke::Write { access_port: true, register: 0x0c, value });
    steps.push(Poke::Status(After::Write));
    steps.push(Poke::Write { access_port: true, register: 0x04, value: address });
    steps.push(Poke::Memory { back: true });
    steps.push(Poke::Status(After::ReadBack));
    assert(steps@ =~= poking(address, value));
    steps
}

/// What is told of a word that a step read.
pub open spec fn told_of(step: Poke, address: u32, word: u32) -> Option<Seq<char>> {
    match step {
        Poke::Identity => Some("dpidr                 0x"@ + text::hex(word as nat, 8)),
        Poke::Write { .. } => None,
        Poke::Memory { back } => Some(
            (if back {
                "memory readback       0x"@
            } else {
                "memory read           0x"@
            }) + text::hex(address as nat, 8) + " -> 0x"@ + text::hex(word as nat, 8),
        ),
        Poke::Status(after) => Some(report::sticky_line(after.words(), word)),
    }
}

/// Tells of the word that a step read, where it reads one.
pub fn tell(step: Poke, address: u32, word: u32) -> (line: Option<String>)
    ensures
        match (told_of(step, address, word), line) {
            (Some(words), Some(line)) => line@ == words,
            (None, None) => true,
            _ => false,
        },
{
    match step {
        Poke::Identity => {
            let mut line: String = "dpidr                 0x".to_owned();
            text::push_hex(&mut line, word as u64, 8);
            Some(line)
        },
        Poke::Write { .. } => None,
        Poke::Memory { back } => {
            let mut line: String = if back {
                "memory readback       0x".to_owned()
            } else {
                "memory read           0x".to_owned()
            };
            text::push_hex(&mut line, address as u64, 8);
            line.push_str(" -> 0x");
            text::push_hex(&mut line, word as u64, 8);
            Some(line)
        },
        Poke::Status(after) => {
            let words: &str = match after {
                After::PowerUp => "after power-up",
                After::Csw => "after csw write",
                After::Tar => "after tar write",
                After::Read => "after drw read",
                After::Write => "after drw write",
                After::ReadBack => "after readback",
            };
            Some(report::sticky(words, word))
        },
    }
}

/// What is poked is the target's own way to its memory: the sticky errors are
/// cleared with 0x1f, bank zero is selected, power is asked for with
/// 0x5000_0000, words are set up with 0x2300_0052, and the address is written
/// before each of the two reads; the word is written between them. The status is
/// asked for after each of these but the last address, so that whichever sets an
/// error is seen to.
pub proof fn law_a_poke_is_made_step_by_step(address: u32, value: u32)
    ensures
        ({
            let steps = poking(address, value);
            &&& steps.len() == 16
            &&& steps[0] is Identity
            &&& steps[1] == (Poke::Write { access_port: false, register: 0, value: 0x1f })
            &&& steps[2] == (Poke::Write { access_port: false, register: 8, value: 0 })
            &&& steps[3] == (Poke::Write { access_port: false, register: 4, value: 0x5000_0000 })
            &&& steps[5] == (Poke::Write { access_port: true, register: 0, value: 0x2300_0052 })
            &&& steps[7] == (Poke::Write { access_port: true, register: 4, value: address })
            &&& steps[9] == (Poke::Memory { back: false })
            &&& steps[11] == (Poke::Write { access_port: true, register: 12, value })
            &&& steps[13] == (Poke::Write { access_port: true, register: 4, value: address })
            &&& steps[14] == (Poke::Memory { back: true })
            &&& forall|i: int|
                0 <= i < 16 ==> ((#[trigger] steps[i] is Status) <==> (i == 4 || i == 6 || i == 8
                    || i == 10 || i == 12 || i == 15))
            &&& steps[4] == Poke::Status(After::PowerUp) && steps[6] == Poke::Status(After::Csw)
            &&& steps[8] == Poke::Status(After::Tar) && steps[10] == Poke::Status(After::Read)
            &&& steps[12] == Poke::Status(After::Write) && steps[15] == Poke::Status(
                After::ReadBack,
            )
        }),
{
}

} // verus!
