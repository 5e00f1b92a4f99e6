//! What the ARM debug port says it is, before any vendor register is touched.

use crate::bytes;
use crate::frame::Command;
use crate::serial_dap;
use crate::text;
use vstd::prelude::*;

verus! {

/// What the ARM debug port says it is.
///
/// This is the only identity a probe can report without knowing the vendor:
/// DPIDR is architectural, defined by ADIv5, and every conforming target
/// answers it. What *part* this is takes a vendor register at a vendor address,
/// which is a thing this tool deliberately does not know.
#[derive(Clone, Copy, Debug, Eq, PartialEq, Structural)]
pub struct DebugPortId {
    pub raw: u32,
    /// JEP106 continuation and identity code of whoever designed the DP.
    pub designer: u16,
    pub part_number: u8,
    pub revision: u8,
    /// DP architecture version: 1 for DPv1, 2 for DPv2, and so on.
    pub version: u8,
    /// Whether the DP reports minimal-DP behaviour (no TRANSACTION COUNTER,
    /// no PUSHED verify).
    pub minimal: bool,
}

/// The fields of a DPIDR.
pub open spec fn decoded(raw: u32) -> DebugPortId {
    DebugPortId {
        raw,
        designer: (raw / 2 % 2048) as u16,
        part_number: (raw / 0x10_0000 % 256) as u8,
        revision: (raw / 0x1000_0000) as u8,
        version: (raw / 4096 % 16) as u8,
        minimal: raw / 65536 % 2 == 1,
    }
}

/// A designer's code is written with three digits, or the four it needs.
pub open spec fn designer_digits(designer: u16) -> nat {
    if designer < 4096 {
        3
    } else {
        4
    }
}

/// What an identification reads as.
pub open spec fn described(id: DebugPortId) -> Seq<char> {
    "dp_id=0x"@ + text::hex(id.raw as nat, 8) + " designer=0x"@ + text::hex(
        id.designer as nat,
        designer_digits(id.designer),
    ) + " part=0x"@ + text::hex(id.part_number as nat, 2) + " rev="@ + text::decimal(
        id.revision as nat,
    ) + " dp_version="@ + text::decimal(id.version as nat) + " minimal="@ + (if id.minimal {
        "true"@
    } else {
        "false"@
    })
}

impl DebugPortId {
    #[must_use]
    pub fn decode(raw: u32) -> (id: DebugPortId)
        ensures
            id == decoded(raw),
    {
        DebugPortId {
            raw,
            designer: (raw / 2 % 2048) as u16,
            part_number: (raw / 0x10_0000 % 256) as u8,
            revision: (raw / 0x1000_0000) as u8,
            version: (raw / 4096 % 16) as u8,
            minimal: raw / 65536 % 2 == 1,
        }
    }

    /// What the identification reads as.
    #[must_use]
    pub fn describe(&self) -> (told: String)
        ensures
            told@ == described(*self),
    {
        let mut out: String = String::new();
        out.push_str("dp_id=0x");
        text::push_hex(&mut out, self.raw as u64, 8);
        out.push_str(" designer=0x");
        let digits: u8 = if self.designer < 4096 {
            3
        } else {
            4
        };
        text::push_hex(&mut out, self.designer as u64, digits);
        out.push_str(" part=0x");
        text::push_hex(&mut out, self.part_number as u64, 2);
        out.push_str(" rev=");
        text::push_decimal(&mut out, self.revision as u64);
        out.push_str(" dp_version=");
        text::push_decimal(&mut out, self.version as u64);
        out.push_str(" minimal=");
        out.push_str(
            if self.minimal {
                "true"
            } else {
                "false"
            },
        );
        assert(out@ =~= described(*self));
        out
    }
}

/// The debug port's registers by address.
pub const DP_IDCODE: u8 = 0x00;

pub const DP_CTRL_STAT: u8 = 0x04;

pub const DP_SELECT: u8 = 0x08;

/// Every sticky error cleared, and a transfer in progress aborted.
pub const ABORT_ALL: u32 = 0x1f;

/// Power asked for, for the debug domain and the system.
pub const POWER_REQUEST: u32 = 0x5000_0000;

/// How bringing up and identifying a debug port can fail.
#[derive(Clone, Copy, Debug, Eq, PartialEq, Structural)]
pub enum IdentifyError {
    /// A command was refused, or its reply was not a word.
    Transport,
    /// CTRL/STAT does not acknowledge both power requests.
    NotPowered { status: u32 },
    /// The port answered all zeros or all ones.
    NoIdentity { raw: u32 },
}

/// What identifying a port asks for next, or how it ended.
#[derive(Debug)]
pub enum IdentifyStep {
    Ask(Command, Vec<u8>),
    /// The port is up, and nothing more was wanted.
    Powered,
    /// The identity, and whether reset had to be held.
    Found(DebugPortId, bool),
    Failed(IdentifyError),
}

/// How far a debug port is brought.
#[derive(Clone, Copy, Debug, Eq, PartialEq, Structural)]
pub enum Reach {
    /// Powered up.
    Power,
    /// Powered up and identified.
    Identity,
}

/// Bringing a debug port up and, where that is wanted, reading its identity.
#[derive(Clone, Copy, Debug, Eq, PartialEq, Structural)]
pub struct Identify {
    /// Does the present attempt hold reset?
    pub under_reset: bool,
    pub stage: u8,
    /// Is an attempt that fails without reset held made again with it?
    pub falls_back: bool,
    pub reach: Reach,
}

impl Identify {
    /// Is a stage the last that is wanted?
    pub open spec fn ends_with(self, stage: u8) -> bool {
        stage == 6 || (stage == 5 && self.reach == Reach::Power)
    }
}

/// What each stage asks for: an attach, the identification that ends a line
/// reset, the errors cleared, bank zero selected, power asked for and looked
/// at, and the identification itself.
pub open spec fn stage_command(under_reset: bool, stage: u8) -> (Command, Seq<u8>) {
    if stage == 0 {
        (
            if under_reset {
                Command::AttachUnderReset
            } else {
                Command::Attach
            },
            Seq::empty(),
        )
    } else if stage == 2 {
        (Command::WriteRegister, serial_dap::write_payload(false, DP_IDCODE, ABORT_ALL))
    } else if stage == 3 {
        (Command::WriteRegister, serial_dap::write_payload(false, DP_SELECT, 0))
    } else if stage == 4 {
        (Command::WriteRegister, serial_dap::write_payload(false, DP_CTRL_STAT, POWER_REQUEST))
    } else if stage == 5 {
        (Command::ReadRegister, serial_dap::read_payload(false, DP_CTRL_STAT))
    } else {
        (Command::ReadRegister, serial_dap::read_payload(false, DP_IDCODE))
    }
}

/// Does a stage read a word?
pub open spec fn reads_word(stage: u8) -> bool {
    stage == 1 || stage == 5 || stage == 6
}

/// Are both power requests acknowledged?
pub open spec fn powered(status: u32) -> bool {
    status / 0x8000_0000 == 1 && status / 0x2000_0000 % 2 == 1
}

/// Tells whether the debug port reports both of its domains powered.
pub fn powered_up(status: u32) -> (yes: bool)
    ensures
        yes == powered(status),
{
    status / 0x8000_0000 == 1 && status / 0x2000_0000 % 2 == 1
}

/// Why a stage's reply ends the attempt, if it does. `None` stands for a
/// command that was refused.
pub open spec fn stage_failure(stage: u8, reply: Option<Seq<u8>>) -> Option<IdentifyError> {
    match reply {
        None => Some(IdentifyError::Transport),
        Some(reply) => if !reads_word(stage) {
            None
        } else if reply.len() != 4 {
            Some(IdentifyError::Transport)
        } else {
            let word = bytes::read32(reply);
            if stage == 5 && !powered(word) {
                Some(IdentifyError::NotPowered { status: word })
            } else if stage == 6 && (word == 0 || word == u32::MAX) {
                Some(IdentifyError::NoIdentity { raw: word })
            } else {
                None
            }
        },
    }
}

/// Is this stage asked for next?
pub open spec fn stage_asked(step: IdentifyStep, under_reset: bool, stage: u8) -> bool {
    step matches IdentifyStep::Ask(command, payload) && (command, payload@) == stage_command(
        under_reset,
        stage,
    )
}

/// What a stage's reply leads to. A first attempt that fails anywhere is made
/// again with reset held, if it is one that falls back.
pub open spec fn went_on(
    before: Identify,
    told: Option<Seq<u8>>,
    after: Identify,
    step: IdentifyStep,
) -> bool {
    let Identify { under_reset, stage, .. } = before;
    match stage_failure(stage, told) {
        Some(error) => if under_reset || !before.falls_back {
            &&& step == IdentifyStep::Failed(error)
            &&& after == before
        } else {
            &&& after == (Identify { under_reset: true, stage: 0, ..before })
            &&& stage_asked(step, true, 0)
        },
        None => if before.ends_with(stage) {
            &&& step == (if before.reach == Reach::Power {
                IdentifyStep::Powered
            } else {
                IdentifyStep::Found(decoded(bytes::read32(told->0)), under_reset)
            })
            &&& after == before
        } else {
            &&& after == (Identify { stage: (stage + 1) as u8, ..before })
            &&& stage_asked(step, under_reset, (stage + 1) as u8)
        },
    }
}

impl Identify {
    fn ask(&self) -> (step: IdentifyStep)
        requires
            self.stage <= 6,
        ensures
            stage_asked(step, self.under_reset, self.stage),
    {
        match self.stage {
            0 => {
                let payload: Vec<u8> = Vec::new();
                assert(payload@ =~= Seq::empty());
                IdentifyStep::Ask(
                    if self.under_reset {
                        Command::AttachUnderReset
                    } else {
                        Command::Attach
                    },
                    payload,
                )
            },
            2 => IdentifyStep::Ask(
                Command::WriteRegister,
                serial_dap::encode_write(false, DP_IDCODE, ABORT_ALL),
            ),
            3 => IdentifyStep::Ask(
                Command::WriteRegister,
                serial_dap::encode_write(false, DP_SELECT, 0),
            ),
            4 => IdentifyStep::Ask(
                Command::WriteRegister,
                serial_dap::encode_write(false, DP_CTRL_STAT, POWER_REQUEST),
            ),
            5 => IdentifyStep::Ask(
                Command::ReadRegister,
                serial_dap::encode_read(false, DP_CTRL_STAT),
            ),
            _ => IdentifyStep::Ask(
                Command::ReadRegister,
                serial_dap::encode_read(false, DP_IDCODE),
            ),
        }
    }

    fn begin(under_reset: bool, falls_back: bool, reach: Reach) -> (started: (
        Identify,
        IdentifyStep,
    ))
        ensures
            started.0 == (Identify { under_reset, stage: 0, falls_back, reach }),
            stage_asked(started.1, under_reset, 0),
    {
        let identify = Identify { under_reset, stage: 0, falls_back, reach };
        let step: IdentifyStep = identify.ask();
        (identify, step)
    }

    fn failure(&self, reply: &Option<Vec<u8>>) -> (failure: Option<IdentifyError>)
        ensures
            failure == stage_failure(
                self.stage,
                match *reply {
                    Some(bytes) => Some(bytes@),
                    None => None,
                },
            ),
    {
        match reply {
            None => Some(IdentifyError::Transport),
            Some(reply) => {
                if self.stage != 1 && self.stage != 5 && self.stage != 6 {
                    return None;
                }
                if reply.len() != 4 {
                    return Some(IdentifyError::Transport);
                }
                assert(reply@.skip(0) =~= reply@);
                let word: u32 = bytes::get_le32(reply.as_slice(), 0);
                if self.stage == 5 && !powered_up(word) {
                    Some(IdentifyError::NotPowered { status: word })
                } else if self.stage == 6 && (word == 0 || word == u32::MAX) {
                    Some(IdentifyError::NoIdentity { raw: word })
                } else {
                    None
                }
            },
        }
    }

    /// Goes on with the reply to what was asked for, `None` where the command
    /// was refused. A first attempt that fails anywhere is made again with
    /// reset held, if it is one that falls back.
    pub fn next(&mut self, reply: Option<Vec<u8>>) -> (step: IdentifyStep)
        requires
            old(self).stage <= 6,
        ensures
            ({
                let told = match reply {
                    Some(bytes) => Some(bytes@),
                    None => None,
                };
                let before = *old(self);
                let Identify { under_reset, stage, .. } = before;
                match stage_failure(stage, told) {
                    Some(error) => if under_reset || !before.falls_back {
                        &&& step == IdentifyStep::Failed(error)
                        &&& *final(self) == before
                    } else {
                        &&& *final(self) == (Identify { under_reset: true, stage: 0, ..before })
                        &&& stage_asked(step, true, 0)
                    },
                    None => if before.ends_with(stage) {
                        &&& step == (if before.reach == Reach::Power {
                            IdentifyStep::Powered
                        } else {
                            IdentifyStep::Found(decoded(bytes::read32(told->0)), under_reset)
                        })
                        &&& *final(self) == before
                    } else {
                        &&& *final(self) == (Identify { stage: (stage + 1) as u8, ..before })
                        &&& stage_asked(step, under_reset, (stage + 1) as u8)
                    },
                }
            }),
            went_on(
                *old(self),
                match reply {
                    Some(bytes) => Some(bytes@),
                    None => None,
                },
                *final(self),
                step,
            ),
            final(self).stage <= 6,
    {
        match self.failure(&reply) {
            Some(error) => {
                if self.under_reset || !self.falls_back {
                    return IdentifyStep::Failed(error);
                }
                self.under_reset = true;
                self.stage = 0;
                self.ask()
            },
            None => {
                let powers: bool = match self.reach {
                    Reach::Power => true,
                    Reach::Identity => false,
                };
                if powers && self.stage >= 5 {
                    IdentifyStep::Powered
                } else if self.stage == 6 {
                    match reply {
                        Some(reply) => {
                            assert(reply@.skip(0) =~= reply@);
                            let raw: u32 = bytes::get_le32(reply.as_slice(), 0);
                            IdentifyStep::Found(DebugPortId::decode(raw), self.under_reset)
                        },
                        None => IdentifyStep::Failed(IdentifyError::Transport),
                    }
                } else {
                    self.stage = self.stage + 1;
                    self.ask()
                }
            },
        }
    }
}

/// Brings the debug port up, in one attempt: whoever attaches by other means
/// cannot be asked to before the part is known.
pub fn power_up_debug_port(under_reset: bool) -> (started: (Identify, IdentifyStep))
    ensures
        started.0 == (Identify { under_reset, stage: 0, falls_back: false, reach: Reach::Power }),
        stage_asked(started.1, under_reset, 0),
{
    Identify::begin(under_reset, false, Reach::Power)
}

/// Brings the debug port up and reads its identity, in one attempt.
pub fn read_debug_port_id_once(under_reset: bool) -> (started: (Identify, IdentifyStep))
    ensures
        started.0 == (Identify { under_reset, stage: 0, falls_back: false, reach: Reach::Identity }),
        stage_asked(started.1, under_reset, 0),
{
    Identify::begin(under_reset, false, Reach::Identity)
}

/// Reads the debug port's own identity, falling back to an attach under reset.
///
/// A target that resets repeatedly — a corrupt or half-written image will do it
/// — answers nothing to a plain attach, because it is back in reset before the
/// first transfer lands. Falling back is the difference between "no answer" and
/// "recoverable", so it is automatic.
pub fn read_debug_port_id() -> (started: (Identify, IdentifyStep))
    ensures
        started.0 == (Identify {
            under_reset: false,
            stage: 0,
            falls_back: true,
            reach: Reach::Identity,
        }),
        stage_asked(started.1, false, 0),
{
    Identify::begin(false, true, Reach::Identity)
}

/// The bits that acknowledge both power requests are the top bit and the third
/// from it.
pub proof fn law_powered_means_both_acknowledged(status: u32)
    ensures
        powered(status) == (status & 0xa000_0000 == 0xa000_0000),
{
    assert((status / 0x8000_0000 == 1 && status / 0x2000_0000 % 2 == 1) == (status & 0xa000_0000
        == 0xa000_0000)) by (bit_vector);
}

/// The fields of a DPIDR are those that ADIv5 lays out: the designer in bits 1
/// to 11, the version in 12 to 15, the minimal flag in 16, the part number in 20
/// to 27 and the revision above.
pub proof fn law_an_identification_is_laid_out_by_the_architecture(raw: u32)
    ensures
        ({
            let id = decoded(raw);
            &&& id.raw == raw
            &&& id.designer == (raw >> 1) & 0x7ff
            &&& id.version == (raw >> 12) & 0xf
            &&& id.minimal == (raw & 0x1_0000 != 0)
            &&& id.part_number == (raw >> 20) & 0xff
            &&& id.revision == raw >> 28
        }),
{
    assert(raw / 2 % 2048 == (raw >> 1) & 0x7ff && raw / 4096 % 16 == (raw >> 12) & 0xf && (raw
        / 65536 % 2 == 1) == (raw & 0x1_0000 != 0) && raw / 0x10_0000 % 256 == (raw >> 20) & 0xff
        && raw / 0x1000_0000 == raw >> 28) by (bit_vector);
}

/// What each stage asks of the bridge, byte for byte: an attach, with or without
/// reset; a read of the debug port's register 0; a write of 0x1f to it, of 0 to
/// register 8 and of 0x5000_0000 to register 4; a read of register 4; and one of
/// register 0.
pub proof fn law_each_stage_asks_for_its_register(under_reset: bool)
    ensures
        stage_command(under_reset, 0) == (
            if under_reset {
                Command::AttachUnderReset
            } else {
                Command::Attach
            },
            Seq::<u8>::empty(),
        ),
        stage_command(under_reset, 1) == (Command::ReadRegister, seq![0u8, 0]),
        stage_command(under_reset, 2) == (Command::WriteRegister, seq![0u8, 0, 0x1f, 0, 0, 0]),
        stage_command(under_reset, 3) == (Command::WriteRegister, seq![0u8, 8, 0, 0, 0, 0]),
        stage_command(under_reset, 4) == (Command::WriteRegister, seq![0u8, 4, 0, 0, 0, 0x50]),
        stage_command(under_reset, 5) == (Command::ReadRegister, seq![0u8, 4]),
        stage_command(under_reset, 6) == (Command::ReadRegister, seq![0u8, 0]),
{
    assert(stage_command(under_reset, 2).1 =~= seq![0u8, 0, 0x1f, 0, 0, 0]);
    assert(stage_command(under_reset, 3).1 =~= seq![0u8, 8, 0, 0, 0, 0]);
    assert(stage_command(under_reset, 4).1 =~= seq![0u8, 4, 0, 0, 0, 0x50]);
}

/// What ends an attempt: a command that was refused, a word that is none, power
/// that both of the bits 0xa000_0000 do not acknowledge, and an identity of all
/// zeros or all ones; nothing else does.
pub proof fn law_an_attempt_fails_for_a_reason(stage: u8, reply: Seq<u8>, word: u32)
    requires
        stage <= 6,
        reply.len() == 4 ==> reply == bytes::le32(word),
    ensures
        stage_failure(stage, None) == Some(IdentifyError::Transport),
        stage == 0 || stage == 2 || stage == 3 || stage == 4 ==> stage_failure(stage, Some(reply))
            is None,
        stage == 1 || stage == 5 || stage == 6 ==> (reply.len() != 4 ==> stage_failure(
            stage,
            Some(reply),
        ) == Some(IdentifyError::Transport)),
        reply.len() == 4 && stage == 1 ==> stage_failure(stage, Some(reply)) is None,
        reply.len() == 4 && stage == 5 ==> stage_failure(stage, Some(reply)) == (if word
            & 0xa000_0000 == 0xa000_0000 {
            None
        } else {
            Some(IdentifyError::NotPowered { status: word })
        }),
        reply.len() == 4 && stage == 6 ==> stage_failure(stage, Some(reply)) == (if word == 0
            || word == 0xffff_ffff {
            Some(IdentifyError::NoIdentity { raw: word })
        } else {
            None
        }),
{
    bytes::law_read32_undoes_le32(word);
    law_powered_means_both_acknowledged(word);
}

/// An identity is found only in the last of seven stages, which follow one
/// another, and is the word that was read there, neither all zeros nor all ones.
/// A port counts as powered only by a status that acknowledges both domains. Of
/// what fails, only a first attempt without reset, and one that falls back, is
/// made again, from the start and with reset held; there is never a third.
pub proof fn law_an_identity_is_found_in_the_last_stage(
    before: Identify,
    told: Option<Seq<u8>>,
    after: Identify,
    step: IdentifyStep,
    word: u32,
)
    requires
        before.stage <= 6,
        before.reach == Reach::Power ==> before.stage <= 5,
        went_on(before, told, after, step),
        told matches Some(reply) ==> reply.len() == 4 ==> reply == bytes::le32(word),
    ensures
        match step {
            IdentifyStep::Found(id, held) => {
                &&& before.stage == 6 && before.reach == Reach::Identity
                &&& told == Some(bytes::le32(word))
                &&& id.raw == word && word != 0 && word != 0xffff_ffff
                &&& held == before.under_reset
                &&& after == before
            },
            IdentifyStep::Powered => {
                &&& before.stage == 5 && before.reach == Reach::Power
                &&& told == Some(bytes::le32(word))
                &&& word & 0xa000_0000 == 0xa000_0000
                &&& after == before
            },
            IdentifyStep::Failed(_) => before.under_reset || !before.falls_back,
            IdentifyStep::Ask(command, payload) => {
                &&& (command, payload@) == stage_command(after.under_reset, after.stage)
                &&& after.falls_back == before.falls_back && after.reach == before.reach
                &&& ({
                    ||| after.stage == before.stage + 1 && after.under_reset == before.under_reset
                        && told is Some
                    ||| after.stage == 0 && after.under_reset && !before.under_reset
                        && before.falls_back
                })
            },
        },
{
    bytes::law_read32_undoes_le32(word);
    law_powered_means_both_acknowledged(word);
}

} // verus!
