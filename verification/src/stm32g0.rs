//! Fail-closed STM32G030K8 flash programming over ADIv5 memory access.
//!
//! What is done to the target is told by the accesses to its memory. The
//! functions ending in `_of` say which accesses each operation makes, given how
//! the target answers them: each takes accesses off the front of a sequence and
//! gives the operation's result and the accesses that are left, or `None` if
//! those at the front are not the operation's.

pub mod laws;

use crate::swd::link::Step;
use crate::swd::memory::Access;
use crate::swd::{Error as SwdError, WordMemory};
use vstd::prelude::*;

verus! {

pub const FLASH_BASE: u32 = 0x0800_0000;

pub const FLASH_BYTES: usize = 65536;

pub const PAGE_BYTES: usize = 2048;

pub const DEVICE_ID: u16 = 0x0466;

pub const DBGMCU_IDCODE: u32 = 0x4001_5800;

pub const DHCSR: u32 = 0xe000_edf0;

pub const AIRCR: u32 = 0xe000_ed0c;

pub const FLASH_KEYR: u32 = 0x4002_2008;

pub const FLASH_SR: u32 = 0x4002_2010;

pub const FLASH_CR: u32 = 0x4002_2014;

pub const DHCSR_HALT: u32 = 0xa05f_0003;

pub const DHCSR_RUN: u32 = 0xa05f_0001;

pub const DHCSR_S_HALT: u32 = 0x0002_0000;

pub const AIRCR_SYSRESETREQ: u32 = 0x05fa_0004;

pub const KEY1: u32 = 0x4567_0123;

pub const KEY2: u32 = 0xcdef_89ab;

pub const SR_EOP: u32 = 1;

pub const SR_ERRORS: u32 = 0x0000_c3fa;

pub const SR_BSY1: u32 = 0x0001_0000;

pub const CR_PG: u32 = 1;

pub const CR_PER: u32 = 2;

pub const CR_PNB_MASK: u32 = 0x1ff8;

pub const CR_STRT: u32 = 0x0001_0000;

pub const CR_LOCK: u32 = 0x8000_0000;

/// Polls of DHCSR, a millisecond apart, before a core is taken not to halt.
pub const HALT_POLLS: u32 = 250;

/// Polls of the flash status, a millisecond apart, before it is taken to be
/// stuck.
pub const READY_POLLS: u32 = 2000;

#[derive(Clone, Copy, Debug, Eq, PartialEq, Structural)]
pub enum Error {
    Transport(SwdError),
    Empty,
    TooLarge,
    InvalidDevice(u16),
    HaltTimeout,
    UnlockFailed,
    BusyTimeout,
    FlashStatus(u32),
    Verify { address: u32, expected: u32, observed: u32 },
}

/// An operation's result and the accesses that are left after it.
pub type Ran<T> = Option<(Result<T, Error>, Seq<Access>)>;

/// A word read.
pub open spec fn read_of(accesses: Seq<Access>, address: u32) -> Ran<u32> {
    if accesses.len() == 0 {
        None
    } else {
        match accesses[0] {
            Access::Read(at, result) if at == address => Some(
                (
                    match result {
                        Ok(word) => Ok(word),
                        Err(error) => Err(Error::Transport(error)),
                    },
                    accesses.skip(1),
                ),
            ),
            _ => None,
        }
    }
}

/// A word written.
pub open spec fn write_of(accesses: Seq<Access>, address: u32, value: u32) -> Ran<()> {
    if accesses.len() == 0 {
        None
    } else {
        match accesses[0] {
            Access::Write(at, word, result) if at == address && word == value => Some(
                (
                    match result {
                        Ok(_) => Ok(()),
                        Err(error) => Err(Error::Transport(error)),
                    },
                    accesses.skip(1),
                ),
            ),
            _ => None,
        }
    }
}

/// A block written.
pub open spec fn block_of(accesses: Seq<Access>, address: u32, values: Seq<u32>) -> Ran<()> {
    if accesses.len() == 0 {
        None
    } else {
        match accesses[0] {
            Access::WriteBlock(at, words, result) if at == address && words == values => Some(
                (
                    match result {
                        Ok(_) => Ok(()),
                        Err(error) => Err(Error::Transport(error)),
                    },
                    accesses.skip(1),
                ),
            ),
            _ => None,
        }
    }
}

/// A millisecond waited.
pub open spec fn pause_of(accesses: Seq<Access>) -> Option<Seq<Access>> {
    if accesses.len() > 0 && accesses[0] == Access::Delay(1) {
        Some(accesses.skip(1))
    } else {
        None
    }
}

/// The flash polled until it is not busy, or `left` times. One that is through
/// with errors fails; one that says so is told that it was heard.
pub open spec fn ready_of(accesses: Seq<Access>, left: nat) -> Ran<()>
    decreases left,
{
    if left == 0 {
        Some((Err(Error::BusyTimeout), accesses))
    } else {
        match read_of(accesses, FLASH_SR) {
            None => None,
            Some((Err(error), rest)) => Some((Err(error), rest)),
            Some((Ok(status), rest)) => if status & SR_BSY1 != 0 {
                match pause_of(rest) {
                    None => None,
                    Some(rest) => ready_of(rest, (left - 1) as nat),
                }
            } else if status & SR_ERRORS != 0 {
                Some((Err(Error::FlashStatus(status)), rest))
            } else if status & SR_EOP != 0 {
                write_of(rest, FLASH_SR, SR_EOP)
            } else {
                Some((Ok(()), rest))
            },
        }
    }
}

/// The core polled until it has halted, or `left` times.
pub open spec fn halted_of(accesses: Seq<Access>, left: nat) -> Ran<()>
    decreases left,
{
    if left == 0 {
        Some((Err(Error::HaltTimeout), accesses))
    } else {
        match read_of(accesses, DHCSR) {
            None => None,
            Some((Err(error), rest)) => Some((Err(error), rest)),
            Some((Ok(status), rest)) => if status & DHCSR_S_HALT != 0 {
                Some((Ok(()), rest))
            } else {
                match pause_of(rest) {
                    None => None,
                    Some(rest) => halted_of(rest, (left - 1) as nat),
                }
            },
        }
    }
}

/// A core halted.
pub open spec fn halt_of(accesses: Seq<Access>) -> Ran<()> {
    match write_of(accesses, DHCSR, DHCSR_HALT) {
        Some((Ok(_), rest)) => halted_of(rest, HALT_POLLS as nat),
        other => other,
    }
}

/// A core let run and reset.
pub open spec fn reset_of(accesses: Seq<Access>) -> Ran<()> {
    match write_of(accesses, DHCSR, DHCSR_RUN) {
        Some((Ok(_), rest)) => write_of(rest, AIRCR, AIRCR_SYSRESETREQ),
        other => other,
    }
}

/// The device that an identification code is of.
pub open spec fn device_of(idcode: u32) -> u16 {
    (idcode % 4096) as u16
}

/// A device identified, and refused if it is another.
pub open spec fn identify_of(accesses: Seq<Access>) -> Ran<u32> {
    match read_of(accesses, DBGMCU_IDCODE) {
        Some((Ok(idcode), rest)) => if device_of(idcode) == DEVICE_ID {
            Some((Ok(idcode), rest))
        } else {
            Some((Err(Error::InvalidDevice(device_of(idcode))), rest))
        },
        other => other,
    }
}

/// The two keys, where the flash is locked.
pub open spec fn unlock_of(accesses: Seq<Access>) -> Ran<()> {
    match read_of(accesses, FLASH_CR) {
        None => None,
        Some((Err(error), rest)) => Some((Err(error), rest)),
        Some((Ok(control), rest)) => if control & CR_LOCK == 0 {
            Some((Ok(()), rest))
        } else {
            match write_of(rest, FLASH_KEYR, KEY1) {
                Some((Ok(_), rest)) => match write_of(rest, FLASH_KEYR, KEY2) {
                    Some((Ok(_), rest)) => match read_of(rest, FLASH_CR) {
                        None => None,
                        Some((Err(error), rest)) => Some((Err(error), rest)),
                        Some((Ok(control), rest)) => Some(
                            (
                                if control & CR_LOCK != 0 {
                                    Err(Error::UnlockFailed)
                                } else {
                                    Ok(())
                                },
                                rest,
                            ),
                        ),
                    },
                    other => other,
                },
                other => other,
            }
        },
    }
}

/// A control register with every operation bit clear and the lock set.
pub open spec fn locked(control: u32) -> u32 {
    (control & !(CR_PG | CR_PER | CR_PNB_MASK | CR_STRT)) | CR_LOCK
}

/// The flash left locked, with no operation pending.
pub open spec fn finish_of(accesses: Seq<Access>) -> Ran<()> {
    match read_of(accesses, FLASH_CR) {
        None => None,
        Some((Err(error), rest)) => Some((Err(error), rest)),
        Some((Ok(control), rest)) => write_of(rest, FLASH_CR, locked(control)),
    }
}

/// The flash ready, its old status cleared, and its control read.
pub open spec fn prepare_of(accesses: Seq<Access>) -> Ran<u32> {
    match ready_of(accesses, READY_POLLS as nat) {
        None => None,
        Some((Err(error), rest)) => Some((Err(error), rest)),
        Some((Ok(_), rest)) => match write_of(rest, FLASH_SR, SR_EOP | SR_ERRORS) {
            None => None,
            Some((Err(error), rest)) => Some((Err(error), rest)),
            Some((Ok(_), rest)) => read_of(rest, FLASH_CR),
        },
    }
}

/// The control that erases a page.
pub open spec fn erase_control(control: u32, page: u32) -> u32 {
    (control & !(CR_PG | CR_PER | CR_PNB_MASK)) | (CR_PER | (page << 3))
}

/// One page erased.
pub open spec fn erase_of(accesses: Seq<Access>, page: u32) -> Ran<()> {
    match prepare_of(accesses) {
        None => None,
        Some((Err(error), rest)) => Some((Err(error), rest)),
        Some((Ok(before), rest)) => {
            let control = erase_control(before, page);
            match write_of(rest, FLASH_CR, control) {
                Some((Ok(_), rest)) => match write_of(rest, FLASH_CR, control | CR_STRT) {
                    Some((Ok(_), rest)) => match ready_of(rest, READY_POLLS as nat) {
                        Some((Ok(_), rest)) => write_of(rest, FLASH_CR, control & !CR_PER),
                        other => other,
                    },
                    other => other,
                },
                other => other,
            }
        },
    }
}

/// The control that programs.
pub open spec fn program_control(control: u32) -> u32 {
    (control & !(CR_PER | CR_PG | CR_PNB_MASK)) | CR_PG
}

/// Two words programmed.
pub open spec fn program_of(accesses: Seq<Access>, address: u32, words: Seq<u32>) -> Ran<()> {
    match prepare_of(accesses) {
        None => None,
        Some((Err(error), rest)) => Some((Err(error), rest)),
        Some((Ok(before), rest)) => {
            let control = program_control(before);
            match write_of(rest, FLASH_CR, control) {
                Some((Ok(_), rest)) => match block_of(rest, address, words) {
                    Some((Ok(_), rest)) => match ready_of(rest, READY_POLLS as nat) {
                        Some((Ok(_), rest)) => write_of(rest, FLASH_CR, control & !CR_PG),
                        other => other,
                    },
                    other => other,
                },
                other => other,
            }
        },
    }
}

/// Two words, the lower address first.
pub open spec fn pair(low: u32, high: u32) -> Seq<u32> {
    seq![low, high]
}

/// A byte of an image, and erased flash past its end.
pub open spec fn image_byte(image: Seq<u8>, at: int) -> u8 {
    if 0 <= at < image.len() {
        image[at]
    } else {
        0xff
    }
}

/// The word of an image at a byte offset.
pub open spec fn image_word(image: Seq<u8>, at: int) -> u32 {
    (image_byte(image, at) + 256 * image_byte(image, at + 1) + 65536 * image_byte(image, at + 2)
        + 16777216 * image_byte(image, at + 3)) as u32
}

/// Pages from `page` erased, as far as the image goes.
pub open spec fn erase_from(accesses: Seq<Access>, image: Seq<u8>, page: nat) -> Ran<()>
    decreases image.len() + 2048 - 2048 * page,
{
    if 2048 * page >= image.len() {
        Some((Ok(()), accesses))
    } else {
        match erase_of(accesses, page as u32) {
            Some((Ok(_), rest)) => erase_from(rest, image, page + 1),
            other => other,
        }
    }
}

/// The image programmed from the byte offset `at`, two words at a time.
pub open spec fn program_from(accesses: Seq<Access>, image: Seq<u8>, at: nat) -> Ran<()>
    decreases image.len() + 8 - at,
{
    if at >= image.len() {
        Some((Ok(()), accesses))
    } else {
        let words = pair(image_word(image, at as int), image_word(image, at as int + 4));
        match program_of(accesses, (FLASH_BASE + at) as u32, words) {
            Some((Ok(_), rest)) => program_from(rest, image, at + 8),
            other => other,
        }
    }
}

/// The image read back from the byte offset `at` and compared word by word.
pub open spec fn verify_from(accesses: Seq<Access>, image: Seq<u8>, at: nat) -> Ran<()>
    decreases image.len() + 8 - at,
{
    if at >= image.len() {
        Some((Ok(()), accesses))
    } else {
        let address = (FLASH_BASE + at) as u32;
        let expected = image_word(image, at as int);
        match read_of(accesses, address) {
            None => None,
            Some((Err(error), rest)) => Some((Err(error), rest)),
            Some((Ok(observed), rest)) => if observed != expected {
                Some((Err(Error::Verify { address, expected, observed }), rest))
            } else {
                verify_from(rest, image, at + 4)
            },
        }
    }
}

/// An unlocked flash erased, programmed and verified.
pub open spec fn write_image_of(accesses: Seq<Access>, image: Seq<u8>) -> Ran<()> {
    match erase_from(accesses, image, 0) {
        Some((Ok(_), rest)) => match program_from(rest, image, 0) {
            Some((Ok(_), rest)) => verify_from(rest, image, 0),
            other => other,
        },
        other => other,
    }
}

/// The flash written and then, whatever came of that, locked.
pub open spec fn write_and_lock_of(accesses: Seq<Access>, image: Seq<u8>, idcode: u32) -> Ran<u32> {
    match write_image_of(accesses, image) {
        None => None,
        Some((result, rest)) => match finish_of(rest) {
            None => None,
            Some((cleanup, rest)) => Some(
                (
                    match (result, cleanup) {
                        (Err(error), _) => Err(error),
                        (Ok(_), Err(error)) => Err(error),
                        (Ok(_), Ok(_)) => Ok(idcode),
                    },
                    rest,
                ),
            ),
        },
    }
}

/// A device halted, identified, unlocked and written.
pub open spec fn flash_of(accesses: Seq<Access>, image: Seq<u8>) -> Ran<u32> {
    if image.len() == 0 {
        Some((Err(Error::Empty), accesses))
    } else if image.len() > FLASH_BYTES {
        Some((Err(Error::TooLarge), accesses))
    } else {
        match halt_of(accesses) {
            None => None,
            Some((Err(error), rest)) => Some((Err(error), rest)),
            Some((Ok(_), rest)) => match identify_of(rest) {
                None => None,
                Some((Err(error), rest)) => Some((Err(error), rest)),
                Some((Ok(idcode), rest)) => match unlock_of(rest) {
                    None => None,
                    Some((Err(error), rest)) => Some((Err(error), rest)),
                    Some((Ok(_), rest)) => write_and_lock_of(rest, image, idcode),
                },
            },
        }
    }
}

pub struct Stm32G030<'a, M> {
    pub memory: &'a mut M,
}

impl<'a, M: WordMemory> Stm32G030<'a, M> {
    /// All that was asked of the target's memory.
    pub open spec fn accesses(&self) -> Seq<Access> {
        (*self.memory).accesses()
    }

    /// What was done on the way to the target's memory by none of these.
    pub open spec fn apart(&self) -> (Seq<Step>, int) {
        (*self.memory).apart()
    }

    /// What was asked since an earlier account.
    pub open spec fn since(&self, before: Seq<Access>) -> Seq<Access> {
        self.accesses().skip(before.len() as int)
    }

    /// Was an earlier account only added to?
    pub open spec fn grew(&self, before: Seq<Access>) -> bool {
        self.accesses() == before + self.since(before)
    }

    pub fn new(memory: &'a mut M) -> (target: Stm32G030<'a, M>)
        ensures
            *target.memory == *old(memory),
            *final(target.memory) == *final(memory),
    {
        Stm32G030 { memory }
    }

    fn read(&mut self, address: u32) -> (result: Result<u32, Error>)
        ensures
            final(self).grew(old(self).accesses()),
            *final(final(self).memory) == *final(old(self).memory),
            final(self).apart() == old(self).apart(),
            forall|rest: Seq<Access>| #[trigger]
                read_of(final(self).since(old(self).accesses()) + rest, address) == Some(
                    (result, rest),
                ),
    {
        let ghost before = self.accesses();
        let result: Result<u32, SwdError> = self.memory.read_word(address);
        proof {
            let access = Access::Read(address, result);
            lemma_one(before, self.accesses(), access);
        }
        match result {
            Ok(word) => Ok(word),
            Err(error) => Err(Error::Transport(error)),
        }
    }

    fn write(&mut self, address: u32, value: u32) -> (result: Result<(), Error>)
        ensures
            final(self).grew(old(self).accesses()),
            *final(final(self).memory) == *final(old(self).memory),
            final(self).apart() == old(self).apart(),
            forall|rest: Seq<Access>| #[trigger]
                write_of(final(self).since(old(self).accesses()) + rest, address, value) == Some(
                    (result, rest),
                ),
    {
        let ghost before = self.accesses();
        let result: Result<(), SwdError> = self.memory.write_word(address, value);
        proof {
            lemma_one(before, self.accesses(), Access::Write(address, value, result));
        }
        match result {
            Ok(_) => Ok(()),
            Err(error) => Err(Error::Transport(error)),
        }
    }

    fn write_pair(&mut self, address: u32, low: u32, high: u32) -> (result: Result<(), Error>)
        requires
            address + 8 <= 0x1_0000_0000,
        ensures
            final(self).grew(old(self).accesses()),
            *final(final(self).memory) == *final(old(self).memory),
            final(self).apart() == old(self).apart(),
            forall|rest: Seq<Access>| #[trigger]
                block_of(
                    final(self).since(old(self).accesses()) + rest,
                    address,
                    pair(low, high),
                ) == Some((result, rest)),
    {
        let ghost before = self.accesses();
        let words: [u32; 2] = [low, high];
        assert(words@ =~= pair(low, high));
        let result: Result<(), SwdError> = self.memory.write_words(address, &words);
        proof {
            lemma_one(before, self.accesses(), Access::WriteBlock(address, words@, result));
        }
        match result {
            Ok(_) => Ok(()),
            Err(error) => Err(Error::Transport(error)),
        }
    }

    fn pause(&mut self)
        ensures
            final(self).grew(old(self).accesses()),
            *final(final(self).memory) == *final(old(self).memory),
            final(self).apart() == old(self).apart(),
            forall|rest: Seq<Access>| #[trigger]
                pause_of(final(self).since(old(self).accesses()) + rest) == Some(rest),
    {
        let ghost before = self.accesses();
        self.memory.delay_ms(1);
        proof {
            lemma_one(before, self.accesses(), Access::Delay(1));
        }
    }

    /// Identifies the device.
    pub fn identify(&mut self) -> (result: Result<u32, Error>)
        ensures
            final(self).grew(old(self).accesses()),
            *final(final(self).memory) == *final(old(self).memory),
            final(self).apart() == old(self).apart(),
            forall|rest: Seq<Access>| #[trigger]
                identify_of(final(self).since(old(self).accesses()) + rest) == Some(
                    (result, rest),
                ),
    {
        let idcode: u32 = match self.read(DBGMCU_IDCODE) {
            Ok(idcode) => idcode,
            Err(error) => return Err(error),
        };
        let device: u16 = (idcode % 4096) as u16;
        if device != DEVICE_ID {
            return Err(Error::InvalidDevice(device));
        }
        Ok(idcode)
    }

    /// Lets the core run and resets it.
    pub fn reset(&mut self) -> (result: Result<(), Error>)
        ensures
            final(self).grew(old(self).accesses()),
            *final(final(self).memory) == *final(old(self).memory),
            final(self).apart() == old(self).apart(),
            forall|rest: Seq<Access>| #[trigger]
                reset_of(final(self).since(old(self).accesses()) + rest) == Some((result, rest)),
    {
        let ghost start = self.accesses();
        let ran: Result<(), Error> = self.write(DHCSR, DHCSR_RUN);
        if let Err(error) = ran {
            return Err(error);
        }
        let ghost one = self.accesses();
        let ghost a = self.since(start);
        let result: Result<(), Error> = self.write(AIRCR, AIRCR_SYSRESETREQ);
        proof {
            let b = self.since(one);
            lemma_two(start, one, self.accesses(), a, b);
            assert forall|rest: Seq<Access>| #[trigger] reset_of(a + b + rest) == Some(
                (result, rest),
            ) by {
                assert(a + b + rest =~= a + (b + rest));
            }
        }
        result
    }

    /// Halts the core.
    pub fn halt(&mut self) -> (result: Result<(), Error>)
        ensures
            final(self).grew(old(self).accesses()),
            *final(final(self).memory) == *final(old(self).memory),
            final(self).apart() == old(self).apart(),
            forall|rest: Seq<Access>| #[trigger]
                halt_of(final(self).since(old(self).accesses()) + rest) == Some((result, rest)),
    {
        let ghost start = self.accesses();
        let asked: Result<(), Error> = self.write(DHCSR, DHCSR_HALT);
        if let Err(error) = asked {
            return Err(error);
        }
        let ghost mut done = self.since(start);
        proof {
            assert forall|rest: Seq<Access>| #[trigger] halt_of(done + rest) == halted_of(
                rest,
                HALT_POLLS as nat,
            ) by {}
        }
        let mut polls: u32 = 0;
        while polls < HALT_POLLS
            invariant
                *final(self.memory) == *final(old(self).memory),
                self.apart() == old(self).apart(),
                polls <= HALT_POLLS,
                start == old(self).accesses(),
                self.accesses() == start + done,
                forall|rest: Seq<Access>| #[trigger]
                    halt_of(done + rest) == halted_of(rest, (HALT_POLLS - polls) as nat),
            decreases HALT_POLLS - polls,
        {
            let ghost one = self.accesses();
            let read: Result<u32, Error> = self.read(DHCSR);
            let ghost a = self.since(one);
            let ghost two = self.accesses();
            proof {
                lemma_two(start, one, two, done, a);
                let left = (HALT_POLLS - polls) as nat;
                assert forall|rest: Seq<Access>| #[trigger] halt_of(done + a + rest) == halted_of(
                    a + rest,
                    left,
                ) by {
                    assert(done + a + rest =~= done + (a + rest));
                }
            }
            match read {
                Err(error) => return Err(error),
                Ok(status) => {
                    if status & DHCSR_S_HALT != 0 {
                        return Ok(());
                    }
                },
            }
            self.pause();
            proof {
                let b = self.since(two);
                lemma_two(start, two, self.accesses(), done + a, b);
                let left = (HALT_POLLS - polls) as nat;
                assert forall|rest: Seq<Access>| #[trigger]
                    halt_of(done + a + b + rest) == halted_of(rest, (left - 1) as nat) by {
                    assert(done + a + b + rest =~= done + a + (b + rest));
                    assert(a + (b + rest) =~= a + b + rest);
                }
                done = done + a + b;
            }
            polls += 1;
        }
        assert(self.since(start) =~= done);
        Err(Error::HaltTimeout)
    }

    fn unlock(&mut self) -> (result: Result<(), Error>)
        ensures
            final(self).grew(old(self).accesses()),
            *final(final(self).memory) == *final(old(self).memory),
            final(self).apart() == old(self).apart(),
            forall|rest: Seq<Access>| #[trigger]
                unlock_of(final(self).since(old(self).accesses()) + rest) == Some((result, rest)),
    {
        let ghost start = self.accesses();
        let control: u32 = match self.read(FLASH_CR) {
            Ok(control) => control,
            Err(error) => return Err(error),
        };
        if control & CR_LOCK == 0 {
            return Ok(());
        }
        let ghost one = self.accesses();
        let ghost a = self.since(start);
        let first: Result<(), Error> = self.write(FLASH_KEYR, KEY1);
        let ghost two = self.accesses();
        let ghost b = self.since(one);
        proof {
            lemma_two(start, one, two, a, b);
        }
        if let Err(error) = first {
            proof {
                assert forall|rest: Seq<Access>| #[trigger] unlock_of(a + b + rest) == Some(
                    (first, rest),
                ) by {
                    assert(a + b + rest =~= a + (b + rest));
                }
            }
            return Err(error);
        }
        let second: Result<(), Error> = self.write(FLASH_KEYR, KEY2);
        let ghost three = self.accesses();
        let ghost c = self.since(two);
        proof {
            lemma_two(start, two, three, a + b, c);
        }
        if let Err(error) = second {
            proof {
                assert forall|rest: Seq<Access>| #[trigger] unlock_of(a + b + c + rest) == Some(
                    (second, rest),
                ) by {
                    assert(a + b + c + rest =~= a + (b + (c + rest)));
                }
            }
            return Err(error);
        }
        let read: Result<u32, Error> = self.read(FLASH_CR);
        let ghost d = self.since(three);
        let result: Result<(), Error> = match read {
            Err(error) => Err(error),
            Ok(control) => if control & CR_LOCK != 0 {
                Err(Error::UnlockFailed)
            } else {
                Ok(())
            },
        };
        proof {
            lemma_two(start, three, self.accesses(), a + b + c, d);
            assert forall|rest: Seq<Access>| #[trigger] unlock_of(a + b + c + d + rest) == Some(
                (result, rest),
            ) by {
                assert(a + b + c + d + rest =~= a + (b + (c + (d + rest))));
            }
        }
        result
    }

    fn finish_flash_operation(&mut self) -> (result: Result<(), Error>)
        ensures
            final(self).grew(old(self).accesses()),
            *final(final(self).memory) == *final(old(self).memory),
            final(self).apart() == old(self).apart(),
            forall|rest: Seq<Access>| #[trigger]
                finish_of(final(self).since(old(self).accesses()) + rest) == Some((result, rest)),
    {
        let ghost start = self.accesses();
        let control: u32 = match self.read(FLASH_CR) {
            Ok(control) => control,
            Err(error) => return Err(error),
        };
        let ghost one = self.accesses();
        let ghost a = self.since(start);
        let cleaned: u32 = control & !(CR_PG | CR_PER | CR_PNB_MASK | CR_STRT);
        let result: Result<(), Error> = self.write(FLASH_CR, cleaned | CR_LOCK);
        proof {
            let b = self.since(one);
            lemma_two(start, one, self.accesses(), a, b);
            assert forall|rest: Seq<Access>| #[trigger] finish_of(a + b + rest) == Some(
                (result, rest),
            ) by {
                assert(a + b + rest =~= a + (b + rest));
            }
        }
        result
    }

    fn wait_ready(&mut self) -> (result: Result<(), Error>)
        ensures
            final(self).grew(old(self).accesses()),
            *final(final(self).memory) == *final(old(self).memory),
            final(self).apart() == old(self).apart(),
            forall|rest: Seq<Access>| #[trigger]
                ready_of(
                    final(self).since(old(self).accesses()) + rest,
                    READY_POLLS as nat,
                ) == Some((result, rest)),
    {
        let ghost start = self.accesses();
        let ghost mut done: Seq<Access> = Seq::empty();
        proof {
            assert(self.accesses() =~= start + done);
            assert forall|rest: Seq<Access>| #[trigger]
                ready_of(done + rest, READY_POLLS as nat) == ready_of(rest, READY_POLLS as nat) by {
                assert(done + rest =~= rest);
            }
        }
        let mut polls: u32 = 0;
        while polls < READY_POLLS
            invariant
                *final(self.memory) == *final(old(self).memory),
                self.apart() == old(self).apart(),
                polls <= READY_POLLS,
                start == old(self).accesses(),
                self.accesses() == start + done,
                forall|rest: Seq<Access>| #[trigger]
                    ready_of(done + rest, READY_POLLS as nat) == ready_of(
                        rest,
                        (READY_POLLS - polls) as nat,
                    ),
            decreases READY_POLLS - polls,
        {
            let ghost left = (READY_POLLS - polls) as nat;
            let ghost one = self.accesses();
            let read: Result<u32, Error> = self.read(FLASH_SR);
            let ghost a = self.since(one);
            let ghost two = self.accesses();
            proof {
                lemma_two(start, one, two, done, a);
                assert forall|rest: Seq<Access>| #[trigger]
                    ready_of(done + a + rest, READY_POLLS as nat) == ready_of(a + rest, left) by {
                    assert(done + a + rest =~= done + (a + rest));
                }
            }
            let status: u32 = match read {
                Err(error) => return Err(error),
                Ok(status) => status,
            };
            if status & SR_BSY1 == 0 {
                if status & SR_ERRORS != 0 {
                    return Err(Error::FlashStatus(status));
                }
                if status & SR_EOP != 0 {
                    let heard: Result<(), Error> = self.write(FLASH_SR, SR_EOP);
                    proof {
                        let b = self.since(two);
                        lemma_two(start, two, self.accesses(), done + a, b);
                        assert forall|rest: Seq<Access>| #[trigger]
                            ready_of(done + a + b + rest, READY_POLLS as nat) == Some(
                            (heard, rest),
                        ) by {
                            assert(done + a + b + rest =~= done + a + (b + rest));
                        }
                    }
                    return heard;
                }
                return Ok(());
            }
            self.pause();
            proof {
                let b = self.since(two);
                lemma_two(start, two, self.accesses(), done + a, b);
                assert forall|rest: Seq<Access>| #[trigger]
                    ready_of(done + a + b + rest, READY_POLLS as nat) == ready_of(
                    rest,
                    (left - 1) as nat,
                ) by {
                    assert(done + a + b + rest =~= done + a + (b + rest));
                }
                done = done + a + b;
            }
            polls += 1;
        }
        assert(self.since(start) =~= done);
        Err(Error::BusyTimeout)
    }

    /// Waits for the flash, clears what it had to report, and reads its
    /// control.
    fn prepare(&mut self) -> (result: Result<u32, Error>)
        ensures
            final(self).grew(old(self).accesses()),
            *final(final(self).memory) == *final(old(self).memory),
            final(self).apart() == old(self).apart(),
            forall|rest: Seq<Access>| #[trigger]
                prepare_of(final(self).since(old(self).accesses()) + rest) == Some((result, rest)),
    {
        let ghost start = self.accesses();
        let ready: Result<(), Error> = self.wait_ready();
        if let Err(error) = ready {
            return Err(error);
        }
        let ghost one = self.accesses();
        let ghost a = self.since(start);
        let cleared: Result<(), Error> = self.write(FLASH_SR, SR_EOP | SR_ERRORS);
        let ghost two = self.accesses();
        let ghost b = self.since(one);
        proof {
            lemma_two(start, one, two, a, b);
        }
        if let Err(error) = cleared {
            proof {
                assert forall|rest: Seq<Access>| #[trigger] prepare_of(a + b + rest) == Some(
                    (Err::<u32, Error>(error), rest),
                ) by {
                    assert(a + b + rest =~= a + (b + rest));
                }
            }
            return Err(error);
        }
        let result: Result<u32, Error> = self.read(FLASH_CR);
        proof {
            let c = self.since(two);
            lemma_two(start, two, self.accesses(), a + b, c);
            assert forall|rest: Seq<Access>| #[trigger] prepare_of(a + b + c + rest) == Some(
                (result, rest),
            ) by {
                assert(a + b + c + rest =~= a + (b + (c + rest)));
            }
        }
        result
    }
}

proof fn lemma_two(
    first: Seq<Access>,
    second: Seq<Access>,
    third: Seq<Access>,
    a: Seq<Access>,
    b: Seq<Access>,
)
    requires
        second == first + a,
        third == second + b,
    ensures
        third == first + (a + b),
        third.skip(first.len() as int) == a + b,
{
    assert(third =~= first + (a + b));
    assert(third.skip(first.len() as int) =~= a + b);
}

proof fn lemma_one(before: Seq<Access>, after: Seq<Access>, access: Access)
    requires
        after == before.push(access),
    ensures
        after == before + after.skip(before.len() as int),
        after.skip(before.len() as int) == seq![access],
        forall|rest: Seq<Access>| #[trigger]
            (after.skip(before.len() as int) + rest).skip(1) == rest,
        forall|rest: Seq<Access>|
            (#[trigger] (after.skip(before.len() as int) + rest))[0] == access,
{
    let new = after.skip(before.len() as int);
    assert(new =~= seq![access]);
    assert(after =~= before + new);
    assert forall|rest: Seq<Access>| #[trigger] (new + rest).skip(1) == rest by {
        assert((new + rest).skip(1) =~= rest);
    }
}

impl<'a, M: WordMemory> Stm32G030<'a, M> {
    fn erase_page(&mut self, page: u32) -> (result: Result<(), Error>)
        ensures
            final(self).grew(old(self).accesses()),
            *final(final(self).memory) == *final(old(self).memory),
            final(self).apart() == old(self).apart(),
            forall|rest: Seq<Access>| #[trigger]
                erase_of(final(self).since(old(self).accesses()) + rest, page) == Some(
                    (result, rest),
                ),
    {
        let ghost start = self.accesses();
        let before: u32 = match self.prepare() {
            Ok(control) => control,
            Err(error) => return Err(error),
        };
        let control: u32 = (before & !(CR_PG | CR_PER | CR_PNB_MASK)) | (CR_PER | (page << 3));
        let ghost one = self.accesses();
        let ghost a = self.since(start);
        let armed: Result<(), Error> = self.write(FLASH_CR, control);
        let ghost two = self.accesses();
        let ghost b = self.since(one);
        proof {
            lemma_two(start, one, two, a, b);
        }
        if let Err(error) = armed {
            proof {
                assert forall|rest: Seq<Access>| #[trigger] erase_of(a + b + rest, page) == Some(
                    (armed, rest),
                ) by {
                    assert(a + b + rest =~= a + (b + rest));
                }
            }
            return Err(error);
        }
        let started: Result<(), Error> = self.write(FLASH_CR, control | CR_STRT);
        let ghost three = self.accesses();
        let ghost c = self.since(two);
        proof {
            lemma_two(start, two, three, a + b, c);
        }
        if let Err(error) = started {
            proof {
                assert forall|rest: Seq<Access>| #[trigger]
                    erase_of(a + b + c + rest, page) == Some((started, rest)) by {
                    assert(a + b + c + rest =~= a + (b + (c + rest)));
                }
            }
            return Err(error);
        }
        let ready: Result<(), Error> = self.wait_ready();
        let ghost four = self.accesses();
        let ghost d = self.since(three);
        proof {
            lemma_two(start, three, four, a + b + c, d);
        }
        if let Err(error) = ready {
            proof {
                assert forall|rest: Seq<Access>| #[trigger]
                    erase_of(a + b + c + d + rest, page) == Some((ready, rest)) by {
                    assert(a + b + c + d + rest =~= a + (b + (c + (d + rest))));
                }
            }
            return Err(error);
        }
        let result: Result<(), Error> = self.write(FLASH_CR, control & !CR_PER);
        proof {
            let e = self.since(four);
            lemma_two(start, four, self.accesses(), a + b + c + d, e);
            assert forall|rest: Seq<Access>| #[trigger]
                erase_of(a + b + c + d + e + rest, page) == Some((result, rest)) by {
                assert(a + b + c + d + e + rest =~= a + (b + (c + (d + (e + rest)))));
            }
        }
        result
    }

    fn program_double_word(&mut self, address: u32, low: u32, high: u32) -> (result: Result<
        (),
        Error,
    >)
        requires
            address + 8 <= 0x1_0000_0000,
        ensures
            final(self).grew(old(self).accesses()),
            *final(final(self).memory) == *final(old(self).memory),
            final(self).apart() == old(self).apart(),
            forall|rest: Seq<Access>| #[trigger]
                program_of(
                    final(self).since(old(self).accesses()) + rest,
                    address,
                    pair(low, high),
                ) == Some((result, rest)),
    {
        let ghost start = self.accesses();
        let ghost words = pair(low, high);
        let before: u32 = match self.prepare() {
            Ok(control) => control,
            Err(error) => return Err(error),
        };
        let control: u32 = (before & !(CR_PER | CR_PG | CR_PNB_MASK)) | CR_PG;
        let ghost one = self.accesses();
        let ghost a = self.since(start);
        let armed: Result<(), Error> = self.write(FLASH_CR, control);
        let ghost two = self.accesses();
        let ghost b = self.since(one);
        proof {
            lemma_two(start, one, two, a, b);
        }
        if let Err(error) = armed {
            proof {
                assert forall|rest: Seq<Access>| #[trigger]
                    program_of(a + b + rest, address, words) == Some((armed, rest)) by {
                    assert(a + b + rest =~= a + (b + rest));
                }
            }
            return Err(error);
        }
        let written: Result<(), Error> = self.write_pair(address, low, high);
        let ghost three = self.accesses();
        let ghost c = self.since(two);
        proof {
            lemma_two(start, two, three, a + b, c);
        }
        if let Err(error) = written {
            proof {
                assert forall|rest: Seq<Access>| #[trigger]
                    program_of(a + b + c + rest, address, words) == Some((written, rest)) by {
                    assert(a + b + c + rest =~= a + (b + (c + rest)));
                }
            }
            return Err(error);
        }
        let ready: Result<(), Error> = self.wait_ready();
        let ghost four = self.accesses();
        let ghost d = self.since(three);
        proof {
            lemma_two(start, three, four, a + b + c, d);
        }
        if let Err(error) = ready {
            proof {
                assert forall|rest: Seq<Access>| #[trigger]
                    program_of(a + b + c + d + rest, address, words) == Some((ready, rest)) by {
                    assert(a + b + c + d + rest =~= a + (b + (c + (d + rest))));
                }
            }
            return Err(error);
        }
        let result: Result<(), Error> = self.write(FLASH_CR, control & !CR_PG);
        proof {
            let e = self.since(four);
            lemma_two(start, four, self.accesses(), a + b + c + d, e);
            assert forall|rest: Seq<Access>| #[trigger]
                program_of(a + b + c + d + e + rest, address, words) == Some((result, rest)) by {
                assert(a + b + c + d + e + rest =~= a + (b + (c + (d + (e + rest)))));
            }
        }
        result
    }

    fn erase_image(&mut self, image: &[u8]) -> (result: Result<(), Error>)
        requires
            image@.len() <= FLASH_BYTES,
        ensures
            final(self).grew(old(self).accesses()),
            *final(final(self).memory) == *final(old(self).memory),
            final(self).apart() == old(self).apart(),
            forall|rest: Seq<Access>| #[trigger]
                erase_from(final(self).since(old(self).accesses()) + rest, image@, 0) == Some(
                    (result, rest),
                ),
    {
        let ghost start = self.accesses();
        let ghost mut done: Seq<Access> = Seq::empty();
        proof {
            assert(self.accesses() =~= start + done);
            assert forall|rest: Seq<Access>| #[trigger] erase_from(done + rest, image@, 0)
                == erase_from(rest, image@, 0) by {
                assert(done + rest =~= rest);
            }
        }
        let mut page: u32 = 0;
        while page as usize * PAGE_BYTES < image.len()
            invariant
                *final(self.memory) == *final(old(self).memory),
                self.apart() == old(self).apart(),
                page <= 32,
                image@.len() <= FLASH_BYTES,
                start == old(self).accesses(),
                self.accesses() == start + done,
                forall|rest: Seq<Access>| #[trigger]
                    erase_from(done + rest, image@, 0) == erase_from(rest, image@, page as nat),
            decreases 32 - page,
        {
            let ghost one = self.accesses();
            let erased: Result<(), Error> = self.erase_page(page);
            proof {
                let a = self.since(one);
                lemma_two(start, one, self.accesses(), done, a);
                assert forall|rest: Seq<Access>| #[trigger] erase_from(done + a + rest, image@, 0)
                    == (if erased is Ok {
                    erase_from(rest, image@, (page + 1) as nat)
                } else {
                    Some((erased, rest))
                }) by {
                    assert(done + a + rest =~= done + (a + rest));
                }
                done = done + a;
            }
            if let Err(error) = erased {
                return Err(error);
            }
            page += 1;
        }
        assert(self.since(start) =~= done);
        Ok(())
    }

    fn program_image(&mut self, image: &[u8]) -> (result: Result<(), Error>)
        requires
            image@.len() <= FLASH_BYTES,
        ensures
            final(self).grew(old(self).accesses()),
            *final(final(self).memory) == *final(old(self).memory),
            final(self).apart() == old(self).apart(),
            forall|rest: Seq<Access>| #[trigger]
                program_from(final(self).since(old(self).accesses()) + rest, image@, 0) == Some(
                    (result, rest),
                ),
    {
        let ghost start = self.accesses();
        let ghost mut done: Seq<Access> = Seq::empty();
        proof {
            assert(self.accesses() =~= start + done);
            assert forall|rest: Seq<Access>| #[trigger] program_from(done + rest, image@, 0)
                == program_from(rest, image@, 0) by {
                assert(done + rest =~= rest);
            }
        }
        let mut at: usize = 0;
        while at < image.len()
            invariant
                *final(self.memory) == *final(old(self).memory),
                self.apart() == old(self).apart(),
                at <= FLASH_BYTES + 8,
                image@.len() <= FLASH_BYTES,
                start == old(self).accesses(),
                self.accesses() == start + done,
                forall|rest: Seq<Access>| #[trigger]
                    program_from(done + rest, image@, 0) == program_from(rest, image@, at as nat),
            decreases FLASH_BYTES + 8 - at,
        {
            let ghost one = self.accesses();
            let low: u32 = word_in(image, at);
            let high: u32 = word_in(image, at + 4);
            let programmed: Result<(), Error> = self.program_double_word(
                FLASH_BASE + at as u32,
                low,
                high,
            );
            proof {
                let a = self.since(one);
                lemma_two(start, one, self.accesses(), done, a);
                assert forall|rest: Seq<Access>| #[trigger] program_from(done + a + rest, image@, 0)
                    == (if programmed is Ok {
                    program_from(rest, image@, (at + 8) as nat)
                } else {
                    Some((programmed, rest))
                }) by {
                    assert(done + a + rest =~= done + (a + rest));
                }
                done = done + a;
            }
            if let Err(error) = programmed {
                return Err(error);
            }
            at += 8;
        }
        assert(self.since(start) =~= done);
        Ok(())
    }

    fn verify_image(&mut self, image: &[u8]) -> (result: Result<(), Error>)
        requires
            image@.len() <= FLASH_BYTES,
        ensures
            final(self).grew(old(self).accesses()),
            *final(final(self).memory) == *final(old(self).memory),
            final(self).apart() == old(self).apart(),
            forall|rest: Seq<Access>| #[trigger]
                verify_from(final(self).since(old(self).accesses()) + rest, image@, 0) == Some(
                    (result, rest),
                ),
    {
        let ghost start = self.accesses();
        let ghost mut done: Seq<Access> = Seq::empty();
        proof {
            assert(self.accesses() =~= start + done);
            assert forall|rest: Seq<Access>| #[trigger] verify_from(done + rest, image@, 0)
                == verify_from(rest, image@, 0) by {
                assert(done + rest =~= rest);
            }
        }
        let mut at: usize = 0;
        while at < image.len()
            invariant
                *final(self.memory) == *final(old(self).memory),
                self.apart() == old(self).apart(),
                at <= FLASH_BYTES + 8,
                image@.len() <= FLASH_BYTES,
                start == old(self).accesses(),
                self.accesses() == start + done,
                forall|rest: Seq<Access>| #[trigger]
                    verify_from(done + rest, image@, 0) == verify_from(rest, image@, at as nat),
            decreases FLASH_BYTES + 8 - at,
        {
            let ghost one = self.accesses();
            let address: u32 = FLASH_BASE + at as u32;
            let expected: u32 = word_in(image, at);
            let read: Result<u32, Error> = self.read(address);
            let checked: Result<(), Error> = match read {
                Err(error) => Err(error),
                Ok(observed) => if observed != expected {
                    Err(Error::Verify { address, expected, observed })
                } else {
                    Ok(())
                },
            };
            proof {
                let a = self.since(one);
                lemma_two(start, one, self.accesses(), done, a);
                assert forall|rest: Seq<Access>| #[trigger] verify_from(done + a + rest, image@, 0)
                    == (if checked is Ok {
                    verify_from(rest, image@, (at + 4) as nat)
                } else {
                    Some((checked, rest))
                }) by {
                    assert(done + a + rest =~= done + (a + rest));
                }
                done = done + a;
            }
            if let Err(error) = checked {
                return Err(error);
            }
            at += 4;
        }
        assert(self.since(start) =~= done);
        Ok(())
    }

    fn program_unlocked(&mut self, image: &[u8]) -> (result: Result<(), Error>)
        requires
            image@.len() <= FLASH_BYTES,
        ensures
            final(self).grew(old(self).accesses()),
            *final(final(self).memory) == *final(old(self).memory),
            final(self).apart() == old(self).apart(),
            forall|rest: Seq<Access>| #[trigger]
                write_image_of(final(self).since(old(self).accesses()) + rest, image@) == Some(
                    (result, rest),
                ),
    {
        let ghost start = self.accesses();
        let erased: Result<(), Error> = self.erase_image(image);
        if let Err(error) = erased {
            return Err(error);
        }
        let ghost one = self.accesses();
        let ghost a = self.since(start);
        let programmed: Result<(), Error> = self.program_image(image);
        let ghost two = self.accesses();
        let ghost b = self.since(one);
        proof {
            lemma_two(start, one, two, a, b);
        }
        if let Err(error) = programmed {
            proof {
                assert forall|rest: Seq<Access>| #[trigger] write_image_of(a + b + rest, image@)
                    == Some((programmed, rest)) by {
                    assert(a + b + rest =~= a + (b + rest));
                }
            }
            return Err(error);
        }
        let result: Result<(), Error> = self.verify_image(image);
        proof {
            let c = self.since(two);
            lemma_two(start, two, self.accesses(), a + b, c);
            assert forall|rest: Seq<Access>| #[trigger] write_image_of(a + b + c + rest, image@)
                == Some((result, rest)) by {
                assert(a + b + c + rest =~= a + (b + (c + rest)));
            }
        }
        result
    }

    /// Writes an unlocked flash and locks it again, whatever came of that.
    fn write_and_lock(&mut self, image: &[u8], idcode: u32) -> (result: Result<u32, Error>)
        requires
            image@.len() <= FLASH_BYTES,
        ensures
            final(self).grew(old(self).accesses()),
            *final(final(self).memory) == *final(old(self).memory),
            final(self).apart() == old(self).apart(),
            forall|rest: Seq<Access>| #[trigger]
                write_and_lock_of(
                    final(self).since(old(self).accesses()) + rest,
                    image@,
                    idcode,
                ) == Some((result, rest)),
    {
        let ghost start = self.accesses();
        let written: Result<(), Error> = self.program_unlocked(image);
        let ghost one = self.accesses();
        let ghost a = self.since(start);
        let cleanup: Result<(), Error> = self.finish_flash_operation();
        let result: Result<u32, Error> = match written {
            Err(error) => Err(error),
            Ok(_) => match cleanup {
                Err(error) => Err(error),
                Ok(_) => Ok(idcode),
            },
        };
        proof {
            let b = self.since(one);
            lemma_two(start, one, self.accesses(), a, b);
            assert forall|rest: Seq<Access>| #[trigger]
                write_and_lock_of(a + b + rest, image@, idcode) == Some((result, rest)) by {
                assert(a + b + rest =~= a + (b + rest));
            }
        }
        result
    }

    /// Writes `image` to the start of the flash and reads it back.
    ///
    /// An image that is empty or does not fit is refused without a single
    /// access; once the flash is unlocked, it is locked again whatever happens.
    pub fn program_and_verify(&mut self, image: &[u8]) -> (result: Result<u32, Error>)
        ensures
            final(self).grew(old(self).accesses()),
            *final(final(self).memory) == *final(old(self).memory),
            final(self).apart() == old(self).apart(),
            image@.len() == 0 ==> {
                &&& result == Err::<u32, Error>(Error::Empty)
                &&& final(self).accesses() == old(self).accesses()
            },
            image@.len() > FLASH_BYTES ==> {
                &&& result == Err::<u32, Error>(Error::TooLarge)
                &&& final(self).accesses() == old(self).accesses()
            },
            forall|rest: Seq<Access>| #[trigger]
                flash_of(final(self).since(old(self).accesses()) + rest, image@) == Some(
                    (result, rest),
                ),
    {
        let ghost start = self.accesses();
        proof {
            assert(self.since(start) =~= Seq::empty());
            assert(self.accesses() =~= start + self.since(start));
            assert forall|rest: Seq<Access>| #[trigger] (self.since(start) + rest) == rest by {
                assert(self.since(start) + rest =~= rest);
            }
        }
        if image.len() == 0 {
            return Err(Error::Empty);
        }
        if image.len() > FLASH_BYTES {
            return Err(Error::TooLarge);
        }
        let halted: Result<(), Error> = self.halt();
        if let Err(error) = halted {
            return Err(error);
        }
        let ghost one = self.accesses();
        let ghost a = self.since(start);
        let identified: Result<u32, Error> = self.identify();
        let ghost two = self.accesses();
        let ghost b = self.since(one);
        proof {
            lemma_two(start, one, two, a, b);
        }
        let idcode: u32 = match identified {
            Ok(idcode) => idcode,
            Err(error) => {
                proof {
                    assert forall|rest: Seq<Access>| #[trigger] flash_of(a + b + rest, image@)
                        == Some((identified, rest)) by {
                        assert(a + b + rest =~= a + (b + rest));
                    }
                }
                return Err(error);
            },
        };
        let unlocked: Result<(), Error> = self.unlock();
        let ghost three = self.accesses();
        let ghost c = self.since(two);
        proof {
            lemma_two(start, two, three, a + b, c);
        }
        if let Err(error) = unlocked {
            proof {
                assert forall|rest: Seq<Access>| #[trigger] flash_of(a + b + c + rest, image@)
                    == Some((Err::<u32, Error>(error), rest)) by {
                    assert(a + b + c + rest =~= a + (b + (c + rest)));
                }
            }
            return Err(error);
        }
        let result: Result<u32, Error> = self.write_and_lock(image, idcode);
        proof {
            let d = self.since(three);
            lemma_two(start, three, self.accesses(), a + b + c, d);
            assert forall|rest: Seq<Access>| #[trigger] flash_of(a + b + c + d + rest, image@)
                == Some((result, rest)) by {
                assert(a + b + c + d + rest =~= a + (b + (c + (d + rest))));
            }
        }
        result
    }
}

/// The word of an image at a byte offset, erased flash past its end.
fn word_in(image: &[u8], at: usize) -> (word: u32)
    requires
        at <= 0x2_0000,
    ensures
        word == image_word(image@, at as int),
{
    byte_in(image, at) as u32 + 256 * (byte_in(image, at + 1) as u32) + 65536 * (byte_in(
        image,
        at + 2,
    ) as u32) + 16777216 * (byte_in(image, at + 3) as u32)
}

fn byte_in(image: &[u8], at: usize) -> (byte: u8)
    ensures
        byte == image_byte(image@, at as int),
{
    if at < image.len() {
        image[at]
    } else {
        0xff
    }
}

/// Is `rest` what is left of `accesses` after its first few?
pub open spec fn left_of(accesses: Seq<Access>, rest: Seq<Access>) -> bool {
    rest.len() <= accesses.len() && rest == accesses.skip(accesses.len() - rest.len())
}

proof fn lemma_left_of_both(a: Seq<Access>, b: Seq<Access>, c: Seq<Access>)
    requires
        left_of(a, b),
        left_of(b, c),
    ensures
        left_of(a, c),
{
    assert(c =~= a.skip(a.len() - c.len()));
}

proof fn lemma_left_of_self(a: Seq<Access>)
    ensures
        left_of(a, a),
{
    assert(a =~= a.skip(0));
}

proof fn lemma_ready_leaves(accesses: Seq<Access>, left: nat)
    ensures
        ready_of(accesses, left) matches Some((result, rest)) ==> left_of(accesses, rest),
    decreases left,
{
    lemma_left_of_self(accesses);
    if left > 0 {
        if let Some((Ok(status), rest)) = read_of(accesses, FLASH_SR) {
            if status & SR_BSY1 != 0 {
                if let Some(more) = pause_of(rest) {
                    lemma_ready_leaves(more, (left - 1) as nat);
                    if let Some((_, end)) = ready_of(more, (left - 1) as nat) {
                        assert(left_of(accesses, rest) && left_of(rest, more));
                        lemma_left_of_both(rest, more, end);
                        lemma_left_of_both(accesses, rest, end);
                    }
                }
            } else if let Some((_, end)) = write_of(rest, FLASH_SR, SR_EOP) {
                lemma_left_of_both(accesses, rest, end);
            }
        }
    }
}

proof fn lemma_prepare_leaves(accesses: Seq<Access>)
    ensures
        prepare_of(accesses) matches Some((result, rest)) ==> left_of(accesses, rest),
{
    lemma_ready_leaves(accesses, READY_POLLS as nat);
    if let Some((Ok(_), one)) = ready_of(accesses, READY_POLLS as nat) {
        if let Some((cleared, two)) = write_of(one, FLASH_SR, SR_EOP | SR_ERRORS) {
            lemma_left_of_both(accesses, one, two);
            if let Some((_, three)) = read_of(two, FLASH_CR) {
                lemma_left_of_both(accesses, two, three);
            }
        }
    }
}

proof fn lemma_erase_leaves(accesses: Seq<Access>, page: u32)
    ensures
        erase_of(accesses, page) matches Some((result, rest)) ==> left_of(accesses, rest),
{
    lemma_prepare_leaves(accesses);
    if let Some((Ok(before), one)) = prepare_of(accesses) {
        let control = erase_control(before, page);
        if let Some((_, two)) = write_of(one, FLASH_CR, control) {
            lemma_left_of_both(accesses, one, two);
            if let Some((_, three)) = write_of(two, FLASH_CR, control | CR_STRT) {
                lemma_left_of_both(accesses, two, three);
                lemma_ready_leaves(three, READY_POLLS as nat);
                if let Some((_, four)) = ready_of(three, READY_POLLS as nat) {
                    lemma_left_of_both(accesses, three, four);
                    if let Some((_, five)) = write_of(four, FLASH_CR, control & !CR_PER) {
                        lemma_left_of_both(accesses, four, five);
                    }
                }
            }
        }
    }
}

proof fn lemma_program_leaves(accesses: Seq<Access>, address: u32, words: Seq<u32>)
    ensures
        program_of(accesses, address, words) matches Some((result, rest)) ==> left_of(
            accesses,
            rest,
        ),
{
    lemma_prepare_leaves(accesses);
    if let Some((Ok(before), one)) = prepare_of(accesses) {
        let control = program_control(before);
        if let Some((_, two)) = write_of(one, FLASH_CR, control) {
            lemma_left_of_both(accesses, one, two);
            if let Some((_, three)) = block_of(two, address, words) {
                lemma_left_of_both(accesses, two, three);
                lemma_ready_leaves(three, READY_POLLS as nat);
                if let Some((_, four)) = ready_of(three, READY_POLLS as nat) {
                    lemma_left_of_both(accesses, three, four);
                    if let Some((_, five)) = write_of(four, FLASH_CR, control & !CR_PG) {
                        lemma_left_of_both(accesses, four, five);
                    }
                }
            }
        }
    }
}

proof fn lemma_erase_from_leaves(accesses: Seq<Access>, image: Seq<u8>, page: nat)
    ensures
        erase_from(accesses, image, page) matches Some((result, rest)) ==> left_of(accesses, rest),
    decreases image.len() + 2048 - 2048 * page,
{
    lemma_left_of_self(accesses);
    if 2048 * page < image.len() {
        lemma_erase_leaves(accesses, page as u32);
        if let Some((Ok(_), rest)) = erase_of(accesses, page as u32) {
            lemma_erase_from_leaves(rest, image, page + 1);
            if let Some((_, end)) = erase_from(rest, image, page + 1) {
                lemma_left_of_both(accesses, rest, end);
            }
        }
    }
}

proof fn lemma_program_from_leaves(accesses: Seq<Access>, image: Seq<u8>, at: nat)
    ensures
        program_from(accesses, image, at) matches Some((result, rest)) ==> left_of(accesses, rest),
    decreases image.len() + 8 - at,
{
    lemma_left_of_self(accesses);
    if at < image.len() {
        let words = pair(image_word(image, at as int), image_word(image, at as int + 4));
        let address = (FLASH_BASE + at) as u32;
        lemma_program_leaves(accesses, address, words);
        if let Some((Ok(_), rest)) = program_of(accesses, address, words) {
            lemma_program_from_leaves(rest, image, at + 8);
            if let Some((_, end)) = program_from(rest, image, at + 8) {
                lemma_left_of_both(accesses, rest, end);
            }
        }
    }
}

proof fn lemma_verify_from_leaves(accesses: Seq<Access>, image: Seq<u8>, at: nat)
    ensures
        verify_from(accesses, image, at) matches Some((result, rest)) ==> left_of(accesses, rest),
    decreases image.len() + 8 - at,
{
    lemma_left_of_self(accesses);
    if at < image.len() {
        let address = (FLASH_BASE + at) as u32;
        if let Some((Ok(_), rest)) = read_of(accesses, address) {
            lemma_verify_from_leaves(rest, image, at + 4);
            if let Some((_, end)) = verify_from(rest, image, at + 4) {
                lemma_left_of_both(accesses, rest, end);
            }
        }
    }
}

proof fn lemma_write_image_leaves(accesses: Seq<Access>, image: Seq<u8>)
    ensures
        write_image_of(accesses, image) matches Some((result, rest)) ==> left_of(accesses, rest),
{
    lemma_erase_from_leaves(accesses, image, 0);
    if let Some((Ok(_), one)) = erase_from(accesses, image, 0) {
        lemma_program_from_leaves(one, image, 0);
        if let Some((_, two)) = program_from(one, image, 0) {
            lemma_left_of_both(accesses, one, two);
            lemma_verify_from_leaves(two, image, 0);
            if let Some((_, three)) = verify_from(two, image, 0) {
                lemma_left_of_both(accesses, two, three);
            }
        }
    }
}

/// Does an access leave the flash locked with no operation bit set?
pub open spec fn locks(access: Access) -> bool {
    access matches Access::Write(address, control, _) && address == FLASH_CR && control & (CR_PG
        | CR_PER | CR_PNB_MASK | CR_STRT) == 0 && control & CR_LOCK != 0
}

/// Once the flash is unlocked, the last thing done to it is to lock it with
/// every operation bit clear, whatever became of the programming; only a
/// target that does not even answer the read before that is left as it is.
pub proof fn law_an_unlocked_flash_is_locked_again(
    accesses: Seq<Access>,
    image: Seq<u8>,
    idcode: u32,
)
    requires
        write_and_lock_of(accesses, image, idcode) is Some,
    ensures
        ({
            let rest = write_and_lock_of(accesses, image, idcode)->Some_0.1;
            let last = accesses[accesses.len() - rest.len() - 1];
            &&& rest.len() < accesses.len()
            &&& locks(last) || (last matches Access::Read(address, Err(_)) && address == FLASH_CR)
        }),
{
    lemma_write_image_leaves(accesses, image);
    let (_, one) = write_image_of(accesses, image)->Some_0;
    let (_, rest) = finish_of(one)->Some_0;
    if let Some((Ok(control), two)) = read_of(one, FLASH_CR) {
        let value = locked(control);
        assert(value & (CR_PG | CR_PER | CR_PNB_MASK | CR_STRT) == 0 && value & CR_LOCK != 0)
            by (bit_vector)
            requires
                value == (control & !(CR_PG | CR_PER | CR_PNB_MASK | CR_STRT)) | CR_LOCK,
        ;
        assert(one[1] == two[0]);
        assert(one[1] == accesses[accesses.len() - one.len() + 1]);
    } else {
        assert(one[0] == accesses[accesses.len() - one.len()]);
    }
}

proof fn lemma_verified(accesses: Seq<Access>, image: Seq<u8>, at: nat)
    requires
        verify_from(accesses, image, at) matches Some((Ok(_), rest)),
    ensures
        forall|k: int|
            0 <= k && at + 4 * k < image.len() ==> k < accesses.len() && #[trigger] accesses[k]
                == Access::Read(
                (FLASH_BASE + at + 4 * k) as u32,
                Ok(image_word(image, at + 4 * k)),
            ),
    decreases image.len() + 8 - at,
{
    if at < image.len() {
        let address = (FLASH_BASE + at) as u32;
        let (_, rest) = read_of(accesses, address)->Some_0;
        lemma_verified(rest, image, at + 4);
        assert forall|k: int| 0 <= k && at + 4 * k < image.len() implies k < accesses.len()
            && #[trigger] accesses[k] == Access::Read(
            (FLASH_BASE + at + 4 * k) as u32,
            Ok(image_word(image, at + 4 * k)),
        ) by {
            if k > 0 {
                assert(rest[k - 1] == accesses[k]);
            }
        }
    }
}

/// An image counts as written only if every word of it was read back as it is:
/// from some access on, the accesses are those reads.
pub proof fn law_success_means_the_image_was_read_back(accesses: Seq<Access>, image: Seq<u8>)
    requires
        write_image_of(accesses, image) matches Some((Ok(_), rest)),
    ensures
        exists|from: int|
            0 <= from <= accesses.len() && #[trigger] read_back(accesses.skip(from), image),
{
    lemma_erase_from_leaves(accesses, image, 0);
    let (_, one) = erase_from(accesses, image, 0)->Some_0;
    lemma_program_from_leaves(one, image, 0);
    let (_, two) = program_from(one, image, 0)->Some_0;
    lemma_left_of_both(accesses, one, two);
    lemma_verified(two, image, 0);
    assert(read_back(accesses.skip(accesses.len() - two.len()), image));
}

/// Do the first of `accesses` read the whole image, word by word?
pub open spec fn read_back(accesses: Seq<Access>, image: Seq<u8>) -> bool {
    forall|k: int|
        0 <= k && 4 * k < image.len() ==> k < accesses.len() && #[trigger] accesses[k]
            == Access::Read((FLASH_BASE + 4 * k) as u32, Ok(image_word(image, 4 * k)))
}

} // verus!
