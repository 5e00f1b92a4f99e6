//! What programming a flash does to it, told by the registers and the bytes.

use super::{
    Error, Ran, CR_LOCK, CR_PER, CR_PG, CR_PNB_MASK, CR_STRT, DBGMCU_IDCODE, DHCSR, DHCSR_HALT,
    FLASH_CR, FLASH_KEYR, FLASH_SR, KEY1, KEY2, SR_EOP, SR_ERRORS,
};
use crate::bytes;
use crate::stm32g0;
use crate::swd::memory::Access;
use vstd::prelude::*;

verus! {

/// The byte that a flash is to hold at an offset: the image's, and that of
/// erased flash past its end.
pub open spec fn wanted(image: Seq<u8>, at: int) -> u8 {
    if at < image.len() {
        image[at]
    } else {
        0xff
    }
}

/// Does a word hold the four bytes at an offset, the first of them in its least
/// significant place?
pub open spec fn holds(word: u32, image: Seq<u8>, at: int) -> bool {
    &&& word % 256 == wanted(image, at)
    &&& word / 256 % 256 == wanted(image, at + 1)
    &&& word / 65536 % 256 == wanted(image, at + 2)
    &&& word / 16777216 == wanted(image, at + 3)
}

/// Does an access program the eight bytes of an image at an offset, where that
/// offset is in the flash?
pub open spec fn programs(access: Access, image: Seq<u8>, at: int) -> bool {
    access matches Access::WriteBlock(address, words, _) && {
        &&& address == 0x0800_0000 + at
        &&& words.len() == 2
        &&& holds(words[0], image, at)
        &&& holds(words[1], image, at + 4)
    }
}

/// Did an access read the four bytes of an image at an offset?
pub open spec fn reads(access: Access, image: Seq<u8>, at: int) -> bool {
    access matches Access::Read(address, Ok(word)) && address == 0x0800_0000 + at && holds(
        word,
        image,
        at,
    )
}

/// Does an access start the erasure of a page?
pub open spec fn erases(access: Access, page: int) -> bool {
    access matches Access::Write(address, control, Ok(_)) && {
        &&& address == 0x4002_2014
        &&& control & 0x1_0003 == 0x1_0002
        &&& control / 8 % 1024 == page
    }
}

/// Did an access write a word?
pub open spec fn wrote(access: Access, address: u32, value: u32) -> bool {
    access matches Access::Write(at, word, Ok(_)) && at == address && word == value
}

/// Did an access write a block of words?
pub open spec fn wrote_block(access: Access, address: u32, values: Seq<u32>) -> bool {
    access matches Access::WriteBlock(at, words, Ok(_)) && at == address && words == values
}

/// Did the target carry an access out?
pub open spec fn answered(access: Access) -> bool {
    match access {
        Access::Read(_, result) => result is Ok,
        Access::Write(_, _, result) => result is Ok,
        Access::WriteBlock(_, _, result) => result is Ok,
        _ => true,
    }
}

/// Is an access one that programming an image may make? It reads; it waits for
/// a millisecond; it halts the core; it gives the flash its two keys; it clears
/// the flash's status; it sets the flash's control, with the bit that erases
/// only beside the number of a page that the image reaches into, and not beside
/// the one that programs; and it programs the image's bytes where they belong.
pub open spec fn permitted(access: Access, image: Seq<u8>) -> bool {
    match access {
        Access::Read(_, _) => true,
        Access::Delay(milliseconds) => milliseconds == 1,
        Access::Write(address, value, _) => {
            ||| address == 0xe000_edf0 && value == 0xa05f_0003
            ||| address == 0x4002_2008 && (value == 0x4567_0123 || value == 0xcdef_89ab)
            ||| address == 0x4002_2010 && value & 0xffff_3c04 == 0
            ||| address == 0x4002_2014 && (value & 2 != 0 ==> value & 1 == 0 && 2048 * (value / 8
                % 1024) < image.len())
        },
        Access::WriteBlock(address, _, _) => {
            let at = address - 0x0800_0000;
            0 <= at < image.len() && at % 8 == 0 && programs(access, image, at)
        },
        _ => false,
    }
}

/// Does an access show the flash busy?
pub open spec fn shows_busy(access: Access) -> bool {
    access matches Access::Read(address, Ok(status)) && address == 0x4002_2010 && status
        & 0x1_0000 != 0
}

/// Does an access show the core running?
pub open spec fn shows_running(access: Access) -> bool {
    access matches Access::Read(address, Ok(status)) && address == 0xe000_edf0 && status
        & 0x2_0000 == 0
}

/// Is an error owed to what the target answered from the access numbered `at`
/// on?
pub open spec fn owed_to(accesses: Seq<Access>, at: int, image: Seq<u8>, error: Error) -> bool {
    match error {
        Error::Transport(reason) => match accesses[at] {
            Access::Read(_, Err(error)) => error == reason,
            Access::Write(_, _, Err(error)) => error == reason,
            Access::WriteBlock(_, _, Err(error)) => error == reason,
            _ => false,
        },
        Error::InvalidDevice(device) => accesses[at] matches Access::Read(address, Ok(code))
            && address == 0x4001_5800 && code % 4096 == device && device != 0x466,
        Error::UnlockFailed => accesses[at] matches Access::Read(address, Ok(control)) && address
            == 0x4002_2014 && control >= 0x8000_0000,
        Error::FlashStatus(reported) => accesses[at] matches Access::Read(address, Ok(status))
            && address == 0x4002_2010 && status == reported && status & 0x1_0000 == 0 && status
            & 0xc3fa != 0,
        Error::Verify { address, expected, observed } => {
            &&& accesses[at] == Access::Read(address, Ok(observed))
            &&& 0x0800_0000 <= address < 0x0800_0000 + image.len()
            &&& observed != expected
            &&& holds(expected, image, address - 0x0800_0000)
        },
        Error::HaltTimeout => {
            &&& at + 500 <= accesses.len()
            &&& forall|i: int|
                at <= i < at + 500 && (i - at) % 2 == 0 ==> shows_running(#[trigger] accesses[i])
        },
        Error::BusyTimeout => {
            &&& at + 4000 <= accesses.len()
            &&& forall|i: int|
                at <= i < at + 4000 && (i - at) % 2 == 0 ==> shows_busy(#[trigger] accesses[i])
        },
        Error::Empty | Error::TooLarge => false,
    }
}

/// Is an error owed to what the target answered in the accesses up to `rest`?
pub open spec fn owed(
    accesses: Seq<Access>,
    rest: Seq<Access>,
    image: Seq<u8>,
    error: Error,
) -> bool {
    exists|at: int|
        0 <= at < accesses.len() - rest.len() && #[trigger] owed_to(accesses, at, image, error)
}

/// Are all of the accesses up to `rest` permitted?
pub open spec fn all_permitted(accesses: Seq<Access>, rest: Seq<Access>, image: Seq<u8>) -> bool {
    &&& stm32g0::left_of(accesses, rest)
    &&& forall|i: int|
        0 <= i < accesses.len() - rest.len() ==> permitted(#[trigger] accesses[i], image)
}

/// Does an operation make permitted accesses only, and fail only for a reason
/// that the target gave?
pub open spec fn behaves<T>(accesses: Seq<Access>, ran: Ran<T>, image: Seq<u8>) -> bool {
    match ran {
        None => true,
        Some((Ok(_), rest)) => all_permitted(accesses, rest, image),
        Some((Err(error), rest)) => all_permitted(accesses, rest, image) && owed(
            accesses,
            rest,
            image,
            error,
        ),
    }
}

proof fn lemma_owed_to_later(
    accesses: Seq<Access>,
    skipped: int,
    at: int,
    image: Seq<u8>,
    error: Error,
)
    requires
        0 <= skipped <= accesses.len(),
        0 <= at < accesses.len() - skipped,
        owed_to(accesses.skip(skipped), at, image, error),
    ensures
        owed_to(accesses, skipped + at, image, error),
{
    let later = accesses.skip(skipped);
    assert(later[at] == accesses[skipped + at]);
    if error == Error::HaltTimeout {
        assert forall|i: int|
            skipped + at <= i < skipped + at + 500 && (i - (skipped + at)) % 2
                == 0 implies shows_running(#[trigger] accesses[i]) by {
            assert(later[i - skipped] == accesses[i]);
        }
    }
    if error == Error::BusyTimeout {
        assert forall|i: int|
            skipped + at <= i < skipped + at + 4000 && (i - (skipped + at)) % 2
                == 0 implies shows_busy(#[trigger] accesses[i]) by {
            assert(later[i - skipped] == accesses[i]);
        }
    }
}

/// What behaves after accesses that were permitted behaves with them.
proof fn lemma_behaves_on<T>(
    accesses: Seq<Access>,
    rest: Seq<Access>,
    next: Ran<T>,
    image: Seq<u8>,
)
    requires
        all_permitted(accesses, rest, image),
        behaves(rest, next, image),
    ensures
        behaves(accesses, next, image),
{
    let skipped = accesses.len() - rest.len();
    if let Some((result, end)) = next {
        assert(end =~= accesses.skip(accesses.len() - end.len()));
        assert forall|i: int| 0 <= i < accesses.len() - end.len() implies permitted(
            #[trigger] accesses[i],
            image,
        ) by {
            if i >= skipped {
                assert(rest[i - skipped] == accesses[i]);
            }
        }
        if let Err(error) = result {
            let at = choose|at: int|
                0 <= at < rest.len() - end.len() && #[trigger] owed_to(rest, at, image, error);
            lemma_owed_to_later(accesses, skipped, at, image, error);
        }
    }
}

proof fn lemma_nothing_behaves(accesses: Seq<Access>, image: Seq<u8>)
    ensures
        all_permitted(accesses, accesses, image),
{
    assert(accesses =~= accesses.skip(0));
}

proof fn lemma_one_permitted(accesses: Seq<Access>, image: Seq<u8>)
    requires
        accesses.len() > 0,
        permitted(accesses[0], image),
    ensures
        all_permitted(accesses, accesses.skip(1), image),
{
    assert(accesses.skip(1) =~= accesses.skip(accesses.len() - accesses.skip(1).len()));
}

proof fn lemma_read_behaves(accesses: Seq<Access>, address: u32, image: Seq<u8>)
    ensures
        behaves(accesses, stm32g0::read_of(accesses, address), image),
{
    if let Some((result, rest)) = stm32g0::read_of(accesses, address) {
        lemma_one_permitted(accesses, image);
        if let Err(error) = result {
            assert(owed_to(accesses, 0, image, error));
        }
    }
}

proof fn lemma_write_behaves(accesses: Seq<Access>, address: u32, value: u32, image: Seq<u8>)
    requires
        permitted(Access::Write(address, value, Ok(())), image),
    ensures
        behaves(accesses, stm32g0::write_of(accesses, address, value), image),
{
    if let Some((result, rest)) = stm32g0::write_of(accesses, address, value) {
        assert(permitted(accesses[0], image));
        lemma_one_permitted(accesses, image);
        if let Err(error) = result {
            assert(owed_to(accesses, 0, image, error));
        }
    }
}

proof fn lemma_block_behaves(
    accesses: Seq<Access>,
    address: u32,
    words: Seq<u32>,
    image: Seq<u8>,
)
    requires
        permitted(Access::WriteBlock(address, words, Ok(())), image),
    ensures
        behaves(accesses, stm32g0::block_of(accesses, address, words), image),
{
    if let Some((result, rest)) = stm32g0::block_of(accesses, address, words) {
        assert(permitted(accesses[0], image));
        lemma_one_permitted(accesses, image);
        if let Err(error) = result {
            assert(owed_to(accesses, 0, image, error));
        }
    }
}

proof fn lemma_status_bits()
    ensures
        SR_EOP & 0xffff_3c04 == 0,
        (SR_EOP | SR_ERRORS) & 0xffff_3c04 == 0,
        SR_EOP | SR_ERRORS == 0xc3fb,
{
    assert(1u32 & 0xffff_3c04 == 0 && (1u32 | 0xc3fa) & 0xffff_3c04 == 0 && 1u32 | 0xc3fa == 0xc3fb)
        by (bit_vector);
}

proof fn lemma_ready_behaves(accesses: Seq<Access>, left: nat, image: Seq<u8>)
    ensures
        match stm32g0::ready_of(accesses, left) {
            Some((Err(Error::BusyTimeout), rest)) => {
                &&& all_permitted(accesses, rest, image)
                &&& accesses.len() - rest.len() == 2 * left
                &&& forall|i: int|
                    0 <= i < 2 * left && i % 2 == 0 ==> shows_busy(#[trigger] accesses[i])
            },
            other => behaves(accesses, other, image),
        },
    decreases left,
{
    lemma_status_bits();
    if left == 0 {
        lemma_nothing_behaves(accesses, image);
    } else {
        lemma_read_behaves(accesses, FLASH_SR, image);
        if let Some((Ok(status), rest)) = stm32g0::read_of(accesses, FLASH_SR) {
            if status & 0x1_0000 != 0 {
                if let Some(more) = stm32g0::pause_of(rest) {
                    lemma_one_permitted(rest, image);
                    lemma_ready_behaves(more, (left - 1) as nat, image);
                    let ran = stm32g0::ready_of(more, (left - 1) as nat);
                    let quiet: Ran<()> = Some((Ok(()), more));
                    lemma_behaves_on(accesses, rest, quiet, image);
                    if let Some((Err(Error::BusyTimeout), end)) = ran {
                        let over: Ran<()> = Some((Ok(()), end));
                        lemma_behaves_on(accesses, more, over, image);
                        assert forall|i: int| 0 <= i < 2 * left && i % 2 == 0 implies shows_busy(
                            #[trigger] accesses[i],
                        ) by {
                            if i >= 2 {
                                assert(accesses[i] == more[i - 2]);
                            }
                        }
                    } else {
                        lemma_behaves_on(accesses, more, ran, image);
                    }
                }
            } else if status & 0xc3fa != 0 {
                assert(owed_to(accesses, 0, image, Error::FlashStatus(status)));
            } else if status & 1 != 0 {
                lemma_write_behaves(rest, FLASH_SR, SR_EOP, image);
                lemma_behaves_on(accesses, rest, stm32g0::write_of(rest, FLASH_SR, SR_EOP), image);
            }
        }
    }
}

proof fn lemma_wait_behaves(accesses: Seq<Access>, image: Seq<u8>)
    ensures
        behaves(accesses, stm32g0::ready_of(accesses, 2000), image),
{
    lemma_ready_behaves(accesses, 2000, image);
    if let Some((Err(Error::BusyTimeout), rest)) = stm32g0::ready_of(accesses, 2000) {
        assert(owed_to(accesses, 0, image, Error::BusyTimeout));
    }
}

proof fn lemma_halted_behaves(accesses: Seq<Access>, left: nat, image: Seq<u8>)
    ensures
        match stm32g0::halted_of(accesses, left) {
            Some((Err(Error::HaltTimeout), rest)) => {
                &&& all_permitted(accesses, rest, image)
                &&& accesses.len() - rest.len() == 2 * left
                &&& forall|i: int|
                    0 <= i < 2 * left && i % 2 == 0 ==> shows_running(#[trigger] accesses[i])
            },
            other => behaves(accesses, other, image),
        },
        stm32g0::halted_of(accesses, left) matches Some((Ok(_), rest)) ==> {
            let n = accesses.len() - rest.len();
            &&& n >= 1
            &&& accesses[n - 1] matches Access::Read(address, Ok(status)) && address == 0xe000_edf0
                && status & 0x2_0000 != 0
        },
    decreases left,
{
    if left == 0 {
        lemma_nothing_behaves(accesses, image);
    } else {
        lemma_read_behaves(accesses, DHCSR, image);
        if let Some((Ok(status), rest)) = stm32g0::read_of(accesses, DHCSR) {
            if status & 0x2_0000 == 0 {
                if let Some(more) = stm32g0::pause_of(rest) {
                    lemma_one_permitted(rest, image);
                    lemma_halted_behaves(more, (left - 1) as nat, image);
                    let ran = stm32g0::halted_of(more, (left - 1) as nat);
                    let quiet: Ran<()> = Some((Ok(()), more));
                    lemma_behaves_on(accesses, rest, quiet, image);
                    if let Some((Err(Error::HaltTimeout), end)) = ran {
                        let over: Ran<()> = Some((Ok(()), end));
                        lemma_behaves_on(accesses, more, over, image);
                        assert forall|i: int| 0 <= i < 2 * left && i % 2
                            == 0 implies shows_running(#[trigger] accesses[i]) by {
                            if i >= 2 {
                                assert(accesses[i] == more[i - 2]);
                            }
                        }
                    } else {
                        lemma_behaves_on(accesses, more, ran, image);
                        if let Some((Ok(_), end)) = ran {
                            let n = more.len() - end.len();
                            assert(accesses[n + 1] == more[n - 1]);
                        }
                    }
                }
            }
        }
    }
}

proof fn lemma_halt_behaves(accesses: Seq<Access>, image: Seq<u8>)
    ensures
        behaves(accesses, stm32g0::halt_of(accesses), image),
        stm32g0::halt_of(accesses) matches Some((Ok(_), rest)) ==> {
            let n = accesses.len() - rest.len();
            &&& n >= 2
            &&& wrote(accesses[0], 0xe000_edf0, 0xa05f_0003)
            &&& accesses[n - 1] matches Access::Read(address, Ok(status)) && address == 0xe000_edf0
                && status & 0x2_0000 != 0
        },
{
    lemma_write_behaves(accesses, DHCSR, DHCSR_HALT, image);
    if let Some((Ok(_), rest)) = stm32g0::write_of(accesses, DHCSR, DHCSR_HALT) {
        lemma_halted_behaves(rest, 250, image);
        if let Some((Err(Error::HaltTimeout), end)) = stm32g0::halted_of(rest, 250) {
            assert(owed_to(rest, 0, image, Error::HaltTimeout));
        }
        lemma_behaves_on(accesses, rest, stm32g0::halted_of(rest, 250), image);
        if let Some((Ok(_), end)) = stm32g0::halted_of(rest, 250) {
            let n = rest.len() - end.len();
            assert(accesses[n] == rest[n - 1]);
        }
    }
}

pub(crate) proof fn lemma_halt_seen(accesses: Seq<Access>)
    ensures
        stm32g0::halt_of(accesses) matches Some((Ok(_), rest)) ==> {
            let n = accesses.len() - rest.len();
            &&& stm32g0::left_of(accesses, rest)
            &&& n >= 2
            &&& wrote(accesses[0], 0xe000_edf0, 0xa05f_0003)
            &&& accesses[n - 1] matches Access::Read(address, Ok(status)) && address == 0xe000_edf0
                && status & 0x2_0000 != 0
        },
{
    lemma_halt_behaves(accesses, Seq::empty());
}

proof fn lemma_identify_behaves(accesses: Seq<Access>, image: Seq<u8>)
    ensures
        behaves(accesses, stm32g0::identify_of(accesses), image),
        stm32g0::identify_of(accesses) matches Some((Ok(code), rest)) ==> accesses.len() - rest.len() == 1
            && accesses[0] == Access::Read(0x4001_5800, Ok(code)) && code % 4096 == 0x466,
{
    lemma_read_behaves(accesses, DBGMCU_IDCODE, image);
    if let Some((Err(Error::InvalidDevice(device)), rest)) = stm32g0::identify_of(accesses) {
        if let Some((Ok(_), _)) = stm32g0::read_of(accesses, DBGMCU_IDCODE) {
            assert(owed_to(accesses, 0, image, Error::InvalidDevice(device)));
        }
    }
}

/// Do the accesses up to `rest` find a flash unlocked, or unlock it: with its
/// two keys, in order, and a look that the lock bit is gone?
pub open spec fn unlocks(accesses: Seq<Access>, rest: Seq<Access>) -> bool {
    let n = accesses.len() - rest.len();
    &&& n == 1 || n == 4
    &&& accesses[n - 1] matches Access::Read(address, Ok(control)) && address == 0x4002_2014
        && control < 0x8000_0000
    &&& n == 4 ==> {
        &&& accesses[0] matches Access::Read(address, Ok(control)) && address == 0x4002_2014
            && control >= 0x8000_0000
        &&& wrote(accesses[1], 0x4002_2008, 0x4567_0123)
        &&& wrote(accesses[2], 0x4002_2008, 0xcdef_89ab)
    }
}

proof fn lemma_lock_bit(control: u32)
    ensures
        control & CR_LOCK == 0 <==> control < 0x8000_0000,
{
    assert(control & 0x8000_0000 == 0 <==> control < 0x8000_0000) by (bit_vector);
}

proof fn lemma_unlock_behaves(accesses: Seq<Access>, image: Seq<u8>)
    ensures
        behaves(accesses, stm32g0::unlock_of(accesses), image),
        stm32g0::unlock_of(accesses) matches Some((Ok(_), rest)) ==> unlocks(accesses, rest),
{
    lemma_read_behaves(accesses, FLASH_CR, image);
    if let Some((Ok(control), one)) = stm32g0::read_of(accesses, FLASH_CR) {
        lemma_lock_bit(control);
        if control >= 0x8000_0000 {
            lemma_write_behaves(one, FLASH_KEYR, KEY1, image);
            lemma_behaves_on(accesses, one, stm32g0::write_of(one, FLASH_KEYR, KEY1), image);
            if let Some((Ok(_), two)) = stm32g0::write_of(one, FLASH_KEYR, KEY1) {
                lemma_write_behaves(two, FLASH_KEYR, KEY2, image);
                lemma_behaves_on(accesses, two, stm32g0::write_of(two, FLASH_KEYR, KEY2), image);
                if let Some((Ok(_), three)) = stm32g0::write_of(two, FLASH_KEYR, KEY2) {
                    lemma_read_behaves(three, FLASH_CR, image);
                    lemma_behaves_on(accesses, three, stm32g0::read_of(three, FLASH_CR), image);
                    assert(accesses[1] == one[0]);
                    assert(accesses[2] == one[1] && one[1] == two[0]);
                    if three.len() > 0 {
                        assert(accesses[3] == three[0]);
                    }
                    if let Some((Ok(control), four)) = stm32g0::read_of(three, FLASH_CR) {
                        lemma_lock_bit(control);
                        if control >= 0x8000_0000 {
                            assert(owed_to(accesses, 3, image, Error::UnlockFailed));
                        }
                    }
                }
            }
        }
    }
}

proof fn lemma_finish_behaves(accesses: Seq<Access>, image: Seq<u8>)
    ensures
        behaves(accesses, stm32g0::finish_of(accesses), image),
{
    lemma_read_behaves(accesses, FLASH_CR, image);
    if let Some((Ok(control), rest)) = stm32g0::read_of(accesses, FLASH_CR) {
        let value = stm32g0::locked(control);
        assert(value & 2 == 0) by (bit_vector)
            requires
                value == (control & !(CR_PG | CR_PER | CR_PNB_MASK | CR_STRT)) | CR_LOCK,
        ;
        lemma_write_behaves(rest, FLASH_CR, value, image);
        lemma_behaves_on(accesses, rest, stm32g0::write_of(rest, FLASH_CR, value), image);
    }
}

proof fn lemma_prepare_behaves(accesses: Seq<Access>, image: Seq<u8>)
    ensures
        behaves(accesses, stm32g0::prepare_of(accesses), image),
{
    lemma_status_bits();
    lemma_wait_behaves(accesses, image);
    if let Some((Ok(_), one)) = stm32g0::ready_of(accesses, 2000) {
        lemma_write_behaves(one, FLASH_SR, SR_EOP | SR_ERRORS, image);
        lemma_behaves_on(accesses, one, stm32g0::write_of(one, FLASH_SR, SR_EOP | SR_ERRORS), image);
        if let Some((Ok(_), two)) = stm32g0::write_of(one, FLASH_SR, SR_EOP | SR_ERRORS) {
            lemma_read_behaves(two, FLASH_CR, image);
            lemma_behaves_on(accesses, two, stm32g0::read_of(two, FLASH_CR), image);
        }
    }
}

proof fn lemma_erase_control(before: u32, page: u32)
    requires
        page < 1024,
    ensures
        ({
            let control = stm32g0::erase_control(before, page);
            &&& control & 1 == 0
            &&& control / 8 % 1024 == page
            &&& (control | CR_STRT) & 0x1_0003 == 0x1_0002
            &&& (control | CR_STRT) / 8 % 1024 == page
            &&& (control | CR_STRT) & 1 == 0
            &&& control & !CR_PER & 2 == 0
        }),
{
    let control = stm32g0::erase_control(before, page);
    assert(control & 1 == 0 && control / 8 % 1024 == page && (control | 0x1_0000) & 0x1_0003
        == 0x1_0002 && (control | 0x1_0000) / 8 % 1024 == page && (control | 0x1_0000) & 1 == 0
        && control & !2u32 & 2 == 0) by (bit_vector)
        requires
            page < 1024,
            control == (before & !(1u32 | 2 | 0x1ff8)) | (2u32 | (page << 3)),
    ;
}

proof fn lemma_erase_behaves(accesses: Seq<Access>, page: u32, image: Seq<u8>)
    requires
        page < 1024,
        2048 * page < image.len(),
    ensures
        behaves(accesses, stm32g0::erase_of(accesses, page), image),
        stm32g0::erase_of(accesses, page) matches Some((Ok(_), rest)) ==> exists|at: int|
            0 <= at < accesses.len() - rest.len() && erases(#[trigger] accesses[at], page as int),
{
    lemma_prepare_behaves(accesses, image);
    if let Some((Ok(before), one)) = stm32g0::prepare_of(accesses) {
        let control = stm32g0::erase_control(before, page);
        lemma_erase_control(before, page);
        lemma_write_behaves(one, FLASH_CR, control, image);
        lemma_behaves_on(accesses, one, stm32g0::write_of(one, FLASH_CR, control), image);
        if let Some((Ok(_), two)) = stm32g0::write_of(one, FLASH_CR, control) {
            lemma_write_behaves(two, FLASH_CR, control | CR_STRT, image);
            lemma_behaves_on(accesses, two, stm32g0::write_of(two, FLASH_CR, control | CR_STRT), image);
            if let Some((Ok(_), three)) = stm32g0::write_of(two, FLASH_CR, control | CR_STRT) {
                let at = accesses.len() - two.len();
                assert(accesses[at] == two[0]);
                assert(erases(accesses[at], page as int));
                lemma_wait_behaves(three, image);
                lemma_behaves_on(accesses, three, stm32g0::ready_of(three, 2000), image);
                if let Some((Ok(_), four)) = stm32g0::ready_of(three, 2000) {
                    lemma_write_behaves(four, FLASH_CR, control & !CR_PER, image);
                    lemma_behaves_on(
                        accesses,
                        four,
                        stm32g0::write_of(four, FLASH_CR, control & !CR_PER),
                        image,
                    );
                }
            }
        }
    }
}

proof fn lemma_program_control(before: u32)
    ensures
        stm32g0::program_control(before) & 2 == 0,
        stm32g0::program_control(before) & !CR_PG & 2 == 0,
{
    let control = stm32g0::program_control(before);
    assert(control & 2 == 0 && control & !1u32 & 2 == 0) by (bit_vector)
        requires
            control == (before & !(2u32 | 1 | 0x1ff8)) | 1,
    ;
}

proof fn lemma_program_behaves(
    accesses: Seq<Access>,
    address: u32,
    words: Seq<u32>,
    image: Seq<u8>,
)
    requires
        permitted(Access::WriteBlock(address, words, Ok(())), image),
    ensures
        behaves(accesses, stm32g0::program_of(accesses, address, words), image),
        stm32g0::program_of(accesses, address, words) matches Some((Ok(_), rest)) ==> exists|at: int|
            0 <= at < accesses.len() - rest.len() && wrote_block(
                #[trigger] accesses[at],
                address,
                words,
            ),
{
    lemma_prepare_behaves(accesses, image);
    if let Some((Ok(before), one)) = stm32g0::prepare_of(accesses) {
        let control = stm32g0::program_control(before);
        lemma_program_control(before);
        lemma_write_behaves(one, FLASH_CR, control, image);
        lemma_behaves_on(accesses, one, stm32g0::write_of(one, FLASH_CR, control), image);
        if let Some((Ok(_), two)) = stm32g0::write_of(one, FLASH_CR, control) {
            lemma_block_behaves(two, address, words, image);
            lemma_behaves_on(accesses, two, stm32g0::block_of(two, address, words), image);
            if let Some((Ok(_), three)) = stm32g0::block_of(two, address, words) {
                let at = accesses.len() - two.len();
                assert(accesses[at] == two[0]);
                assert(wrote_block(accesses[at], address, words));
                lemma_wait_behaves(three, image);
                lemma_behaves_on(accesses, three, stm32g0::ready_of(three, 2000), image);
                if let Some((Ok(_), four)) = stm32g0::ready_of(three, 2000) {
                    lemma_write_behaves(four, FLASH_CR, control & !CR_PG, image);
                    lemma_behaves_on(
                        accesses,
                        four,
                        stm32g0::write_of(four, FLASH_CR, control & !CR_PG),
                        image,
                    );
                }
            }
        }
    }
}

proof fn lemma_image_word_holds(image: Seq<u8>, at: int)
    requires
        0 <= at,
    ensures
        holds(stm32g0::image_word(image, at), image, at),
{
}

/// Is a page erased in the accesses up to `rest`?
pub open spec fn page_erased(accesses: Seq<Access>, rest: Seq<Access>, page: int) -> bool {
    exists|at: int|
        0 <= at < accesses.len() - rest.len() && #[trigger] erases(accesses[at], page)
}

/// Are the eight bytes at an offset programmed in the accesses up to `rest`,
/// and did the target carry that out?
pub open spec fn programmed_at(
    accesses: Seq<Access>,
    rest: Seq<Access>,
    image: Seq<u8>,
    offset: int,
) -> bool {
    exists|at: int|
        0 <= at < accesses.len() - rest.len() && #[trigger] programs(accesses[at], image, offset)
            && answered(accesses[at])
}

/// Are the four bytes at an offset read back in the accesses up to `rest`?
pub open spec fn read_at(
    accesses: Seq<Access>,
    rest: Seq<Access>,
    image: Seq<u8>,
    offset: int,
) -> bool {
    exists|at: int|
        0 <= at < accesses.len() - rest.len() && #[trigger] reads(accesses[at], image, offset)
}

/// Is every page from `page` on that the image reaches into erased in the
/// accesses up to `rest`?
pub open spec fn all_erased(
    accesses: Seq<Access>,
    rest: Seq<Access>,
    image: Seq<u8>,
    page: nat,
) -> bool {
    forall|p: int|
        page <= p && 2048 * p < image.len() ==> #[trigger] page_erased(accesses, rest, p)
}

proof fn lemma_erase_from_behaves(accesses: Seq<Access>, image: Seq<u8>, page: nat)
    requires
        image.len() <= 65536,
    ensures
        behaves(accesses, stm32g0::erase_from(accesses, image, page), image),
        stm32g0::erase_from(accesses, image, page) matches Some((Ok(_), rest)) ==> all_erased(
            accesses,
            rest,
            image,
            page,
        ),
    decreases image.len() + 2048 - 2048 * page,
{
    if 2048 * page >= image.len() {
        lemma_nothing_behaves(accesses, image);
    } else {
        lemma_erase_behaves(accesses, page as u32, image);
        if let Some((Ok(_), rest)) = stm32g0::erase_of(accesses, page as u32) {
            lemma_erase_from_behaves(rest, image, page + 1);
            lemma_behaves_on(accesses, rest, stm32g0::erase_from(rest, image, page + 1), image);
            if let Some((Ok(_), end)) = stm32g0::erase_from(rest, image, page + 1) {
                let skipped = accesses.len() - rest.len();
                assert forall|p: int|
                    page <= p && 2048 * p < image.len() implies #[trigger] page_erased(
                    accesses,
                    end,
                    p,
                ) by {
                    if p > page {
                        assert(page_erased(rest, end, p));
                        let at = choose|at: int|
                            0 <= at < rest.len() - end.len() && #[trigger] erases(rest[at], p);
                        assert(accesses[skipped + at] == rest[at]);
                        assert(erases(accesses[skipped + at], p));
                    } else {
                        let at = choose|at: int|
                            0 <= at < skipped && erases(#[trigger] accesses[at], page as int);
                        assert(erases(accesses[at], p));
                    }
                }
            }
        }
    }
}

/// Is every eighth offset from `from` on that the image reaches to programmed
/// in the accesses up to `rest`, and did the target carry that out?
pub open spec fn all_programmed(
    accesses: Seq<Access>,
    rest: Seq<Access>,
    image: Seq<u8>,
    from: nat,
) -> bool {
    forall|offset: int|
        from <= offset < image.len() && (offset - from) % 8 == 0 ==> #[trigger] programmed_at(
            accesses,
            rest,
            image,
            offset,
        )
}

proof fn lemma_program_from_behaves(accesses: Seq<Access>, image: Seq<u8>, from: nat)
    requires
        image.len() <= 65536,
        from % 8 == 0,
    ensures
        behaves(accesses, stm32g0::program_from(accesses, image, from), image),
        stm32g0::program_from(accesses, image, from) matches Some((Ok(_), rest)) ==> all_programmed(
            accesses,
            rest,
            image,
            from,
        ),
    decreases image.len() + 8 - from,
{
    if from >= image.len() {
        lemma_nothing_behaves(accesses, image);
    } else {
        let low = stm32g0::image_word(image, from as int);
        let high = stm32g0::image_word(image, from as int + 4);
        let words = stm32g0::pair(low, high);
        let address = (0x0800_0000 + from) as u32;
        lemma_image_word_holds(image, from as int);
        lemma_image_word_holds(image, from as int + 4);
        lemma_program_behaves(accesses, address, words, image);
        if let Some((Ok(_), rest)) = stm32g0::program_of(accesses, address, words) {
            lemma_program_from_behaves(rest, image, from + 8);
            lemma_behaves_on(accesses, rest, stm32g0::program_from(rest, image, from + 8), image);
            if let Some((Ok(_), end)) = stm32g0::program_from(rest, image, from + 8) {
                let skipped = accesses.len() - rest.len();
                assert forall|offset: int|
                    from <= offset < image.len() && (offset - from) % 8
                        == 0 implies #[trigger] programmed_at(accesses, end, image, offset) by {
                    if offset > from {
                        assert(programmed_at(rest, end, image, offset));
                        let at = choose|at: int|
                            0 <= at < rest.len() - end.len() && #[trigger] programs(
                                rest[at],
                                image,
                                offset,
                            ) && answered(rest[at]);
                        assert(accesses[skipped + at] == rest[at]);
                        assert(programs(accesses[skipped + at], image, offset));
                    } else {
                        let at = choose|at: int|
                            0 <= at < skipped && wrote_block(
                                #[trigger] accesses[at],
                                address,
                                words,
                            );
                        assert(programs(accesses[at], image, offset));
                    }
                }
            }
        }
    }
}

/// Is every fourth offset from `from` on that the image reaches to read as the
/// image has it in the accesses up to `rest`?
pub open spec fn all_read(
    accesses: Seq<Access>,
    rest: Seq<Access>,
    image: Seq<u8>,
    from: nat,
) -> bool {
    forall|offset: int|
        from <= offset < image.len() && (offset - from) % 4 == 0 ==> #[trigger] read_at(
            accesses,
            rest,
            image,
            offset,
        )
}

proof fn lemma_verify_from_behaves(accesses: Seq<Access>, image: Seq<u8>, from: nat)
    requires
        image.len() <= 65536,
        from % 4 == 0,
    ensures
        behaves(accesses, stm32g0::verify_from(accesses, image, from), image),
        stm32g0::verify_from(accesses, image, from) matches Some((Ok(_), rest)) ==> all_read(
            accesses,
            rest,
            image,
            from,
        ),
    decreases image.len() + 8 - from,
{
    if from >= image.len() {
        lemma_nothing_behaves(accesses, image);
    } else {
        let address = (0x0800_0000 + from) as u32;
        let expected = stm32g0::image_word(image, from as int);
        lemma_image_word_holds(image, from as int);
        lemma_read_behaves(accesses, address, image);
        if let Some((Ok(observed), rest)) = stm32g0::read_of(accesses, address) {
            if observed != expected {
                assert(owed_to(
                    accesses,
                    0,
                    image,
                    Error::Verify { address, expected, observed },
                ));
            } else {
                lemma_verify_from_behaves(rest, image, from + 4);
                lemma_behaves_on(accesses, rest, stm32g0::verify_from(rest, image, from + 4), image);
                if let Some((Ok(_), end)) = stm32g0::verify_from(rest, image, from + 4) {
                    assert forall|offset: int|
                        from <= offset < image.len() && (offset - from) % 4
                            == 0 implies #[trigger] read_at(accesses, end, image, offset) by {
                        if offset > from {
                            assert(read_at(rest, end, image, offset));
                            let at = choose|at: int|
                                0 <= at < rest.len() - end.len() && #[trigger] reads(
                                    rest[at],
                                    image,
                                    offset,
                                );
                            assert(accesses[1 + at] == rest[at]);
                            assert(reads(accesses[1 + at], image, offset));
                        } else {
                            assert(reads(accesses[0], image, offset));
                        }
                    }
                }
            }
        }
    }
}

/// Was a flash made to hold an image: first all its pages erased, then every
/// byte programmed, and then every byte read back as it should be?
pub open spec fn written_in_order(
    accesses: Seq<Access>,
    erased: Seq<Access>,
    programmed: Seq<Access>,
    rest: Seq<Access>,
    image: Seq<u8>,
) -> bool {
    &&& stm32g0::left_of(accesses, erased)
    &&& stm32g0::left_of(erased, programmed)
    &&& stm32g0::left_of(programmed, rest)
    &&& all_erased(accesses, erased, image, 0)
    &&& all_programmed(erased, programmed, image, 0)
    &&& all_read(programmed, rest, image, 0)
}

proof fn lemma_write_image_behaves(accesses: Seq<Access>, image: Seq<u8>)
    requires
        image.len() <= 65536,
    ensures
        behaves(accesses, stm32g0::write_image_of(accesses, image), image),
        stm32g0::write_image_of(accesses, image) matches Some((Ok(_), rest)) ==> exists|
            erased: Seq<Access>,
            programmed: Seq<Access>,
        | #[trigger] written_in_order(accesses, erased, programmed, rest, image),
{
    lemma_erase_from_behaves(accesses, image, 0);
    if let Some((Ok(_), one)) = stm32g0::erase_from(accesses, image, 0) {
        lemma_program_from_behaves(one, image, 0);
        lemma_behaves_on(accesses, one, stm32g0::program_from(one, image, 0), image);
        if let Some((Ok(_), two)) = stm32g0::program_from(one, image, 0) {
            lemma_verify_from_behaves(two, image, 0);
            lemma_behaves_on(accesses, two, stm32g0::verify_from(two, image, 0), image);
            if let Some((Ok(_), three)) = stm32g0::verify_from(two, image, 0) {
                assert(written_in_order(accesses, one, two, three, image));
            }
        }
    }
}

/// Was the core halted in the accesses up to `halted`, and seen to be; was the
/// device then found to be the right one, and its flash unlocked?
pub open spec fn begun_with(
    accesses: Seq<Access>,
    halted: Seq<Access>,
    identified: Seq<Access>,
    unlocked: Seq<Access>,
    idcode: u32,
) -> bool {
    let n = accesses.len() - halted.len();
    &&& stm32g0::left_of(accesses, halted)
    &&& n >= 2
    &&& wrote(accesses[0], 0xe000_edf0, 0xa05f_0003)
    &&& accesses[n - 1] matches Access::Read(address, Ok(status)) && address == 0xe000_edf0
        && status & 0x2_0000 != 0
    &&& stm32g0::left_of(halted, identified)
    &&& halted.len() > 0 && halted[0] == Access::Read(0x4001_5800, Ok(idcode))
    &&& idcode % 4096 == 0x466
    &&& stm32g0::left_of(identified, unlocked)
    &&& unlocks(identified, unlocked)
}

/// What programming an image comes to.
///
/// It makes no access that it may not: in particular it erases no page that the
/// image does not reach into, and writes nothing but the image's bytes, each to
/// its own place in the flash. It fails only where the target gives a reason
/// to. It succeeds, with the target's own identification, only after the core
/// was halted, the device was found to be the right one, the flash was
/// unlocked, every page was erased, every byte was programmed and every byte
/// was read back.
#[verifier::spinoff_prover]
#[verifier::rlimit(40)]
pub proof fn law_a_flash_holds_the_image(accesses: Seq<Access>, image: Seq<u8>)
    requires
        0 < image.len() <= 65536,
        stm32g0::flash_of(accesses, image) is Some,
    ensures
        ({
            let (result, rest) = stm32g0::flash_of(accesses, image)->Some_0;
            &&& all_permitted(accesses, rest, image)
            &&& result matches Err(error) ==> owed(accesses, rest, image, error)
            &&& result matches Ok(idcode) ==> exists|
                halted: Seq<Access>,
                identified: Seq<Access>,
                unlocked: Seq<Access>,
                erased: Seq<Access>,
                programmed: Seq<Access>,
                verified: Seq<Access>,
            |
                #[trigger] begun_with(accesses, halted, identified, unlocked, idcode)
                    && #[trigger] written_in_order(unlocked, erased, programmed, verified, image)
                    && stm32g0::left_of(verified, rest)
        }),
{
    lemma_halt_behaves(accesses, image);
    if let Some((Ok(_), one)) = stm32g0::halt_of(accesses) {
        lemma_identify_behaves(one, image);
        lemma_behaves_on(accesses, one, stm32g0::identify_of(one), image);
        if let Some((Ok(idcode), two)) = stm32g0::identify_of(one) {
            lemma_unlock_behaves(two, image);
            lemma_behaves_on(accesses, two, stm32g0::unlock_of(two), image);
            if let Some((Ok(_), three)) = stm32g0::unlock_of(two) {
                lemma_write_image_behaves(three, image);
                lemma_behaves_on(accesses, three, stm32g0::write_image_of(three, image), image);
                if let Some((written, four)) = stm32g0::write_image_of(three, image) {
                    lemma_finish_behaves(four, image);
                    lemma_behaves_on(three, four, stm32g0::finish_of(four), image);
                    lemma_behaves_on(accesses, four, stm32g0::finish_of(four), image);
                    let (cleanup, rest) = stm32g0::finish_of(four)->Some_0;
                    if let Err(error) = written {
                        let at = choose|at: int|
                            0 <= at < accesses.len() - four.len() && #[trigger] owed_to(
                                accesses,
                                at,
                                image,
                                error,
                            );
                        assert(owed_to(accesses, at, image, error));
                    } else if cleanup is Ok {
                        let (erased, programmed) = choose|
                            erased: Seq<Access>,
                            programmed: Seq<Access>,
                        | #[trigger] written_in_order(three, erased, programmed, four, image);
                        assert(stm32g0::left_of(four, rest));
                        assert(begun_with(accesses, one, two, three, idcode));
                        assert(written_in_order(three, erased, programmed, four, image));
                    }
                }
            }
        }
    }
}

/// A word holds four bytes where its own bytes, least significant first, are
/// those four.
pub proof fn law_a_held_word_is_its_bytes(word: u32, image: Seq<u8>, at: int)
    requires
        holds(word, image, at),
    ensures
        bytes::le32(word) == seq![
            wanted(image, at),
            wanted(image, at + 1),
            wanted(image, at + 2),
            wanted(image, at + 3),
        ],
{
    assert(bytes::le32(word) =~= seq![
        wanted(image, at),
        wanted(image, at + 1),
        wanted(image, at + 2),
        wanted(image, at + 3),
    ]);
}

/// A core that is let run and reset: the debug halt is withdrawn, and then a
/// system reset is asked for.
pub proof fn law_a_reset_runs_and_resets(accesses: Seq<Access>)
    requires
        stm32g0::reset_of(accesses) matches Some((Ok(_), rest)),
    ensures
        accesses.len() >= 2,
        wrote(accesses[0], 0xe000_edf0, 0xa05f_0001),
        wrote(accesses[1], 0xe000_ed0c, 0x05fa_0004),
        stm32g0::reset_of(accesses)->Some_0.1 == accesses.skip(2),
{
    assert(accesses[1] == accesses.skip(1)[0]);
    assert(accesses.skip(1).skip(1) =~= accesses.skip(2));
}

/// Does an access show the flash idle and without an error?
pub open spec fn shows_ready(access: Access, ended: bool) -> bool {
    access matches Access::Read(address, Ok(status)) && address == 0x4002_2010 && status & 0x1_c3fa
        == 0 && (status & 1 != 0) == ended
}

/// Do the accesses before the one numbered `at` end with the flash seen idle,
/// and the end of an operation, where that is shown, acknowledged?
pub open spec fn found_ready(accesses: Seq<Access>, at: int) -> bool {
    ||| at >= 1 && shows_ready(accesses[at - 1], false)
    ||| at >= 2 && wrote(accesses[at - 1], 0x4002_2010, 1) && shows_ready(accesses[at - 2], true)
}

/// Does an access set the flash's control, with these of its lowest two bits?
pub open spec fn controls(access: Access, bits: u32) -> bool {
    access matches Access::Write(address, control, Ok(_)) && address == 0x4002_2014 && control & 3
        == bits
}

/// Is the flash made ready before the access numbered `at`: seen idle, its old
/// status cleared, and its control read?
pub open spec fn prepared(accesses: Seq<Access>, at: int) -> bool {
    &&& at >= 3
    &&& found_ready(accesses, at - 2)
    &&& wrote(accesses[at - 2], 0x4002_2010, 0xc3fb)
    &&& accesses[at - 1] matches Access::Read(address, Ok(_)) && address == 0x4002_2014
}

/// Do the `n` first accesses program words, in the access numbered `at`: with
/// the programming bit set before it, the flash waited for after it, and the
/// bit clear in the end?
pub open spec fn programs_and_waits(
    accesses: Seq<Access>,
    n: int,
    at: int,
    address: u32,
    words: Seq<u32>,
) -> bool {
    &&& 0 < at < n - 2
    &&& prepared(accesses, at - 1)
    &&& controls(accesses[at - 1], 1)
    &&& wrote_block(accesses[at], address, words)
    &&& found_ready(accesses.skip(at + 1), n - 2 - at)
    &&& controls(accesses[n - 1], 0)
}

/// Do the `n` first accesses erase a page, started in the access numbered `at`:
/// with the erasing bit set before it, the flash waited for after it, and the
/// bit clear in the end?
pub open spec fn erases_and_waits(accesses: Seq<Access>, n: int, at: int, page: int) -> bool {
    &&& 0 < at < n - 2
    &&& prepared(accesses, at - 1)
    &&& controls(accesses[at - 1], 2)
    &&& erases(accesses[at], page)
    &&& found_ready(accesses.skip(at + 1), n - 2 - at)
    &&& controls(accesses[n - 1], 0)
}

proof fn lemma_found_ready(accesses: Seq<Access>, left: nat)
    ensures
        stm32g0::ready_of(accesses, left) matches Some((Ok(_), rest)) ==> {
            &&& stm32g0::left_of(accesses, rest)
            &&& rest.len() < accesses.len()
            &&& found_ready(accesses, accesses.len() - rest.len())
        },
    decreases left,
{
    lemma_status_bits();
    if left > 0 {
        if let Some((Ok(status), rest)) = stm32g0::read_of(accesses, FLASH_SR) {
            assert(status & 0x1_c3fa == 0 <==> status & 0x1_0000 == 0 && status & 0xc3fa == 0)
                by (bit_vector);
            assert(accesses.skip(1) =~= rest);
            if status & 0x1_0000 != 0 {
                if let Some(more) = stm32g0::pause_of(rest) {
                    lemma_found_ready(more, (left - 1) as nat);
                    if let Some((Ok(_), end)) = stm32g0::ready_of(more, (left - 1) as nat) {
                        let n = more.len() - end.len();
                        assert(accesses.skip(2) =~= more);
                        assert(accesses[n + 1] == more[n - 1]);
                        if n >= 2 {
                            assert(accesses[n] == more[n - 2]);
                        }
                        assert(end =~= accesses.skip(accesses.len() - end.len()));
                    }
                }
            } else if status & 0xc3fa == 0 && status & 1 != 0 {
                if let Some((Ok(_), end)) = stm32g0::write_of(rest, FLASH_SR, SR_EOP) {
                    assert(accesses[1] == rest[0]);
                    assert(end =~= accesses.skip(2));
                }
            }
        }
    }
}

proof fn lemma_prepared(accesses: Seq<Access>)
    ensures
        stm32g0::prepare_of(accesses) matches Some((Ok(_), rest)) ==> {
            &&& stm32g0::left_of(accesses, rest)
            &&& prepared(accesses, accesses.len() - rest.len())
        },
{
    lemma_status_bits();
    lemma_found_ready(accesses, 2000);
    if let Some((Ok(_), one)) = stm32g0::ready_of(accesses, 2000) {
        if let Some((Ok(_), two)) = stm32g0::write_of(one, FLASH_SR, SR_EOP | SR_ERRORS) {
            if let Some((Ok(_), three)) = stm32g0::read_of(two, FLASH_CR) {
                let n = accesses.len() - one.len();
                assert(accesses[n] == one[0]);
                assert(accesses[n + 1] == one[1] && one[1] == two[0]);
                assert(three =~= accesses.skip(accesses.len() - three.len()));
            }
        }
    }
}

/// Words are programmed only into a flash that was seen idle and is set to
/// program, and it is waited for before anything else is asked of it.
pub proof fn law_programming_is_waited_for(accesses: Seq<Access>, address: u32, words: Seq<u32>)
    requires
        stm32g0::program_of(accesses, address, words) matches Some((Ok(_), rest)),
    ensures
        ({
            let rest = stm32g0::program_of(accesses, address, words)->Some_0.1;
            exists|at: int| #[trigger]
                programs_and_waits(accesses, accesses.len() - rest.len(), at, address, words)
        }),
{
    lemma_prepared(accesses);
    let (prepared, one) = stm32g0::prepare_of(accesses)->Some_0;
    let before = prepared->Ok_0;
    let control = stm32g0::program_control(before);
    let two = stm32g0::write_of(one, FLASH_CR, control)->Some_0.1;
    let three = stm32g0::block_of(two, address, words)->Some_0.1;
    lemma_found_ready(three, 2000);
    let four = stm32g0::ready_of(three, 2000)->Some_0.1;
    let rest = stm32g0::program_of(accesses, address, words)->Some_0.1;
    assert(control & 3 == 1 && control & !1u32 & 3 == 0) by (bit_vector)
        requires
            control == (before & !(2u32 | 1 | 0x1ff8)) | 1,
    ;
    let at = accesses.len() - two.len();
    let n = accesses.len() - rest.len();
    assert(accesses[at - 1] == one[0]);
    assert(accesses[at] == one[1] && one[1] == two[0]);
    assert(accesses.skip(at + 1) =~= three);
    assert(accesses[n - 1] == three[three.len() - four.len()] && three[three.len() - four.len()]
        == four[0]);
    assert(programs_and_waits(accesses, n, at, address, words));
}

/// A page is erased only in a flash that was seen idle and is set to erase that
/// page, and it is waited for before anything else is asked of it.
pub proof fn law_erasing_is_waited_for(accesses: Seq<Access>, page: u32)
    requires
        page < 1024,
        stm32g0::erase_of(accesses, page) matches Some((Ok(_), rest)),
    ensures
        ({
            let rest = stm32g0::erase_of(accesses, page)->Some_0.1;
            exists|at: int| #[trigger]
                erases_and_waits(accesses, accesses.len() - rest.len(), at, page as int)
        }),
{
    lemma_prepared(accesses);
    let (prepared, one) = stm32g0::prepare_of(accesses)->Some_0;
    let before = prepared->Ok_0;
    let control = stm32g0::erase_control(before, page);
    lemma_erase_control(before, page);
    let two = stm32g0::write_of(one, FLASH_CR, control)->Some_0.1;
    let three = stm32g0::write_of(two, FLASH_CR, control | CR_STRT)->Some_0.1;
    lemma_found_ready(three, 2000);
    let four = stm32g0::ready_of(three, 2000)->Some_0.1;
    let rest = stm32g0::erase_of(accesses, page)->Some_0.1;
    assert(control & 3 == 2 && control & !2u32 & 3 == 0) by (bit_vector)
        requires
            (control | 0x1_0000u32) & 0x1_0003 == 0x1_0002,
    ;
    let at = accesses.len() - two.len();
    let n = accesses.len() - rest.len();
    assert(accesses[at - 1] == one[0]);
    assert(accesses[at] == one[1] && one[1] == two[0]);
    assert(accesses.skip(at + 1) =~= three);
    assert(accesses[n - 1] == three[three.len() - four.len()] && three[three.len() - four.len()]
        == four[0]);
    assert(erases_and_waits(accesses, n, at, page as int));
}

/// Once an image has been written, or could not be, the flash is locked with
/// none of its operation bits set, unless the target does not let its control be
/// read or written any more.
pub proof fn law_a_flash_is_left_locked(accesses: Seq<Access>, image: Seq<u8>, idcode: u32)
    requires
        stm32g0::write_and_lock_of(accesses, image, idcode) is Some,
    ensures
        ({
            let rest = stm32g0::write_and_lock_of(accesses, image, idcode)->Some_0.1;
            let last = accesses[accesses.len() - rest.len() - 1];
            ||| last matches Access::Write(address, control, _) && address == 0x4002_2014 && control
                & 0x8001_1ffb == 0x8000_0000
            ||| last matches Access::Read(address, Err(_)) && address == 0x4002_2014
        }),
{
    stm32g0::law_an_unlocked_flash_is_locked_again(accesses, image, idcode);
    let rest = stm32g0::write_and_lock_of(accesses, image, idcode)->Some_0.1;
    let last = accesses[accesses.len() - rest.len() - 1];
    if let Access::Write(address, control, _) = last {
        assert(control & 0x8001_1ffb == 0x8000_0000) by (bit_vector)
            requires
                control & (CR_PG | CR_PER | CR_PNB_MASK | CR_STRT) == 0,
                control & CR_LOCK != 0,
        ;
    }
}

} // verus!
