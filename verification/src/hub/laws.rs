//! What holds of every command, whatever the board reports.

use super::board;
use super::job::{self, Action, Event, HubState, Job, Serial, Then, Turn};
use super::radio::WifiControl;
use super::request::{self, Request, Target};
use super::resume;
use super::serial;
use super::wire;
use crate::bytes;
use crate::frame::Command;
use crate::swd;
use crate::swd::bring_up;
use crate::swd::io;
use crate::swd::link::{self, LinkView, Step};
use crate::swd::memory;
use crate::swd::port::Port;
use crate::swd::probe;
use crate::swd::registers;
use crate::swd::{Error, PadOp};
use vstd::arithmetic::power2::*;
use vstd::prelude::*;

verus! {

/// Does an operation drive SWDIO?
pub open spec fn drives_swdio(op: PadOp) -> bool {
    op is Output || op is Data
}

/// Moving the reset line touches neither the multiplexer nor the wire, so a
/// debug sequence that asserts reset after attaching keeps its link.
pub proof fn law_reset_leaves_the_link_alone(
    before: HubState,
    pins: [u8; 7],
    request: Request,
    control: WifiControl,
    after: HubState,
    turn: Turn,
    event: Event,
    later: HubState,
    control_later: WifiControl,
    next: Turn,
)
    requires
        request is ResetAssert || request is ResetRelease,
        super::started(before, pins, request, control, after, turn),
        turn is Ask,
        super::resumed(after, control, turn->Ask_1, event, later, control_later, next),
    ensures
        later.link == before.link,
        later.selected == before.selected,
        later.attached == before.attached,
        event is Done ==> later.reset_held == request is ResetAssert,
{
}

/// A recovery probe that has taken hold of reset never answers before it has
/// asked for reset to be let go of.
pub proof fn law_a_recovery_probe_lets_go_of_reset(
    before: HubState,
    job: Job,
    event: Event,
    after: HubState,
    turn: Turn,
)
    requires
        job is ProbeHeld || job is ProbeFreed || job is ProbeDelayed,
        resume::probe_resumed(before, job, event, after, turn),
    ensures
        turn matches Turn::Ask(action, next) && (next is ProbeFreed || next is ProbeDelayed
            || next is ProbeCleared) && (next is ProbeDelayed || action == (Action::Reset {
            held: false,
            settle_ms: 0,
        })),
{
}

/// A probe of another position never answers before the multiplexer was asked
/// back to its passive position.
pub proof fn law_a_mux_probe_goes_back(
    before: HubState,
    job: Job,
    event: Event,
    after: HubState,
    turn: Turn,
)
    requires
        job is MuxMoved || job is MuxRead,
        resume::probe_resumed(before, job, event, after, turn),
    ensures
        turn matches Turn::Ask(action, next) && (next is MuxRead || (next is MuxBack && action == (
        Action::Select { target: Target::Stm32, settle_ms: 0 }))),
{
}

/// Once the UART was switched to the ROM bootloader's parity, no answer is
/// given before it was asked back to the application's.
pub proof fn law_rom_boot_gives_the_uart_back(
    before: HubState,
    job: Job,
    event: Event,
    after: HubState,
    turn: Turn,
)
    requires
        (job matches Job::RomSync { stage, .. } && stage >= 2) || job is RomListen,
        serial::rom_resumed(before, job, event, after, turn),
    ensures
        turn matches Turn::Ask(action, next) && (next is RomSync || next is RomListen || (
        next is RomRestore && action == Action::Uart(Serial::Parity { even: false }))),
{
}

/// A capture that was routed elsewhere never answers before the UART was asked
/// back to its usual line.
pub proof fn law_a_capture_gives_the_uart_back(
    before: HubState,
    job: Job,
    event: Event,
    after: HubState,
    turn: Turn,
)
    requires
        job is Capturing,
        serial::capture_resumed(before, job, event, after, turn),
    ensures
        turn matches Turn::Ask(action, next) && (next is Capturing || (next is CaptureBack
            && action == Action::Uart(Serial::Receive { swapped: false }))),
{
}

/// Once the transmit line of the display was driven, no answer is given before
/// it was asked to be let go of, whatever came of the frame.
pub proof fn law_a_display_frame_lets_go_of_the_line(
    before: HubState,
    job: Job,
    event: Event,
    after: HubState,
    turn: Turn,
)
    requires
        job is DisplayWritten || job is DisplayDrained,
        resume::power_resumed(before, job, event, after, turn),
    ensures
        after == before,
        turn matches Turn::Ask(action, next) && (next is DisplayDrained || (next is DisplayBack
            && action == Action::Uart(Serial::Transmit { driven: false }))),
{
}

/// Once the transmit line of the target's UART was driven to send bytes, no
/// answer is given before it was asked to be let go of, whatever came of them.
pub proof fn law_sending_lets_go_of_the_line(job: Job, event: Event, turn: Turn)
    requires
        job is SendWritten || job is SendDrained,
        serial::send_resumed(job, event, turn),
    ensures
        turn matches Turn::Ask(action, next) && (next is SendDrained || (next is SendBack
            && action == Action::Uart(Serial::Transmit { driven: false }))),
{
}

/// Was SWDIO seen high by the last look at the lines?
pub open spec fn saw_power(before: HubState, after: HubState) -> bool {
    exists|swclk: bool| #[trigger]
        job::link_did(
            HubState { clock_high: swclk, ..before },
            after,
            bring_up::looked_at(true, swclk),
        )
}

/// A selector is driven high, and the display's transmit line is driven, only
/// right after the target's pull-up was seen on the released SWDIO: a level
/// driven into an unpowered board back-feeds its supply.
pub proof fn law_a_high_level_needs_proven_power(
    before: HubState,
    then: Then,
    job: Job,
    event: Event,
    after: HubState,
    turn: Turn,
)
    requires
        turn matches Turn::Ask(_, next) && (next is Moved || next is DisplayDriven),
    ensures
        resume::went_passive(before, then, after, turn) ==> saw_power(
            board::passive(before),
            after,
        ),
        resume::power_resumed(before, job, event, after, turn) ==> saw_power(
            board::with_reset(before, false),
            after,
        ),
{
    if resume::went_passive(before, then, after, turn) {
        let here = board::passive(before);
        assert(then is Power);
        let (swdio, swclk) = choose|swdio: bool, swclk: bool| #[trigger]
            resume::power_saw(here, after, turn, then->goal, false, swdio, swclk);
        assert(job::link_did(
            HubState { clock_high: swclk, ..here },
            after,
            bring_up::looked_at(true, swclk),
        ));
    }
    if resume::power_resumed(before, job, event, after, turn) {
        let here = board::with_reset(before, false);
        assert(job is PowerFreed);
        let (swdio, swclk) = choose|swdio: bool, swclk: bool| #[trigger]
            resume::power_saw(here, after, turn, job->PowerFreed_goal, true, swdio, swclk);
        assert(job::link_did(
            HubState { clock_high: swclk, ..here },
            after,
            bring_up::looked_at(true, swclk),
        ));
    }
}

/// A probe of a position whose released SWDIO is low, or that is no debug port,
/// does nothing but look at the lines.
pub proof fn law_a_low_position_is_only_looked_at(
    before: LinkView,
    after: LinkView,
    target: Target,
    swdio: bool,
    swclk: bool,
    status: u8,
    dp_id: u32,
    looked: LinkView,
)
    requires
        target == Target::Gps || !swdio,
        wire::position_probed(before, after, target, swdio, swclk, status, dp_id, looked),
    ensures
        job::did_afresh(before, after, bring_up::looked_at(swdio, swclk)),
        dp_id == 0,
        status == 9 || status == 2,
{
}

proof fn lemma_ops_of_two(a: Step, b: Step)
    ensures
        link::steps_ops(seq![a, b]) == a.ops() + b.ops(),
{
    assert(seq![a, b].drop_last() =~= seq![a]);
    assert(seq![a].drop_last() =~= Seq::empty());
    assert(link::steps_ops(Seq::empty()) =~= Seq::<PadOp>::empty());
    assert(link::steps_ops(seq![a]) =~= a.ops());
}

proof fn lemma_sampling_drives_nothing(bits: Seq<bool>)
    ensures
        forall|i: int|
            0 <= i < io::sample_bits(bits).len() ==> !drives_swdio(
                #[trigger] io::sample_bits(bits)[i],
            ),
    decreases bits.len(),
{
    if bits.len() > 0 {
        let head = io::sample_bits(bits.drop_last());
        let all = io::sample_bits(bits);
        lemma_sampling_drives_nothing(bits.drop_last());
        assert(all == head + io::sample_bit(bits.last()));
        assert forall|i: int| 0 <= i < all.len() implies !drives_swdio(#[trigger] all[i]) by {
            if i < head.len() {
                assert(all[i] == head[i]);
            } else {
                assert(all[i] == io::sample_bit(bits.last())[i - head.len()]);
            }
        }
    }
}

/// Nothing that an attach does before it has seen SWDIO high drives SWDIO: a
/// line that reads low is looked at, and SWCLK is clocked, but the line is left
/// alone.
pub proof fn law_a_low_line_is_never_driven(seen: Seq<bool>, swdio: bool, swclk: bool, i: int)
    ensures
        ({
            let ops = link::steps_ops(bring_up::looked_at(swdio, swclk));
            0 <= i < ops.len() ==> !drives_swdio(ops[i])
        }),
        ({
            let ops = link::steps_ops(job::recovering(seen, swdio, swclk));
            0 <= i < ops.len() ==> !drives_swdio(ops[i])
        }),
{
    let release = Step::Pads(seq![PadOp::Release]);
    let lines = Step::Pads(seq![PadOp::Lines(swdio, swclk)]);
    lemma_ops_of_two(release, lines);
    lemma_ops_of_two(release, probe::recovery_clocks(seen));
    lemma_sampling_drives_nothing(seen);
    assert(bring_up::looked_at(swdio, swclk) =~= seq![release, lines]);
    link::lemma_steps_concat(
        seq![release, probe::recovery_clocks(seen)],
        bring_up::looked_at(swdio, swclk),
    );
}

/// An attach that finds SWDIO low to the end is refused, and stays detached.
pub proof fn law_a_held_line_refuses_the_attach(
    before: HubState,
    after: HubState,
    turn: Turn,
    seen: Seq<bool>,
    swclk: bool,
)
    requires
        board::recovered_after(before, after, turn, Seq::empty(), seen, false, swclk),
    ensures
        job::refused(turn, Error::LineHeldLow),
        after.attached == before.attached,
{
}

/// Does a message hold a 32-bit number at an offset, its least significant byte
/// first?
pub open spec fn number_at(message: Seq<u8>, at: int, number: u32) -> bool {
    &&& 0 <= at && at + 4 <= message.len()
    &&& message[at] == number % 256
    &&& message[at + 1] == number / 256 % 256
    &&& message[at + 2] == number / 65536 % 256
    &&& message[at + 3] == number / 16777216
}

pub(crate) proof fn lemma_number_at(message: Seq<u8>, at: int)
    requires
        0 <= at && at + 4 <= message.len(),
    ensures
        number_at(message, at, bytes::read32(message.skip(at))),
{
    let four = message.skip(at).take(4);
    bytes::law_le32_undoes_read32(four);
    assert(bytes::read32(four) == bytes::read32(message.skip(at)));
    let value = bytes::read32(four);
    assert(bytes::le32(value)[0] == four[0] && bytes::le32(value)[1] == four[1]);
    assert(bytes::le32(value)[2] == four[2] && bytes::le32(value)[3] == four[3]);
}

/// Words written out stand one after another.
proof fn lemma_words_stand(words: Seq<u32>, i: int)
    requires
        0 <= i < words.len(),
    ensures
        number_at(bytes::words_le(words), 4 * i, words[i]),
    decreases words.len(),
{
    bytes::lemma_words_le_len(words);
    let head = words.drop_last();
    bytes::lemma_words_le_len(head);
    if i < head.len() {
        lemma_words_stand(head, i);
        assert(head[i] == words[i]);
    }
}

/// Does a command, with its payload, do this on a bridge that has a wire and
/// does not turn it away?
pub open spec fn does(
    before: HubState,
    pins: [u8; 7],
    command: Command,
    payload: Seq<u8>,
    control: WifiControl,
    after: HubState,
    turn: Turn,
    parsed: Result<Request, Error>,
) -> bool {
    &&& before.link is Some
    &&& super::turned_away(before, command) is None
    &&& request::requested(command, payload, parsed)
    &&& match parsed {
        Err(error) => after == before && job::refused(turn, error),
        Ok(request) => super::started(before, pins, request, control, after, turn),
    }
}

/// Is `address` one of the four registers of a port?
pub open spec fn names_register(address: u8) -> bool {
    address == 0 || address == 4 || address == 8 || address == 12
}

/// A register that the host asks for is read off that port, at that address,
/// and its word is the reply. The payload's first byte chooses the port, zero
/// the debug port and anything else the access port, and its second is the
/// address. What an access port posted comes with a read of the debug port's
/// register 12. A failed transfer is what is reported.
#[verifier::spinoff_prover]
#[verifier::rlimit(50)]
pub proof fn law_a_register_read_reaches_the_register(
    before: HubState,
    pins: [u8; 7],
    payload: Seq<u8>,
    control: WifiControl,
    after: HubState,
    turn: Turn,
    parsed: Result<Request, Error>,
)
    requires
        does(before, pins, Command::ReadRegister, payload, control, after, turn, parsed),
    ensures
        payload.len() != 2 ==> after == before && job::refused(turn, Error::Protocol(0)),
        payload.len() == 2 ==> ({
            let steps = after.link->0.since(before.link->0);
            let (access_port, address) = (payload[0] != 0, payload[1]);
            let last = steps[steps.len() - 1];
            &&& after.link is Some && after.link->0.went_on(before.link->0)
            &&& !names_register(address) ==> steps.len() == 0 && job::refused(
                turn,
                Error::Protocol(address),
            )
            &&& names_register(address) ==> {
                &&& 1 <= steps.len() <= 2
                &&& swd::laws::on_register(steps[0], access_port, true, address as int, 0)
                &&& steps.len() == 2 ==> access_port && steps[0].outcome() is Ok
                    && swd::laws::on_register(steps[1], false, true, 12, 0)
                &&& match last.outcome() {
                    Ok(word) => {
                        &&& access_port ==> steps.len() == 2
                        &&& turn matches Turn::Answer(Ok(reply)) && reply@.len() == 4 && number_at(
                            reply@,
                            0,
                            word,
                        )
                    },
                    Err(error) => job::refused(turn, error),
                }
            }
        }),
{
    if payload.len() == 2 {
        let steps = after.link->0.since(before.link->0);
        let (access_port, address) = (payload[0] != 0, payload[1]);
        if names_register(address) {
            swd::laws::law_a_register_read_asks_for_that_register(steps, access_port, address, 1);
        }
    }
}

/// A block of register reads asks for the same register as often as the host
/// says, and replies with the words in order. The count is the payload's third
/// and fourth byte, at most 1024 and not zero.
#[verifier::spinoff_prover]
#[verifier::rlimit(50)]
pub proof fn law_a_register_block_read_reaches_the_register(
    before: HubState,
    pins: [u8; 7],
    payload: Seq<u8>,
    control: WifiControl,
    after: HubState,
    turn: Turn,
    parsed: Result<Request, Error>,
    at: int,
    word: u32,
)
    requires
        does(before, pins, Command::ReadRegisterBlock, payload, control, after, turn, parsed),
    ensures
        ({
            let count = payload[2] + 256 * payload[3];
            let steps = after.link->0.since(before.link->0);
            let (access_port, address) = (payload[0] != 0, payload[1]);
            let last = steps[steps.len() - 1];
            if payload.len() != 4 || count == 0 || count > 1024 {
                after == before && job::refused(turn, Error::Protocol(0))
            } else if !names_register(address) {
                steps.len() == 0 && job::refused(turn, Error::Protocol(address))
            } else {
                &&& 1 <= steps.len() <= count + 1
                &&& forall|i: int|
                    0 <= i < steps.len() && i < count ==> swd::laws::on_register(
                        #[trigger] steps[i],
                        access_port,
                        true,
                        address as int,
                        0,
                    )
                &&& steps.len() == count + 1 ==> access_port && swd::laws::on_register(
                    steps[count],
                    false,
                    true,
                    12,
                    0,
                )
                &&& match last.outcome() {
                    Ok(_) => {
                        &&& turn matches Turn::Answer(Ok(reply)) && reply@.len() == 4 * count && (
                        0 <= at < count && steps[if access_port {
                            at + 1
                        } else {
                            at
                        }].outcome() == Ok::<u32, Error>(word) ==> number_at(reply@, 4 * at, word))
                        &&& steps.len() == (if access_port {
                            count + 1
                        } else {
                            count
                        })
                    },
                    Err(error) => job::refused(turn, error),
                }
            }
        }),
{
    let count = payload[2] + 256 * payload[3];
    let steps = after.link->0.since(before.link->0);
    let (access_port, address) = (payload[0] != 0, payload[1]);
    assert(payload.len() == 4 ==> bytes::read16(payload.skip(2)) == count);
    if payload.len() == 4 && 0 < count <= 1024 && names_register(address) {
        let words = choose|words: Seq<u32>| #[trigger]
            wire::register_block_read(
                before,
                after,
                turn,
                access_port,
                address,
                count as nat,
                words,
            );
        swd::laws::law_a_register_read_asks_for_that_register(
            steps,
            access_port,
            address,
            count as nat,
        );
        bytes::lemma_words_le_len(words);
        if steps[steps.len() - 1].outcome() is Ok {
            if 0 <= at < count {
                lemma_words_stand(words, at);
            }
        }
    }
}

/// A word that the host sends is written to that port, at that address, and to
/// nothing else. The word is the payload's last four bytes.
#[verifier::spinoff_prover]
#[verifier::rlimit(50)]
pub proof fn law_a_register_write_reaches_the_register(
    before: HubState,
    pins: [u8; 7],
    payload: Seq<u8>,
    control: WifiControl,
    after: HubState,
    turn: Turn,
    parsed: Result<Request, Error>,
    value: u32,
)
    requires
        does(before, pins, Command::WriteRegister, payload, control, after, turn, parsed),
        payload.len() == 6 ==> number_at(payload, 2, value),
    ensures
        payload.len() != 6 ==> after == before && job::refused(turn, Error::Protocol(0)),
        payload.len() == 6 ==> ({
            let steps = after.link->0.since(before.link->0);
            let (access_port, address) = (payload[0] != 0, payload[1]);
            &&& !names_register(address) ==> steps.len() == 0 && job::refused(
                turn,
                Error::Protocol(address),
            )
            &&& names_register(address) ==> {
                &&& steps.len() == 1
                &&& swd::laws::on_register(steps[0], access_port, false, address as int, value)
                &&& match steps[0].outcome() {
                    Ok(_) => turn matches Turn::Answer(Ok(reply)) && reply@.len() == 0,
                    Err(error) => job::refused(turn, error),
                }
            }
        }),
{
    if payload.len() == 6 {
        let steps = after.link->0.since(before.link->0);
        let (access_port, address) = (payload[0] != 0, payload[1]);
        lemma_number_at(payload, 2);
        assert(bytes::read32(payload.skip(2)) == value);
        if names_register(address) {
            swd::laws::law_a_register_write_asks_for_that_register(
                steps,
                access_port,
                address,
                seq![value],
            );
        }
    }
}

/// A block of words that the host sends is written to that register, each word
/// once and in order.
#[verifier::spinoff_prover]
#[verifier::rlimit(50)]
pub proof fn law_a_register_block_write_reaches_the_register(
    before: HubState,
    pins: [u8; 7],
    payload: Seq<u8>,
    control: WifiControl,
    after: HubState,
    turn: Turn,
    parsed: Result<Request, Error>,
    at: int,
    value: u32,
)
    requires
        does(before, pins, Command::WriteRegisterBlock, payload, control, after, turn, parsed),
    ensures
        ({
            let count = payload[2] + 256 * payload[3];
            let steps = after.link->0.since(before.link->0);
            let (access_port, address) = (payload[0] != 0, payload[1]);
            let last = steps[steps.len() - 1];
            if payload.len() < 4 || count == 0 || count > 1024 || payload.len() != 4 + 4 * count {
                after == before && job::refused(turn, Error::Protocol(0))
            } else if !names_register(address) {
                steps.len() == 0 && job::refused(turn, Error::Protocol(address))
            } else {
                &&& 1 <= steps.len() <= count
                &&& 0 <= at < steps.len() && number_at(payload, 4 + 4 * at, value)
                    ==> swd::laws::on_register(
                    steps[at],
                    access_port,
                    false,
                    address as int,
                    value,
                )
                &&& match last.outcome() {
                    Ok(_) => steps.len() == count && (turn matches Turn::Answer(Ok(reply))
                        && reply@.len() == 0),
                    Err(error) => job::refused(turn, error),
                }
            }
        }),
{
    let count = payload[2] + 256 * payload[3];
    let steps = after.link->0.since(before.link->0);
    let (access_port, address) = (payload[0] != 0, payload[1]);
    assert(payload.len() >= 4 ==> bytes::read16(payload.skip(2)) == count);
    if payload.len() >= 4 && 0 < count <= 1024 && payload.len() == 4 + 4 * count {
        let words = bytes::read_words(payload.skip(4));
        assert(words.len() == count);
        lemma_block_write_started(
            before,
            pins,
            payload,
            control,
            after,
            turn,
            parsed,
            access_port,
            address,
            words,
        );
        if names_register(address) {
            swd::laws::law_a_register_write_asks_for_that_register(
                steps,
                access_port,
                address,
                words,
            );
            if 0 <= at < steps.len() && number_at(payload, 4 + 4 * at, value) {
                lemma_number_at(payload, 4 + 4 * at);
                assert(payload.skip(4).skip(4 * at) =~= payload.skip(4 + 4 * at));
                assert(words[at] == value);
            }
        }
    }
}

#[verifier::spinoff_prover]
#[verifier::rlimit(50)]
proof fn lemma_block_write_started(
    before: HubState,
    pins: [u8; 7],
    payload: Seq<u8>,
    control: WifiControl,
    after: HubState,
    turn: Turn,
    parsed: Result<Request, Error>,
    access_port: bool,
    address: u8,
    words: Seq<u32>,
)
    requires
        does(before, pins, Command::WriteRegisterBlock, payload, control, after, turn, parsed),
        payload.len() >= 4,
        0 < bytes::read16(payload.skip(2)) <= 1024,
        payload.len() == 4 + 4 * bytes::read16(payload.skip(2)),
        access_port == (payload[0] != 0),
        address == payload[1],
        words == bytes::read_words(payload.skip(4)),
    ensures
        wire::register_block_written(before, after, turn, access_port, address, words),
{
}

/// A sequence that the host asks for is clocked out as it came: the target
/// hears as many bits as the first byte says, those of the eight bytes after it
/// in order, each byte's least significant first, and nothing else.
#[verifier::spinoff_prover]
#[verifier::rlimit(50)]
pub proof fn law_a_sequence_is_clocked_out_as_it_came(
    before: HubState,
    pins: [u8; 7],
    payload: Seq<u8>,
    control: WifiControl,
    after: HubState,
    turn: Turn,
    parsed: Result<Request, Error>,
    k: nat,
)
    requires
        does(before, pins, Command::SwjSequence, payload, control, after, turn, parsed),
    ensures
        ({
            let heard = swd::laws::bits_heard(
                after.link->0.pads.skip(before.link->0.pads.len() as int),
            );
            if payload.len() != 9 {
                after == before && job::refused(turn, Error::Protocol(0))
            } else if payload[0] == 0 || payload[0] > 64 {
                heard.len() == 0 && job::refused(turn, Error::Protocol(0))
            } else {
                &&& turn matches Turn::Answer(Ok(reply)) && reply@.len() == 0
                &&& heard.len() == payload[0]
                &&& k < payload[0] ==> heard[k as int] == (bytes::read64(payload.skip(1)) as nat
                    / pow2(k) % 2 == 1)
            }
        }),
{
    if payload.len() == 9 {
        let steps = after.link->0.since(before.link->0);
        let pads = after.link->0.pads.skip(before.link->0.pads.len() as int);
        assert(pads =~= link::steps_ops(steps));
        if 1 <= payload[0] <= 64 {
            let number = bytes::read64(payload.skip(1)) as nat;
            let bits = crate::bits::bits_of(number, payload[0] as nat);
            assert(steps =~= seq![link::clocked_out(bits)]);
            swd::laws::law_clocked_out_bits_are_heard(bits);
            crate::bits::lemma_bits_len(number, payload[0] as nat);
            if k < payload[0] {
                crate::bits::law_bits_stand_by_their_weight(number, payload[0] as nat, k);
            }
        } else {
            assert(steps =~= Seq::empty());
            assert(pads =~= Seq::empty());
        }
    }
}

/// A block of memory that the host asks for is the memory behind the target's
/// access port, at the address that the payload's first four bytes name and in
/// the words that its last two count, each word's least significant byte first.
/// An address that is no word's is refused without a transfer, and a read that
/// fails reports what the last transfer came to.
#[verifier::spinoff_prover]
#[verifier::rlimit(50)]
pub proof fn law_a_memory_read_replies_with_the_memory(
    before: HubState,
    pins: [u8; 7],
    payload: Seq<u8>,
    control: WifiControl,
    after: HubState,
    turn: Turn,
    parsed: Result<Request, Error>,
    address: u32,
    count: nat,
    port: Port,
    at: int,
)
    requires
        does(before, pins, Command::MemoryRead, payload, control, after, turn, parsed),
        payload.len() == 6 ==> number_at(payload, 0, address) && count == payload[4] + 256
            * payload[5],
        memory::addressable(address, count),
        swd::port::believed(before.link->0, port),
        swd::port::answered(
            after.link->0.asked(before.link->0).since(before.link->0),
            memory::read_words_program(before.link->0, address, count),
            port,
        ),
    ensures
        if payload.len() != 6 || count == 0 || count > 1024 {
            after == before && job::refused(turn, Error::Protocol(0))
        } else {
            let steps = after.link->0.since(before.link->0);
            &&& after.selected == before.selected && after.attached == before.attached
            &&& address % 4 != 0 ==> steps.len() == 0 && job::refused(turn, Error::Unaligned)
            &&& match turn {
                Turn::Answer(Ok(reply)) => {
                    &&& address % 4 == 0
                    &&& reply@.len() == 4 * count
                    &&& 0 <= at < count ==> number_at(
                        reply@,
                        4 * at,
                        port.memory[address + 4 * at],
                    )
                },
                Turn::Answer(Err(error)) => address % 4 == 0 ==> steps.len() > 0
                    && steps.last().outcome() == Err::<u32, Error>(error),
                Turn::Ask(_, _) => false,
            }
        },
{
    if payload.len() == 6 {
        lemma_number_at(payload, 0);
        assert(payload.skip(0) =~= payload);
        assert(bytes::read32(payload) == address);
        assert(bytes::read16(payload.skip(4)) == count);
        if 0 < count <= 1024 {
            lemma_memory_request(payload, address, count, parsed);
            lemma_memory_started(before, pins, address, count, control, after, turn);
            let (words, result) = choose|words: Seq<u32>, result: Result<(), Error>| #[trigger]
                super::memory_replied(before, after, turn, address, count, words, result);
            lemma_memory_replied(before, after, turn, address, count, words, result, port, at);
        }
    }
}

#[verifier::spinoff_prover]
#[verifier::rlimit(50)]
proof fn lemma_memory_started(
    before: HubState,
    pins: [u8; 7],
    address: u32,
    count: nat,
    control: WifiControl,
    after: HubState,
    turn: Turn,
)
    requires
        before.link is Some,
        count <= 1024,
        super::started(
            before,
            pins,
            (Request::MemoryRead { address, count: count as usize }),
            control,
            after,
            turn,
        ),
    ensures
        exists|words: Seq<u32>, result: Result<(), Error>| #[trigger]
            super::memory_replied(before, after, turn, address, count, words, result),
{
}

/// What a memory read is taken apart into.
#[verifier::spinoff_prover]
#[verifier::rlimit(50)]
proof fn lemma_memory_request(
    payload: Seq<u8>,
    address: u32,
    count: nat,
    parsed: Result<Request, Error>,
)
    requires
        payload.len() == 6,
        bytes::read32(payload) == address,
        bytes::read16(payload.skip(4)) == count,
        0 < count <= 1024,
        request::requested(Command::MemoryRead, payload, parsed),
    ensures
        parsed == Ok::<Request, Error>(Request::MemoryRead { address, count: count as usize }),
{
}

#[verifier::spinoff_prover]
proof fn lemma_memory_replied(
    before: HubState,
    after: HubState,
    turn: Turn,
    address: u32,
    count: nat,
    words: Seq<u32>,
    result: Result<(), Error>,
    port: Port,
    at: int,
)
    requires
        super::memory_replied(before, after, turn, address, count, words, result),
        0 < count,
        memory::addressable(address, count),
        swd::port::believed(before.link->0, port),
        swd::port::answered(
            after.link->0.asked(before.link->0).since(before.link->0),
            memory::read_words_program(before.link->0, address, count),
            port,
        ),
    ensures
        ({
            let steps = after.link->0.since(before.link->0);
            &&& after.selected == before.selected && after.attached == before.attached
            &&& address % 4 != 0 ==> steps.len() == 0 && job::refused(turn, Error::Unaligned)
            &&& match turn {
                Turn::Answer(Ok(reply)) => {
                    &&& address % 4 == 0
                    &&& reply@.len() == 4 * count
                    &&& 0 <= at < count ==> number_at(
                        reply@,
                        4 * at,
                        port.memory[address + 4 * at],
                    )
                },
                Turn::Answer(Err(error)) => address % 4 == 0 ==> steps.len() > 0
                    && steps.last().outcome() == Err::<u32, Error>(error),
                Turn::Ask(_, _) => false,
            }
        }),
{
    let (x, y) = (before.link->0, after.link->0);
    let blank = Seq::new(count, |i: int| 0u32);
    let steps = y.since(x);
    assert(y.asked(x).since(x) =~= steps);
    bytes::lemma_words_le_len(words);
    if let Ok(unit) = result {
        assert(result == Ok::<(), Error>(())) by {
            assert(unit == ());
        }
        assert(memory::block_read(x, y, address, blank, words, Ok(())));
        swd::port::law_a_block_read_brings_the_words(x, y, address, blank, words, port);
        if 0 <= at < count {
            lemma_words_stand(words, at);
        }
    }
}

/// Does a request work on an attached target's bus?
pub open spec fn uses_bus(request: Request) -> bool {
    request is ReadRegister || request is ReadRegisterBlock || request is WriteRegister || request
        is WriteRegisterBlock || request is SwjSequence || request is MemoryRead || request
        is Profile
}

#[verifier::spinoff_prover]
#[verifier::rlimit(60)]
proof fn lemma_bus_is_gated(
    before: HubState,
    command: Command,
    payload: Seq<u8>,
    request: Request,
)
    requires
        super::turned_away(before, command) is None,
        request::requested(command, payload, Ok(request)),
    ensures
        uses_bus(request) ==> before.attached,
        request is MemoryRead || request is Profile ==> !before.reset_held,
{
}

#[verifier::spinoff_prover]
#[verifier::rlimit(60)]
proof fn lemma_other_requests_leave_the_target(
    before: HubState,
    pins: [u8; 7],
    request: Request,
    control: WifiControl,
    after: HubState,
    turn: Turn,
)
    requires
        before.link is Some,
        !uses_bus(request),
        super::started(before, pins, request, control, after, turn),
    ensures
        after.link is Some,
        ({
            let steps = after.link->0.since(before.link->0);
            &&& steps.len() <= 1
            &&& steps.len() == 1 ==> steps[0] == Step::Pads(seq![PadOp::Release])
            &&& after.link->0.accesses == before.link->0.accesses
        }),
        !(turn matches Turn::Ask(Action::StartProfile, _)),
{
    let (x, y) = (before.link->0, after.link->0);
    assert(x.since(x) =~= Seq::<Step>::empty());
    if y.did(x, job::letting_go()) {
        assert(y.since(x) =~= job::letting_go());
    }
}

#[verifier::spinoff_prover]
#[verifier::rlimit(60)]
proof fn lemma_registers_are_no_memory(
    before: HubState,
    pins: [u8; 7],
    request: Request,
    control: WifiControl,
    after: HubState,
    turn: Turn,
)
    requires
        before.link is Some,
        uses_bus(request),
        !(request is MemoryRead || request is Profile),
        super::started(before, pins, request, control, after, turn),
    ensures
        after.link is Some,
        after.link->0.accesses == before.link->0.accesses,
        turn is Answer,
{
}

/// Nothing is asked of a target that is not attached: a command that is not
/// turned away there lets go of the lines at most, whatever its payload. Of an
/// attached one, no memory is read while reset is held.
pub proof fn law_a_target_is_only_asked_while_attached(
    before: HubState,
    pins: [u8; 7],
    command: Command,
    payload: Seq<u8>,
    control: WifiControl,
    after: HubState,
    turn: Turn,
    request: Request,
)
    requires
        does(before, pins, command, payload, control, after, turn, Ok(request)),
    ensures
        !before.attached ==> ({
            let steps = after.link->0.since(before.link->0);
            &&& after.link is Some
            &&& steps.len() <= 1
            &&& steps.len() == 1 ==> steps[0] == Step::Pads(seq![PadOp::Release])
            &&& after.link->0.accesses == before.link->0.accesses
        }),
        before.reset_held ==> after.link->0.accesses == before.link->0.accesses && !(
        turn matches Turn::Ask(Action::StartProfile, _)),
{
    lemma_bus_is_gated(before, command, payload, request);
    if !uses_bus(request) {
        lemma_other_requests_leave_the_target(before, pins, request, control, after, turn);
    } else if before.reset_held {
        lemma_registers_are_no_memory(before, pins, request, control, after, turn);
    }
}

/// A command is turned away only for these two reasons: it needs an attached
/// target and there is none, or it reads the target's memory while reset is
/// held. The raw commands work in reset, which connecting under reset is built
/// on.
pub proof fn law_a_command_is_turned_away_for_a_reason(state: HubState, command: Command)
    ensures
        state.attached && !state.reset_held ==> super::turned_away(state, command) is None,
        state.attached && state.reset_held ==> (super::turned_away(state, command) is Some <==> (
        command == Command::MemoryRead || command == Command::Profile)),
        !state.attached ==> (super::turned_away(state, command) is Some <==> (command
            == Command::ReadRegister || command == Command::WriteRegister || command
            == Command::ReadRegisterBlock || command == Command::WriteRegisterBlock || command
            == Command::MemoryRead || command == Command::Profile || command
            == Command::SwjSequence)),
        super::turned_away(state, command) matches Some(status) ==> status.wire_code() == (
        if state.attached {
            8u8
        } else {
            3u8
        }),
{
}

} // verus!
