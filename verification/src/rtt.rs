//! Streaming what the target writes to its RTT up channels.
//!
//! RTT is a ring buffer in the target's own RAM with a signature the host scans
//! for, so it needs no extra wires and no cooperation from the core beyond
//! firmware that uses it.

use crate::text;
use vstd::prelude::*;

verus! {

/// How long to pause after a round that brought nothing.
pub const IDLE_PAUSE_MS: u64 = 10;

/// Is a channel streamed? By default every one is.
pub open spec fn wanted(number: usize, channel: Option<usize>) -> bool {
    channel matches Some(only) ==> number == only
}

/// The channels that are streamed.
pub open spec fn streamed(numbers: Seq<usize>, channel: Option<usize>) -> Seq<usize>
    decreases numbers.len(),
{
    if numbers.len() == 0 {
        Seq::empty()
    } else if wanted(numbers.last(), channel) {
        streamed(numbers.drop_last(), channel).push(numbers.last())
    } else {
        streamed(numbers.drop_last(), channel)
    }
}

/// The channels that are streamed, of those that the control block declares.
pub fn choose_channels(numbers: &Vec<usize>, channel: Option<usize>) -> (chosen: Vec<usize>)
    ensures
        chosen@ == streamed(numbers@, channel),
{
    let mut chosen: Vec<usize> = Vec::new();
    let mut at: usize = 0;
    assert(numbers@.take(0) =~= Seq::empty());
    while at < numbers.len()
        invariant
            at <= numbers@.len(),
            chosen@ == streamed(numbers@.take(at as int), channel),
        decreases numbers@.len() - at,
    {
        assert(numbers@.take(at + 1).drop_last() =~= numbers@.take(at as int));
        let number: usize = numbers[at];
        let take: bool = match channel {
            Some(only) => number == only,
            None => true,
        };
        if take {
            chosen.push(number);
        }
        at += 1;
    }
    assert(numbers@.take(at as int) =~= numbers@);
    chosen
}

/// A channel in the list that a session starts with.
pub open spec fn channel_line(number: usize, name: Seq<char>, size: usize, skipped: bool) -> Seq<
    char,
> {
    "channel "@ + text::decimal(number as nat) + " "@ + name + " buffer="@ + text::decimal(
        size as nat,
    ) + " bytes"@ + (if skipped {
        " (skipped)"@
    } else {
        ""@
    })
}

/// A channel in the list that a session starts with, its name as it is to be
/// shown.
pub fn channel(number: usize, name: &str, size: usize, chosen: &Vec<usize>) -> (line: String)
    ensures
        line@ == channel_line(number, name@, size, !chosen@.contains(number)),
{
    let streamed: bool = is_chosen(chosen, number);
    let mut line: String = "channel ".to_owned();
    text::push_decimal(&mut line, number as u64);
    line.push_str(" ");
    line.push_str(name);
    line.push_str(" buffer=");
    text::push_decimal(&mut line, size as u64);
    line.push_str(" bytes");
    if streamed {
        line.push_str("");
    } else {
        line.push_str(" (skipped)");
    }
    assert(line@ =~= channel_line(number, name@, size, !chosen@.contains(number)));
    line
}

/// Is this one of the channels that are streamed?
pub fn is_chosen(chosen: &Vec<usize>, number: usize) -> (yes: bool)
    ensures
        yes == chosen@.contains(number),
{
    let mut at: usize = 0;
    while at < chosen.len()
        invariant
            at <= chosen@.len(),
            forall|i: int| 0 <= i < at ==> chosen@[i] != number,
        decreases chosen@.len() - at,
    {
        if chosen[at] == number {
            assert(chosen@[at as int] == number);
            return true;
        }
        at += 1;
    }
    false
}

/// What follows a round over every channel.
#[derive(Clone, Copy, Debug, Eq, PartialEq, Structural)]
pub enum AfterRound {
    /// Something came: the idle time starts over.
    Again,
    Pause,
    /// Nothing came for as long as the session waits.
    Stop,
}

/// What follows a round over every channel.
pub fn after_round(moved: bool, idle_ms: Option<u64>, elapsed_ms: u64) -> (after: AfterRound)
    ensures
        after == (if moved {
            AfterRound::Again
        } else if idle_ms matches Some(limit) && elapsed_ms >= limit {
            AfterRound::Stop
        } else {
            AfterRound::Pause
        }),
{
    if moved {
        AfterRound::Again
    } else {
        match idle_ms {
            Some(limit) if elapsed_ms >= limit => AfterRound::Stop,
            _ => AfterRound::Pause,
        }
    }
}

/// What a session that stops says.
pub fn idle_line(idle_ms: u64, total: u64) -> (line: String)
    ensures
        line@ == "\nidle for "@ + text::decimal(idle_ms as nat) + " ms; "@ + text::decimal(
            total as nat,
        ) + " bytes read"@,
{
    let mut line: String = "\nidle for ".to_owned();
    text::push_decimal(&mut line, idle_ms);
    line.push_str(" ms; ");
    text::push_decimal(&mut line, total);
    line.push_str(" bytes read");
    line
}

/// What is said where no control block was found: at the address that was
/// named, or in any of the memory regions.
pub fn no_control_block(address: Option<u64>, regions: usize) -> (told: String)
    ensures
        told@ == (match address {
            Some(address) => "no RTT control block at "@ + text::address(address as nat),
            None => "no RTT control block found in the "@ + text::decimal(regions as nat)
                + " RAM regions probe-rs knows for this target; pass --control-block if the firmware places it somewhere unusual"@,
        }),
{
    match address {
        Some(address) => {
            let mut told: String = "no RTT control block at ".to_owned();
            text::push_address(&mut told, address);
            told
        },
        None => {
            let mut told: String = "no RTT control block found in the ".to_owned();
            text::push_decimal(&mut told, regions as u64);
            told.push_str(
                " RAM regions probe-rs knows for this target; pass --control-block if the firmware places it somewhere unusual",
            );
            told
        },
    }
}

/// The channels that are streamed are exactly those that are wanted.
pub proof fn law_every_wanted_channel_is_streamed(
    numbers: Seq<usize>,
    channel: Option<usize>,
    number: usize,
)
    ensures
        streamed(numbers, channel).contains(number) <==> numbers.contains(number) && wanted(
            number,
            channel,
        ),
    decreases numbers.len(),
{
    if numbers.len() > 0 {
        let rest = numbers.drop_last();
        law_every_wanted_channel_is_streamed(rest, channel, number);
        let chosen = streamed(numbers, channel);
        assert(numbers.contains(number) <==> rest.contains(number) || numbers.last() == number) by {
            if rest.contains(number) {
                let i = choose|i: int| 0 <= i < rest.len() && rest[i] == number;
                assert(numbers[i] == number);
            }
            if numbers.last() == number {
                assert(numbers[numbers.len() - 1] == number);
            }
            if numbers.contains(number) && numbers.last() != number {
                let i = choose|i: int| 0 <= i < numbers.len() && numbers[i] == number;
                assert(rest[i] == number);
            }
        }
        if wanted(numbers.last(), channel) {
            let before = streamed(rest, channel);
            assert(chosen.contains(number) <==> before.contains(number) || numbers.last()
                == number) by {
                if before.contains(number) {
                    let i = choose|i: int| 0 <= i < before.len() && before[i] == number;
                    assert(chosen[i] == number);
                }
                if numbers.last() == number {
                    assert(chosen[chosen.len() - 1] == number);
                }
                if chosen.contains(number) && numbers.last() != number {
                    let i = choose|i: int| 0 <= i < chosen.len() && chosen[i] == number;
                    assert(before[i] == number);
                }
            }
        }
    }
}

/// Without a choice every channel is streamed, in the order they are declared;
/// with one, that channel and no other.
pub proof fn law_a_choice_is_of_one_channel(numbers: Seq<usize>, only: usize, i: int)
    ensures
        streamed(numbers, None) == numbers,
        streamed(numbers, Some(only)).len() > 0 <==> numbers.contains(only),
        0 <= i < streamed(numbers, Some(only)).len() ==> streamed(numbers, Some(only))[i] == only,
    decreases numbers.len(),
{
    if numbers.len() > 0 {
        let rest = numbers.drop_last();
        law_a_choice_is_of_one_channel(rest, only, i);
        assert(rest.push(numbers.last()) =~= numbers);
        if numbers.last() == only {
            assert(numbers[numbers.len() - 1] == only);
        } else if numbers.contains(only) {
            let at = choose|at: int| 0 <= at < numbers.len() && numbers[at] == only;
            assert(rest[at] == only);
        }
        if rest.contains(only) {
            let at = choose|at: int| 0 <= at < rest.len() && rest[at] == only;
            assert(numbers[at] == only);
        }
    }
}

} // verus!
