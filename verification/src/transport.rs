//! The host's end of the protocol: requests into bytes, bytes into replies.
//!
//! Writing and reading the link belongs to its owner; this frames what is to be
//! written and decides what the bytes that were read amount to.

use crate::frame::{self, Command, Status};
use crate::server::BUFFER_BYTES;
use crate::text;
use vstd::prelude::*;

verus! {

/// The port the firmware serves the bridge protocol on over the network.
pub const BRIDGE_TCP_PORT: u16 = 3333;

/// How long a reply is waited for.
pub const REPLY_DEADLINE_MS: u64 = 3_000;

/// A link emitting bytes with no delimiter in them is not going to start; past
/// this many, they are forgotten.
pub const MAX_PENDING: usize = 16552;

/// Why a command got no payload back.
#[derive(Debug)]
pub enum Failure {
    /// No frame holds the request.
    TooLarge,
    /// The link is at its end.
    Closed,
    /// No reply came in time.
    Timeout,
    /// The bridge answered with another status than success.
    Refused { status: Status, detail: Vec<u8> },
}

/// What reading the link brought.
pub enum Read {
    /// Zero bytes from a socket is the peer having closed it, which no amount
    /// of waiting undoes.
    Closed,
    /// Nothing yet: a lapsed read timeout, or an interrupted call.
    Quiet,
    Bytes(Vec<u8>),
}

/// What to do about a reply that is awaited.
pub enum Wait {
    /// Read the link.
    Read,
    Over(Result<Vec<u8>, Failure>),
}

/// The bytes that were read from the link but not yet consumed by a frame, and
/// the number of the last request.
///
/// The bytes have to outlive a single reply. With a request in flight ahead of
/// the reply being read, one read can carry the end of one reply and the
/// beginning of the next.
pub struct Transport {
    pub sequence: u16,
    pub pending: Vec<u8>,
}

/// Where the first delimiter stands.
pub open spec fn delimiter_at(pending: Seq<u8>) -> Option<int>
    decreases pending.len(),
{
    if pending.len() == 0 {
        None
    } else if pending[0] == 0 {
        Some(0)
    } else {
        match delimiter_at(pending.skip(1)) {
            Some(at) => Some(at + 1),
            None => None,
        }
    }
}

/// The first reply to a request among buffered bytes, and the bytes after it.
/// Frames that hold no reply, and replies to other requests, are passed over.
pub open spec fn reply_in(pending: Seq<u8>, sequence: u16) -> (
    Option<(Status, Seq<u8>)>,
    Seq<u8>,
)
    decreases pending.len(),
{
    match delimiter_at(pending) {
        None => (None, pending),
        Some(at) => if at < 0 || at >= pending.len() {
            (None, pending)
        } else {
            let rest = pending.skip(at + 1);
            match frame::response_in(pending.take(at)) {
                Some((number, status, payload)) if number == sequence && at > 0 => (
                    Some((status, payload)),
                    rest,
                ),
                _ => reply_in(rest, sequence),
            }
        },
    }
}

/// The bytes that are kept once more are read.
pub open spec fn absorbed(pending: Seq<u8>, bytes: Seq<u8>) -> Seq<u8> {
    if pending.len() + bytes.len() > MAX_PENDING {
        Seq::empty()
    } else {
        pending + bytes
    }
}

/// Is this what a reply amounts to?
pub open spec fn outcome_of(
    status: Status,
    payload: Seq<u8>,
    outcome: Result<Vec<u8>, Failure>,
) -> bool {
    if status == Status::Okay {
        outcome matches Ok(bytes) && bytes@ == payload
    } else {
        outcome matches Err(Failure::Refused { status: told, detail }) && told == status
            && detail@ == payload
    }
}

proof fn lemma_delimiter(pending: Seq<u8>)
    ensures
        match delimiter_at(pending) {
            Some(at) => 0 <= at < pending.len() && pending[at] == 0 && forall|i: int|
                0 <= i < at ==> pending[i] != 0,
            None => forall|i: int| 0 <= i < pending.len() ==> pending[i] != 0,
        },
    decreases pending.len(),
{
    if pending.len() > 0 && pending[0] != 0 {
        lemma_delimiter(pending.skip(1));
        assert forall|i: int| 1 <= i < pending.len() implies pending[i] == pending.skip(1)[i - 1] by {}
    }
}

/// The first delimiter is the only place where one stands and none before it.
proof fn lemma_delimiter_is(pending: Seq<u8>, at: int)
    requires
        0 <= at < pending.len(),
        pending[at] == 0,
        forall|i: int| 0 <= i < at ==> pending[i] != 0,
    ensures
        delimiter_at(pending) == Some(at),
{
    lemma_delimiter(pending);
}

impl Transport {
    pub fn new() -> (transport: Transport)
        ensures
            transport.sequence == 0,
            transport.pending@.len() == 0,
    {
        Transport { sequence: 0, pending: Vec::new() }
    }

    /// Frames a request: its number and what to write, which starts with a
    /// delimiter that ends whatever was on the link before. Several requests
    /// may be in flight at once.
    pub fn send(&mut self, command: Command, payload: &[u8]) -> (sent: Result<
        (u16, Vec<u8>),
        Failure,
    >)
        ensures
            final(self).sequence == (old(self).sequence + 1) % 0x1_0000,
            final(self).pending@ == old(self).pending@,
            if frame::frame_fits(payload@.len(), BUFFER_BYTES as nat) {
                sent matches Ok((sequence, bytes)) && sequence == final(self).sequence && bytes@
                    == seq![0u8] + frame::frame_of(
                    frame::REQUEST_MAGIC@,
                    sequence,
                    command.wire_code(),
                    payload@,
                )
            } else {
                sent matches Err(Failure::TooLarge)
            },
    {
        self.sequence = self.sequence.wrapping_add(1);
        let mut encoded: Vec<u8> = vec![0u8; BUFFER_BYTES];
        match frame::encode_request(self.sequence, command, payload, encoded.as_mut_slice()) {
            Ok(length) => {
                let mut framed: Vec<u8> = Vec::new();
                framed.push(0);
                encoded.truncate(length);
                framed.append(&mut encoded);
                assert(framed@ =~= seq![0u8] + frame::frame_of(
                    frame::REQUEST_MAGIC@,
                    self.sequence,
                    command.wire_code(),
                    payload@,
                ));
                Ok((self.sequence, framed))
            },
            Err(_) => Err(Failure::TooLarge),
        }
    }

    /// Takes the next whole frame off the buffered bytes, its delimiter off.
    fn next_frame(&mut self) -> (frame: Option<Vec<u8>>)
        ensures
            final(self).sequence == old(self).sequence,
            match delimiter_at(old(self).pending@) {
                None => frame is None && final(self).pending@ == old(self).pending@,
                Some(at) => {
                    &&& 0 <= at < old(self).pending@.len()
                    &&& frame matches Some(bytes) && bytes@ == old(self).pending@.take(at)
                    &&& final(self).pending@ == old(self).pending@.skip(at + 1)
                },
            },
    {
        let len: usize = self.pending.len();
        let mut at: usize = 0;
        while at < len && self.pending[at] != 0
            invariant
                at <= len,
                len == self.pending@.len(),
                self.pending@ == old(self).pending@,
                forall|i: int| 0 <= i < at ==> self.pending@[i] != 0,
            decreases len - at,
        {
            at += 1;
        }
        if at == len {
            proof {
                lemma_delimiter(self.pending@);
            }
            return None;
        }
        proof {
            lemma_delimiter_is(self.pending@, at as int);
        }
        let rest: Vec<u8> = self.pending.split_off(at + 1);
        self.pending.truncate(at);
        let mut frame: Vec<u8> = Vec::new();
        frame.append(&mut self.pending);
        self.pending = rest;
        assert(frame@ =~= old(self).pending@.take(at as int));
        assert(self.pending@ =~= old(self).pending@.skip(at + 1));
        Some(frame)
    }

    /// Looks for a reply among the bytes that are buffered.
    fn buffered_reply(&mut self, sequence: u16) -> (reply: Option<Result<Vec<u8>, Failure>>)
        ensures
            final(self).sequence == old(self).sequence,
            final(self).pending@ == reply_in(old(self).pending@, sequence).1,
            match reply_in(old(self).pending@, sequence).0 {
                None => reply is None,
                Some((status, payload)) => reply matches Some(outcome) && outcome_of(
                    status,
                    payload,
                    outcome,
                ),
            },
    {
        loop
            invariant
                self.sequence == old(self).sequence,
                reply_in(self.pending@, sequence) == reply_in(old(self).pending@, sequence),
            decreases self.pending@.len(),
        {
            let ghost before = self.pending@;
            match self.next_frame() {
                None => return None,
                Some(frame) => {
                    let mut frame: Vec<u8> = frame;
                    if frame.len() == 0 {
                        continue;
                    }
                    let ghost whole = frame@;
                    match frame::decode_response(frame.as_mut_slice()) {
                        Err(_) => continue,
                        Ok(response) => {
                            if response.sequence != sequence {
                                continue;
                            }
                            let payload: Vec<u8> = vstd::slice::slice_to_vec(response.payload);
                            assert(payload@ =~= response.payload@);
                            let outcome: Result<Vec<u8>, Failure> = match response.status {
                                Status::Okay => Ok(payload),
                                status => Err(Failure::Refused { status, detail: payload }),
                            };
                            return Some(outcome);
                        },
                    }
                },
            }
        }
    }

    /// Goes on waiting for a reply: whatever is already buffered comes before
    /// asking the link for more, and before giving up.
    pub fn receive(&mut self, sequence: u16, expired: bool) -> (wait: Wait)
        ensures
            final(self).sequence == old(self).sequence,
            final(self).pending@ == reply_in(old(self).pending@, sequence).1,
            match reply_in(old(self).pending@, sequence).0 {
                Some((status, payload)) => wait matches Wait::Over(outcome) && outcome_of(
                    status,
                    payload,
                    outcome,
                ),
                None => if expired {
                    wait matches Wait::Over(Err(Failure::Timeout))
                } else {
                    wait is Read
                },
            },
    {
        match self.buffered_reply(sequence) {
            Some(outcome) => Wait::Over(outcome),
            None => {
                if expired {
                    Wait::Over(Err(Failure::Timeout))
                } else {
                    Wait::Read
                }
            },
        }
    }

    /// Takes what reading the link brought. Only the link's end is a failure.
    pub fn absorb(&mut self, read: Read) -> (result: Result<(), Failure>)
        ensures
            final(self).sequence == old(self).sequence,
            match read {
                Read::Closed => (result matches Err(Failure::Closed)) && final(self).pending@
                    == old(self).pending@,
                Read::Quiet => result is Ok && final(self).pending@ == old(self).pending@,
                Read::Bytes(bytes) => result is Ok && final(self).pending@ == absorbed(
                    old(self).pending@,
                    bytes@,
                ),
            },
    {
        match read {
            Read::Closed => Err(Failure::Closed),
            Read::Quiet => Ok(()),
            Read::Bytes(bytes) => {
                let mut bytes: Vec<u8> = bytes;
                self.pending.append(&mut bytes);
                if self.pending.len() > MAX_PENDING {
                    self.pending.clear();
                    assert(self.pending@ =~= Seq::empty());
                }
                Ok(())
            },
        }
    }
}

/// What a refusal most likely means.
pub open spec fn cause_of(status: Status, detail: Seq<u8>) -> Option<Seq<char>> {
    let first = if detail.len() > 0 {
        Some(detail[0])
    } else {
        None
    };
    if status == Status::Transport && first == Some(1u8) {
        Some("the debug port returned an implausible IDCODE (all zeros or all ones)"@)
    } else if status == Status::Transport && first == Some(2u8) {
        Some("the debug port never reported powered-up"@)
    } else if status == Status::Transport && first == Some(3u8) {
        Some("a memory access was not word-aligned"@)
    } else if status == Status::Transport && first == Some(4u8) {
        Some("SWDIO reads low when released, so no powered target is presenting its pull-up. Check target power, ground, and the SWDIO wire"@)
    } else if status == Status::Transport && first == Some(7u8) {
        Some("no response on the wire: nothing acknowledged the request. Check that a target is connected and powered"@)
    } else if status == Status::NotAttached {
        Some("not attached; run a command that attaches first"@)
    } else if status == Status::TargetInReset {
        Some("the target is held in reset, so its bus would answer zeros"@)
    } else if status == Status::Unsupported {
        Some("this firmware does not implement that command"@)
    } else {
        None
    }
}

/// A status by name.
pub open spec fn status_name(status: Status) -> Seq<char> {
    match status {
        Status::Okay => "Ok"@,
        Status::BadFrame => "BadFrame"@,
        Status::Unsupported => "Unsupported"@,
        Status::NotAttached => "NotAttached"@,
        Status::Wait => "Wait"@,
        Status::Fault => "Fault"@,
        Status::Parity => "Parity"@,
        Status::Transport => "Transport"@,
        Status::TargetInReset => "TargetInReset"@,
    }
}

/// Bytes as a list of two-digit hexadecimal numbers.
pub open spec fn hex_list(bytes: Seq<u8>) -> Seq<char> {
    "["@ + hex_items(bytes) + "]"@
}

pub open spec fn hex_items(bytes: Seq<u8>) -> Seq<char>
    decreases bytes.len(),
{
    if bytes.len() == 0 {
        Seq::empty()
    } else if bytes.len() == 1 {
        text::hex(bytes[0] as nat, 2)
    } else {
        hex_items(bytes.drop_last()) + ", "@ + text::hex(bytes.last() as nat, 2)
    }
}

/// The exact status and detail of a refusal: what a bug report needs.
pub open spec fn refusal(status: Status, detail: Seq<u8>) -> Seq<char> {
    "bridge status "@ + status_name(status) + ", detail="@ + hex_list(detail)
}

/// What a refusal reads as.
pub open spec fn description(status: Status, detail: Seq<u8>) -> Seq<char> {
    match cause_of(status, detail) {
        Some(cause) => cause + " ("@ + refusal(status, detail) + ")"@,
        None => refusal(status, detail),
    }
}

fn cause(status: Status, detail: &[u8]) -> (cause: Option<&'static str>)
    ensures
        match cause {
            Some(text) => cause_of(status, detail@) == Some(text@),
            None => cause_of(status, detail@) is None,
        },
{
    let first: u8 = if detail.len() > 0 {
        detail[0]
    } else {
        0
    };
    match status {
        Status::Transport => match first {
            1 => Some("the debug port returned an implausible IDCODE (all zeros or all ones)"),
            2 => Some("the debug port never reported powered-up"),
            3 => Some("a memory access was not word-aligned"),
            4 => Some("SWDIO reads low when released, so no powered target is presenting its pull-up. Check target power, ground, and the SWDIO wire"),
            7 => Some("no response on the wire: nothing acknowledged the request. Check that a target is connected and powered"),
            _ => None,
        },
        Status::NotAttached => Some("not attached; run a command that attaches first"),
        Status::TargetInReset => Some("the target is held in reset, so its bus would answer zeros"),
        Status::Unsupported => Some("this firmware does not implement that command"),
        _ => None,
    }
}

fn name_of(status: Status) -> (name: &'static str)
    ensures
        name@ == status_name(status),
{
    match status {
        Status::Okay => "Ok",
        Status::BadFrame => "BadFrame",
        Status::Unsupported => "Unsupported",
        Status::NotAttached => "NotAttached",
        Status::Wait => "Wait",
        Status::Fault => "Fault",
        Status::Parity => "Parity",
        Status::Transport => "Transport",
        Status::TargetInReset => "TargetInReset",
    }
}

fn push_hex_list(out: &mut String, bytes: &[u8])
    ensures
        final(out)@ == old(out)@ + hex_list(bytes@),
{
    out.push_str("[");
    let ghost head = out@;
    let mut at: usize = 0;
    assert(bytes@.take(0) =~= Seq::empty());
    assert(out@ =~= head + hex_items(bytes@.take(0)));
    while at < bytes.len()
        invariant
            at <= bytes@.len(),
            out@ == head + hex_items(bytes@.take(at as int)),
        decreases bytes@.len() - at,
    {
        let ghost so_far = bytes@.take(at as int);
        let ghost more = bytes@.take(at + 1);
        if at > 0 {
            out.push_str(", ");
        }
        text::push_hex(out, bytes[at] as u64, 2);
        assert(more.drop_last() =~= so_far);
        assert(out@ =~= head + hex_items(more));
        at += 1;
    }
    assert(bytes@.take(at as int) =~= bytes@);
    out.push_str("]");
    assert(out@ =~= old(out)@ + hex_list(bytes@));
}

/// Turns a bridge refusal into something that names the likely cause.
///
/// The status and its detail byte are exact, but opaque without the firmware
/// beside them — a transport failure with detail 4 is the fail-closed power
/// check refusing to drive a pad, which is a wiring or power problem and reads
/// as an internal error. The raw values are kept on the end.
pub fn describe_failure(status: Status, detail: &[u8]) -> (told: String)
    ensures
        told@ == description(status, detail@),
{
    let likely: Option<&'static str> = cause(status, detail);
    let mut out: String = String::new();
    if let Some(text) = likely {
        out.push_str(text);
        out.push_str(" (");
    }
    let ghost head = out@;
    out.push_str("bridge status ");
    out.push_str(name_of(status));
    out.push_str(", detail=");
    push_hex_list(&mut out, detail);
    assert(out@ =~= head + refusal(status, detail@));
    if likely.is_some() {
        out.push_str(")");
    }
    assert(out@ =~= description(status, detail@));
    out
}

/// What a failure reads as.
pub open spec fn failure_text(failure: Failure) -> Seq<char> {
    match failure {
        Failure::TooLarge => "request is too large"@,
        Failure::Closed => "the bridge closed the connection"@,
        Failure::Timeout => "bridge response timeout"@,
        Failure::Refused { status, detail } => description(status, detail@),
    }
}

impl Failure {
    /// What the failure reads as.
    pub fn message(&self) -> (message: String)
        ensures
            message@ == failure_text(*self),
    {
        match self {
            Failure::TooLarge => "request is too large".to_owned(),
            Failure::Closed => "the bridge closed the connection".to_owned(),
            Failure::Timeout => "bridge response timeout".to_owned(),
            Failure::Refused { status, detail } => describe_failure(*status, detail.as_slice()),
        }
    }
}

/// A delimiter with nothing before it is passed over.
proof fn lemma_leading_delimiter(pending: Seq<u8>, sequence: u16)
    requires
        pending.len() > 0,
        pending[0] == 0,
    ensures
        reply_in(pending, sequence) == reply_in(pending.skip(1), sequence),
{
    lemma_delimiter_is(pending, 0);
}

/// A frame that stands first is either the reply or is passed over.
proof fn lemma_first_frame(frame: Seq<u8>, rest: Seq<u8>, sequence: u16)
    requires
        frame.len() > 0,
        forall|i: int| 0 <= i < frame.len() ==> frame[i] != 0,
    ensures
        reply_in(frame.push(0) + rest, sequence) == (match frame::response_in(frame) {
            Some((number, status, payload)) if number == sequence => (
                Some((status, payload)),
                rest,
            ),
            _ => reply_in(rest, sequence),
        }),
{
    let pending = frame.push(0) + rest;
    let at = frame.len() as int;
    assert forall|i: int| 0 <= i < at implies pending[i] != 0 by {
        assert(pending[i] == frame[i]);
    }
    lemma_delimiter_is(pending, at);
    assert(pending.take(at) =~= frame);
    assert(pending.skip(at + 1) =~= rest);
}

/// A framed reply reads back, and ends in its only delimiter.
proof fn lemma_framed_reply(sequence: u16, status: Status, payload: Seq<u8>) -> (frame: Seq<u8>)
    ensures
        frame::frame_of(frame::RESPONSE_MAGIC@, sequence, status.wire_code(), payload)
            == frame.push(0),
        frame.len() > 0,
        forall|i: int| 0 <= i < frame.len() ==> frame[i] != 0,
        frame::response_in(frame) == Some((sequence, status, payload)),
{
    let code = status.wire_code();
    let whole = frame::frame_of(frame::RESPONSE_MAGIC@, sequence, code, payload);
    frame::law_a_frame_holds_one_zero(frame::RESPONSE_MAGIC@, sequence, code, payload);
    frame::law_response_round_trip(sequence, status, payload);
    let packet = frame::packet(frame::RESPONSE_MAGIC@, sequence, code, payload);
    frame::lemma_stuffed_len(packet);
    let frame = whole.drop_last();
    assert(frame =~= frame::stuffed(packet));
    assert(whole =~= frame.push(0));
    frame
}

/// A reply that came whole, and stands first among the buffered bytes, is found;
/// what follows it is kept for the next request.
pub proof fn law_a_whole_reply_is_found(
    sequence: u16,
    status: Status,
    payload: Seq<u8>,
    rest: Seq<u8>,
)
    ensures
        ({
            let sent = seq![0u8] + frame::frame_of(
                frame::RESPONSE_MAGIC@,
                sequence,
                status.wire_code(),
                payload,
            );
            reply_in(sent + rest, sequence) == (Some((status, payload)), rest)
        }),
{
    let frame = lemma_framed_reply(sequence, status, payload);
    let pending = seq![0u8] + frame.push(0) + rest;
    lemma_leading_delimiter(pending, sequence);
    assert(pending.skip(1) =~= frame.push(0) + rest);
    lemma_first_frame(frame, rest, sequence);
}

/// A reply for an abandoned request is passed over, and the one that is waited
/// for is found behind it.
pub proof fn law_a_stale_reply_is_passed_over(
    stale: u16,
    stale_status: Status,
    stale_payload: Seq<u8>,
    sequence: u16,
    rest: Seq<u8>,
)
    requires
        stale != sequence,
    ensures
        ({
            let sent = seq![0u8] + frame::frame_of(
                frame::RESPONSE_MAGIC@,
                stale,
                stale_status.wire_code(),
                stale_payload,
            );
            reply_in(sent + rest, sequence) == reply_in(rest, sequence)
        }),
{
    let frame = lemma_framed_reply(stale, stale_status, stale_payload);
    let pending = seq![0u8] + frame.push(0) + rest;
    lemma_leading_delimiter(pending, sequence);
    assert(pending.skip(1) =~= frame.push(0) + rest);
    lemma_first_frame(frame, rest, sequence);
}

/// A reply may come in any pieces: what is kept of two reads is what would be
/// kept of one, up to 16552 bytes, past which all of it is forgotten.
pub proof fn law_a_reply_may_come_in_pieces(pending: Seq<u8>, first: Seq<u8>, second: Seq<u8>)
    ensures
        pending.len() + first.len() + second.len() <= 16552 ==> absorbed(
            absorbed(pending, first),
            second,
        ) == pending + first + second,
        pending.len() + first.len() > 16552 ==> absorbed(pending, first) == Seq::<u8>::empty(),
{
}

/// Only a reply whose status is success brings its payload; every other is a
/// refusal that tells the status and the payload as they came.
pub proof fn law_only_success_brings_a_payload(
    status: Status,
    payload: Seq<u8>,
    outcome: Result<Vec<u8>, Failure>,
)
    requires
        outcome_of(status, payload, outcome),
    ensures
        outcome is Ok <==> status is Okay,
        outcome matches Ok(bytes) ==> bytes@ == payload,
        outcome matches Err(failure) ==> (failure matches Failure::Refused { status: told, detail }
            && told == status && detail@ == payload),
{
}

} // verus!
