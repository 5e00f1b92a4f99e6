//! The bridge's end of the protocol: bytes into requests, replies into bytes.
//!
//! The framing and the response path are identical whichever link carries
//! them, so USB and the network share this rather than growing two copies that
//! drift apart.

use crate::frame::{self, Command, Status};
use vstd::prelude::*;

verus! {

/// The most bytes of a frame that are kept.
pub const BUFFER_BYTES: usize = 4138;

/// What one byte does to the bytes of a frame so far, and the frame it ends.
///
/// A zero ends a frame; a frame longer than any that can be sent is dropped.
pub open spec fn fed(buffer: Seq<u8>, byte: u8) -> (Seq<u8>, Option<Seq<u8>>) {
    if byte != 0 {
        if buffer.len() < BUFFER_BYTES {
            (buffer.push(byte), None)
        } else {
            (Seq::empty(), None)
        }
    } else if buffer.len() == 0 {
        (buffer, None)
    } else {
        (Seq::empty(), Some(buffer))
    }
}

/// What a run of bytes does to the bytes of a frame so far, and the frames it
/// ends.
pub open spec fn fed_all(buffer: Seq<u8>, bytes: Seq<u8>) -> (Seq<u8>, Seq<Seq<u8>>)
    decreases bytes.len(),
{
    if bytes.len() == 0 {
        (buffer, Seq::empty())
    } else {
        let (before, frames) = fed_all(buffer, bytes.drop_last());
        let (after, frame) = fed(before, bytes.last());
        (
            after,
            match frame {
                Some(frame) => frames.push(frame),
                None => frames,
            },
        )
    }
}

/// The frame that is being received.
pub struct Assembler {
    pub buffer: Vec<u8>,
}

/// A request that a frame carried.
pub struct Received {
    pub sequence: u16,
    pub command: Command,
    pub payload: Vec<u8>,
}

impl Assembler {
    pub fn new() -> (assembler: Assembler)
        ensures
            assembler.buffer@.len() == 0,
    {
        Assembler { buffer: Vec::new() }
    }

    /// Takes one byte: the request that it completes, if any. A frame that
    /// holds no request is dropped.
    pub fn feed(&mut self, byte: u8) -> (request: Option<Received>)
        ensures
            final(self).buffer@ == fed(old(self).buffer@, byte).0,
            match fed(old(self).buffer@, byte).1 {
                None => request is None,
                Some(frame) => match frame::request_in(frame) {
                    None => request is None,
                    Some((sequence, command, payload)) => request matches Some(got)
                        && got.sequence == sequence && got.command == command && got.payload@
                        == payload,
                },
            },
    {
        if byte != 0 {
            if self.buffer.len() < BUFFER_BYTES {
                self.buffer.push(byte);
            } else {
                self.buffer.clear();
                assert(self.buffer@ =~= Seq::empty());
            }
            return None;
        }
        if self.buffer.len() == 0 {
            return None;
        }
        let mut frame: Vec<u8> = Vec::new();
        frame.append(&mut self.buffer);
        assert(frame@ =~= old(self).buffer@);
        assert(self.buffer@ =~= Seq::empty());
        match frame::decode_request(frame.as_mut_slice()) {
            Ok(request) => {
                let payload: Vec<u8> = vstd::slice::slice_to_vec(request.payload);
                assert(payload@ =~= request.payload@);
                Some(Received { sequence: request.sequence, command: request.command, payload })
            },
            Err(_) => None,
        }
    }
}

/// A reply, framed for the link: one write, delimiters included, so that a
/// network client does not see a frame boundary as two packets. `None` for a
/// payload that no frame holds.
pub fn framed_reply(sequence: u16, status: Status, payload: &[u8]) -> (framed: Option<Vec<u8>>)
    ensures
        if frame::frame_fits(payload@.len(), BUFFER_BYTES as nat) {
            framed matches Some(bytes) && bytes@ == seq![0u8] + frame::frame_of(
                frame::RESPONSE_MAGIC@,
                sequence,
                status.wire_code(),
                payload@,
            )
        } else {
            framed is None
        },
{
    let mut encoded: Vec<u8> = vec![0u8; BUFFER_BYTES];
    match frame::encode_response(sequence, status, payload, encoded.as_mut_slice()) {
        Ok(length) => {
            let mut framed: Vec<u8> = Vec::new();
            framed.push(0);
            encoded.truncate(length);
            framed.append(&mut encoded);
            assert(framed@ =~= seq![0u8] + frame::frame_of(
                frame::RESPONSE_MAGIC@,
                sequence,
                status.wire_code(),
                payload@,
            ));
            Some(framed)
        },
        Err(_) => None,
    }
}

proof fn lemma_fed_plain(buffer: Seq<u8>, bytes: Seq<u8>)
    requires
        forall|i: int| 0 <= i < bytes.len() ==> bytes[i] != 0,
        buffer.len() + bytes.len() <= BUFFER_BYTES,
    ensures
        fed_all(buffer, bytes) == (buffer + bytes, Seq::<Seq<u8>>::empty()),
    decreases bytes.len(),
{
    if bytes.len() == 0 {
        assert(buffer + bytes =~= buffer);
    } else {
        lemma_fed_plain(buffer, bytes.drop_last());
        assert(buffer + bytes =~= (buffer + bytes.drop_last()).push(bytes.last()));
    }
}

proof fn lemma_fed_both(buffer: Seq<u8>, first: Seq<u8>, second: Seq<u8>)
    ensures
        ({
            let (middle, one) = fed_all(buffer, first);
            let (after, two) = fed_all(middle, second);
            fed_all(buffer, first + second) == (after, one + two)
        }),
    decreases second.len(),
{
    let (middle, one) = fed_all(buffer, first);
    if second.len() == 0 {
        assert(first + second =~= first);
        assert(one + Seq::empty() =~= one);
    } else {
        lemma_fed_both(buffer, first, second.drop_last());
        assert((first + second).drop_last() =~= first + second.drop_last());
        let (before, frames) = fed_all(middle, second.drop_last());
        let (after, frame) = fed(before, second.last());
        if let Some(frame) = frame {
            assert(one + frames.push(frame) =~= (one + frames).push(frame));
        }
    }
}

/// Whatever was received before it, a frame that starts after a delimiter and
/// is no longer than the buffer arrives whole: the zero before it ends what was
/// there, and the zero after it ends the frame.
pub proof fn law_a_delimited_frame_arrives(buffer: Seq<u8>, frame: Seq<u8>)
    requires
        0 < frame.len() <= BUFFER_BYTES,
        forall|i: int| 0 <= i < frame.len() ==> frame[i] != 0,
    ensures
        ({
            let (after, frames) = fed_all(buffer, seq![0u8] + (frame + seq![0u8]));
            &&& after.len() == 0
            &&& frames.len() > 0
            &&& frames.last() == frame
        }),
{
    let zero = seq![0u8];
    assert(zero.drop_last() =~= Seq::empty());
    let (cleared, earlier) = fed_all(buffer, zero);
    assert(fed_all(buffer, Seq::empty()) == (buffer, Seq::<Seq<u8>>::empty()));
    assert(cleared =~= Seq::empty());
    lemma_fed_plain(cleared, frame);
    assert(cleared + frame =~= frame);
    assert(fed_all(frame, Seq::empty()) == (frame, Seq::<Seq<u8>>::empty()));
    let (ended, last) = fed_all(frame, zero);
    assert(last =~= seq![frame]);
    lemma_fed_both(cleared, frame, zero);
    lemma_fed_both(buffer, zero, frame + zero);
    assert(Seq::<Seq<u8>>::empty() + last =~= last);
}

/// A request that a host framed is the request that the bridge takes, whatever
/// was received before it.
pub proof fn law_a_sent_request_is_received(
    buffer: Seq<u8>,
    sequence: u16,
    command: Command,
    payload: Seq<u8>,
)
    requires
        frame::frame_fits(payload.len(), BUFFER_BYTES as nat),
    ensures
        ({
            let sent = seq![0u8] + frame::frame_of(
                frame::REQUEST_MAGIC@,
                sequence,
                command.wire_code(),
                payload,
            );
            let (after, frames) = fed_all(buffer, sent);
            &&& frames.len() > 0
            &&& frame::request_in(frames.last()) == Some((sequence, command, payload))
        }),
{
    let whole = frame::frame_of(frame::REQUEST_MAGIC@, sequence, command.wire_code(), payload);
    let frame = whole.drop_last();
    frame::law_request_round_trip(sequence, command, payload);
    assert(frame::request_in(frame) == Some((sequence, command, payload)));
    assert(fed_all(buffer, seq![0u8] + whole).1.last() == frame && fed_all(
        buffer,
        seq![0u8] + whole,
    ).1.len() > 0) by {
        lemma_frame_arrives(buffer, sequence, command.wire_code(), payload);
    }
}

proof fn lemma_frame_arrives(buffer: Seq<u8>, sequence: u16, kind: u8, payload: Seq<u8>)
    requires
        frame::frame_fits(payload.len(), BUFFER_BYTES as nat),
    ensures
        ({
            let whole = frame::frame_of(frame::REQUEST_MAGIC@, sequence, kind, payload);
            let (after, frames) = fed_all(buffer, seq![0u8] + whole);
            frames.len() > 0 && frames.last() == whole.drop_last()
        }),
{
    let whole = frame::frame_of(frame::REQUEST_MAGIC@, sequence, kind, payload);
    let frame = whole.drop_last();
    let packet = frame::packet(frame::REQUEST_MAGIC@, sequence, kind, payload);
    assert(packet.len() == payload.len() + frame::ENVELOPE);
    frame::lemma_stuffed_len(packet);
    frame::law_a_frame_holds_one_zero(frame::REQUEST_MAGIC@, sequence, kind, payload);
    assert(whole =~= frame + seq![0u8]);
    law_a_delimited_frame_arrives(buffer, frame);
}

} // verus!
