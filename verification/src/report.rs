//! What the host tool tells a person of the bridge's replies.

use crate::bits;
use crate::bytes;
use crate::text;
use crate::wifi;
use vstd::arithmetic::power2::*;
use vstd::prelude::*;
use vstd::slice::*;
use vstd::string::*;
use vstd::utf8::*;

verus! {

/// Each label with the number behind it, for the first `count` of both.
pub open spec fn labelled(labels: Seq<&str>, values: Seq<u8>, count: nat) -> Seq<char>
    decreases count,
{
    if count == 0 {
        Seq::empty()
    } else {
        labelled(labels, values, (count - 1) as nat) + labels[count - 1]@ + text::decimal(
            values[count - 1] as nat,
        )
    }
}

/// Is a reply told as its numbers behind these labels, exactly when it has as
/// many numbers, and refused in these words otherwise?
pub open spec fn told_by(
    reply: Seq<u8>,
    labels: Seq<&str>,
    refusal: Seq<char>,
    told: Result<String, &'static str>,
) -> bool {
    match told {
        Ok(line) => reply.len() == labels.len() && line@ == labelled(labels, reply, labels.len()),
        Err(words) => reply.len() != labels.len() && words@ == refusal,
    }
}

fn tell(reply: &[u8], labels: &[&'static str], refusal: &'static str) -> (told: Result<
    String,
    &'static str,
>)
    ensures
        told_by(reply@, labels@, refusal@, told),
{
    let count: usize = labels.len();
    if reply.len() != count {
        return Err(refusal);
    }
    let mut line: String = String::new();
    let mut at: usize = 0;
    while at < count
        invariant
            at <= count,
            count == labels@.len(),
            count == reply@.len(),
            line@ == labelled(labels@, reply@, at as nat),
        decreases count - at,
    {
        let ghost before = line@;
        line.push_str(labels[at]);
        text::push_decimal(&mut line, reply[at] as u64);
        assert(line@ =~= before + labels@[at as int]@ + text::decimal(reply@[at as int] as nat));
        at += 1;
    }
    Ok(line)
}

/// The levels of the lines.
pub fn lines(reply: &[u8]) -> (told: Result<String, &'static str>)
    ensures
        told_by(
            reply@,
            seq!["released swdio=", " swclk=", " reset_all="],
            "invalid line-state response"@,
            told,
        ),
{
    let labels: [&'static str; 3] = ["released swdio=", " swclk=", " reset_all="];
    assert(labels@ =~= seq!["released swdio=", " swclk=", " reset_all="]);
    tell(reply, &labels, "invalid line-state response")
}

/// The levels of the lines with reset held, and let go of.
pub fn reset_lines(reply: &[u8]) -> (told: Result<String, &'static str>)
    ensures
        told_by(
            reply@,
            seq![
                "asserted swdio=",
                " swclk=",
                " reset_all=",
                "; released swdio=",
                " swclk=",
                " reset_all=",
            ],
            "invalid reset-line-state response"@,
            told,
        ),
{
    let labels: [&'static str; 6] = [
        "asserted swdio=",
        " swclk=",
        " reset_all=",
        "; released swdio=",
        " swclk=",
        " reset_all=",
    ];
    assert(labels@ =~= seq![
        "asserted swdio=",
        " swclk=",
        " reset_all=",
        "; released swdio=",
        " swclk=",
        " reset_all=",
    ]);
    tell(reply, &labels, "invalid reset-line-state response")
}

/// What the pads read back.
pub fn pads(reply: &[u8]) -> (told: Result<String, &'static str>)
    ensures
        told_by(
            reply@,
            seq!["swdio_low=", " swdio_high=", " swclk_low=", " swclk_high="],
            "invalid pad-self-test response"@,
            told,
        ),
{
    let labels: [&'static str; 4] = ["swdio_low=", " swdio_high=", " swclk_low=", " swclk_high="];
    assert(labels@ =~= seq!["swdio_low=", " swdio_high=", " swclk_low=", " swclk_high="]);
    tell(reply, &labels, "invalid pad-self-test response")
}

/// The pins that the running firmware was built for.
pub fn pin_map(reply: &[u8]) -> (told: Result<String, &'static str>)
    ensures
        told_by(
            reply@,
            seq![
                "SWDIO=GPIO",
                " SWCLK=GPIO",
                " RESET_ALL=GPIO",
                " ASW_S0=GPIO",
                " ASW_S1=GPIO",
                " DISP_TX=GPIO",
                " DISP_RX=GPIO",
            ],
            "invalid pin-map response"@,
            told,
        ),
{
    let labels: [&'static str; 7] = [
        "SWDIO=GPIO",
        " SWCLK=GPIO",
        " RESET_ALL=GPIO",
        " ASW_S0=GPIO",
        " ASW_S1=GPIO",
        " DISP_TX=GPIO",
        " DISP_RX=GPIO",
    ];
    assert(labels@ =~= seq![
        "SWDIO=GPIO",
        " SWCLK=GPIO",
        " RESET_ALL=GPIO",
        " ASW_S0=GPIO",
        " ASW_S1=GPIO",
        " DISP_TX=GPIO",
        " DISP_RX=GPIO",
    ]);
    tell(reply, &labels, "invalid pin-map response")
}

/// The lines after a parked target was clocked free.
pub fn recovered(reply: &[u8], cycles: u16) -> (told: Result<String, &'static str>)
    ensures
        match told {
            Ok(line) => reply@.len() == 2 && line@ == labelled(
                seq!["released swdio=", " swclk="],
                reply@,
                2,
            ) + " cycles="@ + text::decimal(cycles as nat),
            Err(words) => reply@.len() != 2 && words@ == "invalid recover response"@,
        },
{
    let labels: [&'static str; 2] = ["released swdio=", " swclk="];
    assert(labels@ =~= seq!["released swdio=", " swclk="]);
    match tell(reply, &labels, "invalid recover response") {
        Ok(mut line) => {
            line.push_str(" cycles=");
            text::push_decimal(&mut line, cycles as u64);
            Ok(line)
        },
        Err(words) => Err(words),
    }
}

/// Which of the commands that move the reset line a reply is from.
#[derive(Clone, Copy, Debug, Eq, PartialEq, Structural)]
pub enum ResetStep {
    Assert,
    Release,
    /// The release that ends a cycle.
    Last,
}

/// What is said of the reset line behind its level.
pub open spec fn reset_words(step: ResetStep) -> Seq<char> {
    match step {
        ResetStep::Assert => " held=true"@,
        ResetStep::Release => " held=false"@,
        ResetStep::Last => " held=false stopped=true"@,
    }
}

/// What is said of a reply that is none.
pub open spec fn reset_refusal(step: ResetStep) -> Seq<char> {
    match step {
        ResetStep::Assert => "invalid reset-assert response"@,
        ResetStep::Release => "invalid reset-release response"@,
        ResetStep::Last => "invalid final reset-release response"@,
    }
}

fn reset_line(level: u8, step: ResetStep) -> (line: String)
    ensures
        line@ == "reset_all="@ + text::decimal(level as nat) + reset_words(step),
{
    let mut line: String = "reset_all=".to_owned();
    text::push_decimal(&mut line, level as u64);
    match step {
        ResetStep::Assert => line.push_str(" held=true"),
        ResetStep::Release => line.push_str(" held=false"),
        ResetStep::Last => line.push_str(" held=false stopped=true"),
    }
    line
}

/// The level of the reset line after it was moved.
pub fn reset(reply: &[u8], step: ResetStep) -> (told: Result<String, &'static str>)
    ensures
        match told {
            Ok(line) => reply@.len() == 1 && line@ == "reset_all="@ + text::decimal(
                reply@[0] as nat,
            ) + reset_words(step),
            Err(words) => reply@.len() != 1 && words@ == reset_refusal(step),
        },
{
    if reply.len() == 1 {
        Ok(reset_line(reply[0], step))
    } else {
        match step {
            ResetStep::Assert => Err("invalid reset-assert response"),
            ResetStep::Release => Err("invalid reset-release response"),
            ResetStep::Last => Err("invalid final reset-release response"),
        }
    }
}

/// The level of the reset line on the way round a cycle. A bridge that says
/// nothing is taken to have failed to move it.
pub fn reset_cycled(reply: &[u8], held: bool) -> (line: String)
    ensures
        ({
            let level = if reply@.len() > 0 {
                reply@[0]
            } else if held {
                1
            } else {
                0
            };
            line@ == "reset_all="@ + text::decimal(level as nat) + reset_words(
                if held {
                    ResetStep::Assert
                } else {
                    ResetStep::Release
                },
            )
        }),
{
    let level: u8 = if reply.len() > 0 {
        reply[0]
    } else if held {
        1
    } else {
        0
    };
    if held {
        reset_line(level, ResetStep::Assert)
    } else {
        reset_line(level, ResetStep::Release)
    }
}

/// The level that SWDIO was driven to, and the one that was seen.
pub fn swdio_driven(level: u8, reply: &[u8]) -> (line: String)
    ensures
        line@ == "driven_swdio="@ + text::decimal(level as nat) + " observed_swdio="@
            + text::decimal(
            if reply@.len() > 0 {
                reply@[0] as nat
            } else {
                0xff
            },
        ),
{
    let seen: u8 = if reply.len() > 0 {
        reply[0]
    } else {
        0xff
    };
    let mut line: String = "driven_swdio=".to_owned();
    text::push_decimal(&mut line, level as u64);
    line.push_str(" observed_swdio=");
    text::push_decimal(&mut line, seen as u64);
    line
}

/// Bytes behind a label.
pub fn bytes_line(label: &str, reply: &[u8]) -> (line: String)
    ensures
        line@ == label@ + text::hex_bytes(reply@),
{
    let mut line: String = label.to_owned();
    text::push_hex_bytes(&mut line, reply);
    line
}

/// Both identities of a target.
pub fn identity(reply: &[u8]) -> (told: Result<String, &'static str>)
    ensures
        match told {
            Ok(line) => reply@.len() == 8 && line@ == "dp_id=0x"@ + text::hex(
                bytes::read32(reply@) as nat,
                8,
            ) + " device_id=0x"@ + text::hex(bytes::read32(reply@.skip(4)) as nat, 8),
            Err(words) => reply@.len() != 8 && words@ == "invalid recovery-probe response"@,
        },
{
    if reply.len() != 8 {
        return Err("invalid recovery-probe response");
    }
    assert(reply@.skip(0) =~= reply@);
    let mut line: String = "dp_id=0x".to_owned();
    text::push_hex(&mut line, bytes::get_le32(reply, 0) as u64, 8);
    line.push_str(" device_id=0x");
    text::push_hex(&mut line, bytes::get_le32(reply, 4) as u64, 8);
    Ok(line)
}

/// One position of the multiplexer, its two selector levels and its target.
pub open spec fn position_line(name: Seq<char>, reply: Seq<u8>) -> Seq<char> {
    "target="@ + name + " s0="@ + text::decimal(reply[7] as nat) + " s1="@ + text::decimal(
        reply[8] as nat,
    ) + " swdio="@ + text::decimal(reply[0] as nat) + " swclk="@ + text::decimal(reply[1] as nat)
        + " status=0x"@ + text::hex(reply[2] as nat, 2) + " dp_id=0x"@ + text::hex(
        bytes::read32(reply.skip(3)) as nat,
        8,
    )
}

/// One position of the multiplexer.
pub fn position(name: &str, reply: &[u8]) -> (told: Result<String, String>)
    ensures
        match told {
            Ok(line) => reply@.len() == 9 && line@ == position_line(name@, reply@),
            Err(words) => reply@.len() != 9 && words@ == "invalid mux-probe response for "@ + name@,
        },
{
    if reply.len() != 9 {
        let mut words: String = "invalid mux-probe response for ".to_owned();
        words.push_str(name);
        return Err(words);
    }
    let mut line: String = "target=".to_owned();
    line.push_str(name);
    line.push_str(" s0=");
    text::push_decimal(&mut line, reply[7] as u64);
    line.push_str(" s1=");
    text::push_decimal(&mut line, reply[8] as u64);
    line.push_str(" swdio=");
    text::push_decimal(&mut line, reply[0] as u64);
    line.push_str(" swclk=");
    text::push_decimal(&mut line, reply[1] as u64);
    line.push_str(" status=0x");
    text::push_hex(&mut line, reply[2] as u64, 2);
    line.push_str(" dp_id=0x");
    text::push_hex(&mut line, bytes::get_le32(reply, 3) as u64, 8);
    assert(line@ =~= position_line(name@, reply@));
    Ok(line)
}

/// The radio as the bridge reports it.
pub open spec fn network_line(reply: Seq<u8>) -> Seq<char> {
    let room = reply.len() - 6;
    let name = reply.subrange(
        6,
        6 + if reply[5] < room {
            reply[5] as int
        } else {
            room
        },
    );
    let ssid = if valid_utf8(name) {
        decode_utf8(name)
    } else {
        "<invalid utf-8>"@
    };
    if reply[0] != 0 {
        "connected ssid="@ + ssid + " ip="@ + text::decimal(reply[1] as nat) + "."@ + text::decimal(
            reply[2] as nat,
        ) + "."@ + text::decimal(reply[3] as nat) + "."@ + text::decimal(reply[4] as nat)
    } else if ssid.len() == 0 {
        "no network configured"@
    } else {
        "configured ssid="@ + ssid + " but not connected"@
    }
}

/// The radio as the bridge reports it.
pub fn network(reply: &[u8]) -> (told: Result<String, &'static str>)
    ensures
        match told {
            Ok(line) => reply@.len() >= 6 && line@ == network_line(reply@),
            Err(words) => reply@.len() < 6 && words@ == "invalid wifi-status response"@,
        },
{
    let len: usize = reply.len();
    if len < 6 {
        return Err("invalid wifi-status response");
    }
    let named: usize = reply[5] as usize;
    let take: usize = if named < len - 6 {
        named
    } else {
        len - 6
    };
    let name: &[u8] = slice_subrange(reply, 6, 6 + take);
    let ssid: &str = match core::str::from_utf8(name) {
        Ok(ssid) => {
            proof {
                encode_utf8_decode_utf8(ssid@);
            }
            ssid
        },
        Err(_) => "<invalid utf-8>",
    };
    let mut line: String = String::new();
    if reply[0] != 0 {
        line.push_str("connected ssid=");
        line.push_str(ssid);
        line.push_str(" ip=");
        text::push_decimal(&mut line, reply[1] as u64);
        line.push_str(".");
        text::push_decimal(&mut line, reply[2] as u64);
        line.push_str(".");
        text::push_decimal(&mut line, reply[3] as u64);
        line.push_str(".");
        text::push_decimal(&mut line, reply[4] as u64);
    } else if text::chars_of(ssid).len() == 0 {
        line.push_str("no network configured");
    } else {
        line.push_str("configured ssid=");
        line.push_str(ssid);
        line.push_str(" but not connected");
    }
    assert(line@ =~= network_line(reply@));
    Ok(line)
}

/// The payload that gives the bridge a network, `None` where the name or the
/// passphrase is longer than one can be.
pub fn network_request(ssid: &str, password: &str) -> (payload: Option<Vec<u8>>)
    requires
        ssid.spec_bytes().len() + password.spec_bytes().len() + 2 <= usize::MAX,
    ensures
        ({
            let (name, passphrase) = (ssid.spec_bytes(), password.spec_bytes());
            match payload {
                Some(payload) => wifi::within_limits(name, passphrase) && payload@ == wifi::packed(
                    name,
                    passphrase,
                ),
                None => !wifi::within_limits(name, passphrase),
            }
        }),
{
    let length: usize = 2 + ssid.as_bytes().len() + password.as_bytes().len();
    let mut payload: Vec<u8> = vec![0u8; length];
    match wifi::encode(ssid, password, payload.as_mut_slice()) {
        Some(length) => {
            payload.truncate(length);
            assert(payload@ =~= wifi::packed(ssid.spec_bytes(), password.spec_bytes()));
            Some(payload)
        },
        None => None,
    }
}

/// Sampled bits in the order they were sampled, as digits.
pub open spec fn bit_text(sampled: Seq<bool>) -> Seq<char> {
    Seq::new(
        sampled.len(),
        |i: int|
            if sampled[i] {
                '1'
            } else {
                '0'
            },
    )
}

/// Appends the lowest bits of a field, first sampled first.
fn push_bits(out: &mut String, value: u64, width: u8)
    ensures
        final(out)@ == old(out)@ + bit_text(bits::bits_of(value as nat, width as nat)),
    decreases width,
{
    proof {
        bits::lemma_bits_len(value as nat, width as nat);
    }
    if width > 0 {
        out.push(
            if value % 2 == 1 {
                '1'
            } else {
                '0'
            },
        );
        let ghost first = out@;
        push_bits(out, value / 2, width - 1);
        proof {
            bits::lemma_bits_len((value / 2) as nat, (width - 1) as nat);
            let all = bits::bits_of(value as nat, width as nat);
            let rest = bits::bits_of((value / 2) as nat, (width - 1) as nat);
            assert(bit_text(all) =~= seq![
                if value % 2 == 1 {
                    '1'
                } else {
                    '0'
                },
            ] + bit_text(rest));
            assert(out@ =~= old(out)@ + bit_text(all));
        }
    } else {
        assert(out@ =~= old(out)@ + bit_text(bits::bits_of(value as nat, 0)));
    }
}

/// The three bits of an acknowledgement as binary digits.
pub open spec fn ack_text(ack: nat) -> Seq<char> {
    seq![text::digit(ack / 4 % 2), text::digit(ack / 2 % 2), text::digit(ack % 2)]
}

fn push_ack(out: &mut String, ack: u64)
    ensures
        final(out)@ == old(out)@ + ack_text(ack as nat),
{
    text::push_decimal(out, ack / 4 % 2);
    text::push_decimal(out, ack / 2 % 2);
    text::push_decimal(out, ack % 2);
    assert(out@ =~= old(out)@ + ack_text(ack as nat));
}

/// A field without its lowest bits.
pub open spec fn without_lowest(field: nat, count: nat) -> nat
    decreases count,
{
    if count == 0 {
        field
    } else {
        without_lowest(field / 2, (count - 1) as nat)
    }
}

/// An acknowledgement and a word, as a field would spell them if its first bits
/// were left out.
pub open spec fn offset_line(offset: nat, ack_field: nat, word_field: nat) -> Seq<char> {
    "offset="@ + text::decimal(offset) + " ack="@ + ack_text(without_lowest(ack_field, offset))
        + " word=0x"@ + text::hex(without_lowest(word_field, offset), 8)
}

/// Those for the first eight offsets.
pub open spec fn are_offset_lines(lines: Seq<String>, ack_field: nat, word_field: nat) -> bool {
    lines.len() == 8 && forall|i: int|
        0 <= i < 8 ==> (#[trigger] lines[i])@ == offset_line(i as nat, ack_field, word_field)
}

fn offset_lines(ack_field: u64, word_field: u64) -> (lines: Vec<String>)
    ensures
        are_offset_lines(lines@, ack_field as nat, word_field as nat),
{
    let mut lines: Vec<String> = Vec::new();
    let mut ack: u64 = ack_field;
    let mut word: u64 = word_field;
    let mut offset: u8 = 0;
    while offset < 8
        invariant
            offset <= 8,
            lines@.len() == offset,
            ack == without_lowest(ack_field as nat, offset as nat),
            word == without_lowest(word_field as nat, offset as nat),
            forall|i: int|
                0 <= i < offset ==> (#[trigger] lines@[i])@ == offset_line(
                    i as nat,
                    ack_field as nat,
                    word_field as nat,
                ),
        decreases 8 - offset,
    {
        let mut line: String = "offset=".to_owned();
        text::push_decimal(&mut line, offset as u64);
        line.push_str(" ack=");
        push_ack(&mut line, ack);
        line.push_str(" word=0x");
        text::push_hex(&mut line, word, 8);
        assert(line@ =~= offset_line(offset as nat, ack_field as nat, word_field as nat));
        lines.push(line);
        proof {
            lemma_next_lowest(ack_field as nat, offset as nat);
            lemma_next_lowest(word_field as nat, offset as nat);
        }
        ack = ack / 2;
        word = word / 2;
        offset += 1;
    }
    lines
}

proof fn lemma_next_lowest(field: nat, count: nat)
    ensures
        without_lowest(field, count + 1) == without_lowest(field, count) / 2,
    decreases count,
{
    reveal_with_fuel(without_lowest, 2);
    if count > 0 {
        lemma_next_lowest(field / 2, (count - 1) as nat);
    }
}

/// A test of the wire, as the host asked for it.
#[derive(Clone, Copy, Debug, Eq, PartialEq, Structural)]
pub enum WireTest {
    /// Acknowledgement and data sampled as one burst.
    Whole,
    /// Sampled as two bursts, as a transfer does.
    Split,
    /// A read, a write and a read, with these turnaround clocks.
    Handover { after_read: u8, before_write: u8 },
}

/// The payload that asks for a test of the wire.
pub fn wire_request(test: WireTest) -> (payload: Vec<u8>)
    ensures
        payload@ == (match test {
            WireTest::Whole => seq![0u8],
            WireTest::Split => seq![1u8],
            WireTest::Handover { after_read, before_write } => seq![2u8, after_read, before_write],
        }),
{
    match test {
        WireTest::Whole => vec![0u8],
        WireTest::Split => vec![1u8],
        WireTest::Handover { after_read, before_write } => vec![2u8, after_read, before_write],
    }
}

/// What a read, a write and a read were acknowledged with.
pub open spec fn handover_line(
    after_read: u8,
    before_write: u8,
    acks: u64,
    status: u64,
) -> Seq<char> {
    "after_read="@ + text::decimal(after_read as nat) + " before_write="@ + text::decimal(
        before_write as nat,
    ) + " acks="@ + ack_text(acks as nat) + ","@ + ack_text((acks / 256) as nat) + ","@ + ack_text(
        (acks / 65536) as nat,
    ) + " ctrl_stat=0x"@ + text::hex(status as nat, 8) + " wdata_err="@ + text::decimal(
        (status / 128 % 2) as nat,
    )
}

/// What a test of the wire showed.
pub open spec fn wire_lines(test: WireTest, first: u64, second: u64, lines: Seq<String>) -> bool {
    match test {
        WireTest::Handover { after_read, before_write } => lines.len() == 1 && lines[0]@
            == handover_line(after_read, before_write, first, second),
        WireTest::Split => lines.len() == 9 && lines[0]@ == "ack_burst="@ + bit_text(
            bits::bits_of(first as nat, 8),
        ) + " data_burst="@ + bit_text(bits::bits_of(second as nat, 40)) && are_offset_lines(
            lines.skip(1),
            first as nat,
            second as nat,
        ),
        WireTest::Whole => lines.len() == 9 && lines[0]@ == "sampled_first_to_last="@ + bit_text(
            bits::bits_of(first as nat, 48),
        ) && are_offset_lines(lines.skip(1), first as nat, (first / 8) as nat),
    }
}

/// What a test of the wire showed.
pub fn wire(test: WireTest, reply: &[u8]) -> (told: Result<Vec<String>, &'static str>)
    ensures
        match told {
            Ok(lines) => reply@.len() == 16 && wire_lines(
                test,
                bytes::read64(reply@),
                bytes::read64(reply@.skip(8)),
                lines@,
            ),
            Err(words) => reply@.len() != 16 && words@ == "invalid wire-probe response"@,
        },
{
    if reply.len() != 16 {
        return Err("invalid wire-probe response");
    }
    assert(reply@.skip(0) =~= reply@);
    let first: u64 = bytes::get_le64(reply, 0);
    let second: u64 = bytes::get_le64(reply, 8);
    let mut lines: Vec<String> = Vec::new();
    let mut head: String = String::new();
    match test {
        WireTest::Handover { after_read, before_write } => {
            head.push_str("after_read=");
            text::push_decimal(&mut head, after_read as u64);
            head.push_str(" before_write=");
            text::push_decimal(&mut head, before_write as u64);
            head.push_str(" acks=");
            push_ack(&mut head, first);
            head.push_str(",");
            push_ack(&mut head, first / 256);
            head.push_str(",");
            push_ack(&mut head, first / 65536);
            head.push_str(" ctrl_stat=0x");
            text::push_hex(&mut head, second, 8);
            head.push_str(" wdata_err=");
            text::push_decimal(&mut head, second / 128 % 2);
            assert(head@ =~= handover_line(after_read, before_write, first, second));
            lines.push(head);
        },
        WireTest::Split => {
            head.push_str("ack_burst=");
            push_bits(&mut head, first, 8);
            head.push_str(" data_burst=");
            push_bits(&mut head, second, 40);
            let mut rest: Vec<String> = offset_lines(first, second);
            let ghost offsets = rest@;
            lines.push(head);
            lines.append(&mut rest);
            assert(lines@.skip(1) =~= offsets);
        },
        WireTest::Whole => {
            head.push_str("sampled_first_to_last=");
            push_bits(&mut head, first, 48);
            let mut rest: Vec<String> = offset_lines(first, first / 8);
            let ghost offsets = rest@;
            lines.push(head);
            lines.append(&mut rest);
            assert(lines@.skip(1) =~= offsets);
        },
    }
    Ok(lines)
}

/// What an acknowledgement is called.
pub open spec fn ack_name(ack: u8) -> Seq<char> {
    match ack {
        1 => "OK"@,
        2 => "WAIT"@,
        4 => "FAULT"@,
        _ => "NONE"@,
    }
}

fn name_ack(ack: u8) -> (name: &'static str)
    ensures
        name@ == ack_name(ack),
{
    match ack {
        1 => "OK",
        2 => "WAIT",
        4 => "FAULT",
        _ => "NONE",
    }
}

/// The payload that asks for one un-retried AP write. The turnaround clocks are
/// overridden only together.
pub fn write_probe_request(value: u32, after_read: Option<u8>, before_write: Option<u8>) -> (payload:
    Vec<u8>)
    ensures
        payload@ == bytes::le32(value) + (match (after_read, before_write) {
            (Some(after), Some(before)) => seq![after, before],
            _ => Seq::empty(),
        }),
{
    let mut payload: Vec<u8> = Vec::new();
    bytes::push_le32(&mut payload, value);
    assert(payload@ =~= bytes::le32(value));
    match (after_read, before_write) {
        (Some(after), Some(before)) => {
            payload.push(after);
            payload.push(before);
            assert(payload@ =~= bytes::le32(value) + seq![after, before]);
        },
        _ => {
            assert(payload@ =~= bytes::le32(value) + Seq::empty());
        },
    }
    payload
}

/// What came of one un-retried AP write.
pub open spec fn write_probe_line(value: u32, reply: Seq<u8>) -> Seq<char> {
    let before = bytes::read32(reply.skip(2));
    let after = bytes::read32(reply.skip(6));
    "wrote=0x"@ + text::hex(value as nat, 8) + " read_back=0x"@ + text::hex(before as nat, 8)
        + " write_ack="@ + ack_name(reply[1]) + " ctrl_stat=0x"@ + text::hex(after as nat, 8)
        + " wdata_err="@ + text::decimal((after / 128 % 2) as nat) + " sticky_err="@ + text::decimal(
        (after / 32 % 2) as nat,
    ) + " dpidr_ack="@ + ack_name(reply[0])
}

/// What came of one un-retried AP write.
pub fn write_probe(value: u32, reply: &[u8]) -> (told: Result<String, &'static str>)
    ensures
        match told {
            Ok(line) => reply@.len() == 10 && line@ == write_probe_line(value, reply@),
            Err(words) => reply@.len() != 10 && words@ == (if reply@.len() < 2 {
                "invalid ap-write-probe response"@
            } else {
                "invalid ap-write-probe status fields"@
            }),
        },
{
    if reply.len() < 2 {
        return Err("invalid ap-write-probe response");
    }
    if reply.len() != 10 {
        return Err("invalid ap-write-probe status fields");
    }
    let before: u32 = bytes::get_le32(reply, 2);
    let after: u32 = bytes::get_le32(reply, 6);
    let mut line: String = "wrote=0x".to_owned();
    text::push_hex(&mut line, value as u64, 8);
    line.push_str(" read_back=0x");
    text::push_hex(&mut line, before as u64, 8);
    line.push_str(" write_ack=");
    line.push_str(name_ack(reply[1]));
    line.push_str(" ctrl_stat=0x");
    text::push_hex(&mut line, after as u64, 8);
    line.push_str(" wdata_err=");
    text::push_decimal(&mut line, (after / 128 % 2) as u64);
    line.push_str(" sticky_err=");
    text::push_decimal(&mut line, (after / 32 % 2) as u64);
    line.push_str(" dpidr_ack=");
    line.push_str(name_ack(reply[0]));
    assert(line@ =~= write_probe_line(value, reply@));
    Ok(line)
}

/// The payload that asks for a pattern to be sent and sampled at the same time.
pub fn loopback_request(width: u8, pattern: u64) -> (payload: Vec<u8>)
    ensures
        payload@ == seq![width] + bytes::le64(pattern),
{
    let mut payload: Vec<u8> = vec![width];
    bytes::push_le64(&mut payload, pattern);
    assert(payload@ =~= seq![width] + bytes::le64(pattern));
    payload
}

/// What was sent, what was sampled, and whether both are the same.
pub open spec fn loopback_lines(width: u8, pattern: u64, seen: u64, lines: Seq<String>) -> bool {
    let mask = u64::MAX >> ((64 - width) as u64);
    &&& lines.len() == 3
    &&& lines[0]@ == "sent     ="@ + bit_text(bits::bits_of(pattern as nat, width as nat))
    &&& lines[1]@ == "observed ="@ + bit_text(bits::bits_of(seen as nat, width as nat))
    &&& lines[2]@ == (if seen == pattern & mask {
        "match=yes"@
    } else {
        "match=no differing_bits=0x"@ + text::short_hex(((seen ^ pattern) & mask) as nat)
    })
}

/// What was sent, what was sampled, and whether both are the same.
pub fn loopback(width: u8, pattern: u64, reply: &[u8]) -> (told: Result<Vec<String>, &'static str>)
    requires
        1 <= width <= 64,
    ensures
        match told {
            Ok(lines) => reply@.len() == 8 && loopback_lines(
                width,
                pattern,
                bytes::read64(reply@),
                lines@,
            ),
            Err(words) => reply@.len() != 8 && words@ == "invalid loopback response"@,
        },
{
    if reply.len() != 8 {
        return Err("invalid loopback response");
    }
    assert(reply@.skip(0) =~= reply@);
    let seen: u64 = bytes::get_le64(reply, 0);
    let mask: u64 = u64::MAX >> ((64 - width) as u64);
    let mut sent: String = "sent     =".to_owned();
    push_bits(&mut sent, pattern, width);
    let mut observed: String = "observed =".to_owned();
    push_bits(&mut observed, seen, width);
    let mut verdict: String = String::new();
    if seen == pattern & mask {
        verdict.push_str("match=yes");
    } else {
        verdict.push_str("match=no differing_bits=0x");
        text::push_short_hex(&mut verdict, (seen ^ pattern) & mask);
    }
    proof {
        assert(verdict@ =~= if seen == pattern & mask {
            "match=yes"@
        } else {
            "match=no differing_bits=0x"@ + text::short_hex(((seen ^ pattern) & mask) as nat)
        });
    }
    let mut lines: Vec<String> = Vec::new();
    lines.push(sent);
    lines.push(observed);
    lines.push(verdict);
    Ok(lines)
}

/// `label` padded with spaces to `width` characters.
pub open spec fn padded(label: Seq<char>, width: int) -> Seq<char> {
    label + Seq::new(
        if label.len() < width {
            (width - label.len()) as nat
        } else {
            0
        },
        |i: int| ' ',
    )
}

/// Pads a label with spaces.
fn pad(label: &str, width: usize) -> (line: String)
    ensures
        line@ == padded(label@, width as int),
{
    let chars: Vec<char> = text::chars_of(label);
    let mut line: String = label.to_owned();
    let mut at: usize = chars.len();
    assert(line@ =~= label@ + Seq::new(0, |i: int| ' '));
    while at < width
        invariant
            chars@ == label@,
            at >= chars@.len(),
            at <= width || at == chars@.len(),
            line@ == label@ + Seq::new((at - chars@.len()) as nat, |i: int| ' '),
        decreases width - at,
    {
        line.push(' ');
        at += 1;
        assert(line@ =~= label@ + Seq::new((at - chars@.len()) as nat, |i: int| ' '));
    }
    assert(line@ =~= padded(label@, width as int));
    line
}

/// A register of the core with what it holds, or why that cannot be told.
pub open spec fn register_line(name: Seq<char>, value: Result<u64, Seq<char>>) -> Seq<char> {
    padded(name, 12) + match value {
        Ok(value) => " 0x"@ + text::hex(value as nat, 16),
        Err(reason) => " unavailable ("@ + reason + ")"@,
    }
}

/// A register of the core with what it holds, or why that cannot be told.
pub fn register(name: &str, value: Result<u64, &str>) -> (line: String)
    ensures
        line@ == register_line(
            name@,
            match value {
                Ok(value) => Ok(value),
                Err(reason) => Err(reason@),
            },
        ),
{
    let mut line: String = pad(name, 12);
    match value {
        Ok(value) => {
            line.push_str(" 0x");
            text::push_hex(&mut line, value, 16);
        },
        Err(reason) => {
            line.push_str(" unavailable (");
            line.push_str(reason);
            line.push_str(")");
        },
    }
    assert(line@ =~= register_line(
        name@,
        match value {
            Ok(value) => Ok(value),
            Err(reason) => Err(reason@),
        },
    ));
    line
}

/// The debug port's sticky errors after a step.
pub open spec fn sticky_line(step: Seq<char>, status: u32) -> Seq<char> {
    padded(step, 22) + " ctrl_stat=0x"@ + text::hex(status as nat, 8) + " sticky_err="@ + text::decimal(
        (status / 32 % 2) as nat,
    ) + " wdata_err="@ + text::decimal((status / 128 % 2) as nat) + " sticky_orun="@
        + text::decimal((status / 2 % 2) as nat)
}

/// The debug port's sticky errors after a step.
pub fn sticky(step: &str, status: u32) -> (line: String)
    ensures
        line@ == sticky_line(step@, status),
{
    let mut line: String = pad(step, 22);
    line.push_str(" ctrl_stat=0x");
    text::push_hex(&mut line, status as u64, 8);
    line.push_str(" sticky_err=");
    text::push_decimal(&mut line, (status / 32 % 2) as u64);
    line.push_str(" wdata_err=");
    text::push_decimal(&mut line, (status / 128 % 2) as u64);
    line.push_str(" sticky_orun=");
    text::push_decimal(&mut line, (status / 2 % 2) as u64);
    assert(line@ =~= sticky_line(step@, status));
    line
}

/// Do so many words from `address` on all have an address?
pub open spec fn addressed(address: u64, count: nat) -> bool {
    count == 0 || address + 4 * (count - 1) <= u64::MAX
}

/// A word of memory at its address.
pub open spec fn word_line(address: nat, word: u32) -> Seq<char> {
    text::address(address) + " "@ + text::address(word as nat)
}

/// Words of memory, each at its address.
pub fn words_at(address: u64, words: &Vec<u32>) -> (lines: Vec<String>)
    requires
        addressed(address, words@.len()),
    ensures
        lines@.len() == words@.len(),
        forall|i: int|
            0 <= i < words@.len() ==> (#[trigger] lines@[i])@ == word_line(
                (address + 4 * i) as nat,
                words@[i],
            ),
{
    let mut lines: Vec<String> = Vec::new();
    let mut at: usize = 0;
    while at < words.len()
        invariant
            at <= words@.len(),
            addressed(address, words@.len()),
            lines@.len() == at,
            forall|i: int|
                0 <= i < at ==> (#[trigger] lines@[i])@ == word_line(
                    (address + 4 * i) as nat,
                    words@[i],
                ),
        decreases words@.len() - at,
    {
        let mut line: String = String::new();
        text::push_address(&mut line, address + 4 * (at as u64));
        line.push_str(" ");
        text::push_address(&mut line, words[at] as u64);
        assert(line@ =~= word_line((address + 4 * at) as nat, words@[at as int]));
        lines.push(line);
        at += 1;
    }
    lines
}

/// A word that was written, and the one that was read back.
pub open spec fn written_line(address: nat, wrote: u32, read: u32) -> Seq<char> {
    text::address(address) + " wrote "@ + text::address(wrote as nat) + " reads "@ + text::address(
        read as nat,
    ) + (if wrote == read {
        ""@
    } else {
        "  MISMATCH"@
    })
}

/// Words that were written, each with the one that was read back, and whether
/// the target took every one. Read back rather than trusted: a word that lands
/// in unmapped or write-protected space fails silently on this bus.
pub fn written_at(address: u64, wrote: &Vec<u32>, read: &Vec<u32>) -> (told: (Vec<String>, bool))
    requires
        wrote@.len() == read@.len(),
        addressed(address, wrote@.len()),
    ensures
        told.0@.len() == wrote@.len(),
        forall|i: int|
            0 <= i < wrote@.len() ==> (#[trigger] told.0@[i])@ == written_line(
                (address + 4 * i) as nat,
                wrote@[i],
                read@[i],
            ),
        told.1 == (wrote@ == read@),
{
    let mut lines: Vec<String> = Vec::new();
    let mut taken: bool = true;
    let mut at: usize = 0;
    assert(wrote@.take(0) =~= read@.take(0));
    while at < wrote.len()
        invariant
            at <= wrote@.len(),
            wrote@.len() == read@.len(),
            addressed(address, wrote@.len()),
            lines@.len() == at,
            taken == (wrote@.take(at as int) == read@.take(at as int)),
            forall|i: int|
                0 <= i < at ==> (#[trigger] lines@[i])@ == written_line(
                    (address + 4 * i) as nat,
                    wrote@[i],
                    read@[i],
                ),
        decreases wrote@.len() - at,
    {
        let mut line: String = String::new();
        text::push_address(&mut line, address + 4 * (at as u64));
        line.push_str(" wrote ");
        text::push_address(&mut line, wrote[at] as u64);
        line.push_str(" reads ");
        text::push_address(&mut line, read[at] as u64);
        if wrote[at] != read[at] {
            line.push_str("  MISMATCH");
        } else {
            line.push_str("");
        }
        assert(line@ =~= written_line((address + 4 * at) as nat, wrote@[at as int], read@[at as int]));
        lines.push(line);
        proof {
            let (a, b) = (wrote@.take(at as int), read@.take(at as int));
            assert(wrote@.take(at + 1) =~= a.push(wrote@[at as int]));
            assert(read@.take(at + 1) =~= b.push(read@[at as int]));
            if wrote@.take(at + 1) == read@.take(at + 1) {
                assert(a =~= wrote@.take(at + 1).drop_last());
                assert(b =~= read@.take(at + 1).drop_last());
                assert(wrote@.take(at + 1).last() == read@.take(at + 1).last());
            }
        }
        if wrote[at] != read[at] {
            taken = false;
        }
        at += 1;
    }
    assert(wrote@.take(at as int) =~= wrote@);
    assert(read@.take(at as int) =~= read@);
    (lines, taken)
}

/// What the bridge replies to a probe of one position is told as it was found:
/// both selectors, both lines, how it went and the port's identification.
pub proof fn law_a_position_is_told_as_it_was_found(
    name: Seq<char>,
    swdio: bool,
    swclk: bool,
    status: u8,
    dp_id: u32,
    s0: bool,
    s1: bool,
)
    ensures
        position_line(name, crate::hub::wire::mux_reply(swdio, swclk, status, dp_id, s0, s1))
            == "target="@ + name + " s0="@ + digit_of(s0) + " s1="@ + digit_of(s1) + " swdio="@
            + digit_of(swdio) + " swclk="@ + digit_of(swclk) + " status=0x"@ + text::hex(
            status as nat,
            2,
        ) + " dp_id=0x"@ + text::hex(dp_id as nat, 8),
{
    let reply = crate::hub::wire::mux_reply(swdio, swclk, status, dp_id, s0, s1);
    assert(reply.skip(3).take(4) =~= bytes::le32(dp_id));
    assert(bytes::read32(reply.skip(3)) == bytes::read32(reply.skip(3).take(4)));
    bytes::law_read32_undoes_le32(dp_id);
}

/// A truth as a digit.
pub open spec fn digit_of(value: bool) -> Seq<char> {
    if value {
        text::decimal(1)
    } else {
        text::decimal(0)
    }
}

/// What the bridge replies to a probe of a write to the access port is told as
/// it came back. A write that was refused sets bit 7 of the port's status, and
/// any other error bit 5.
pub proof fn law_a_write_probe_is_told_as_it_came_back(
    value: u32,
    port: u8,
    write: u8,
    word: u32,
    status: u32,
)
    ensures
        write_probe_line(value, seq![port, write] + bytes::le32(word) + bytes::le32(status))
            == "wrote=0x"@ + text::hex(value as nat, 8) + " read_back=0x"@ + text::hex(
            word as nat,
            8,
        ) + " write_ack="@ + ack_name(write) + " ctrl_stat=0x"@ + text::hex(status as nat, 8)
            + " wdata_err="@ + digit_of(status & 0x80 != 0) + " sticky_err="@ + digit_of(
            status & 0x20 != 0,
        ) + " dpidr_ack="@ + ack_name(port),
        ack_name(1) == "OK"@ && ack_name(2) == "WAIT"@ && ack_name(4) == "FAULT"@ && ack_name(7)
            == "NONE"@,
{
    let reply = seq![port, write] + bytes::le32(word) + bytes::le32(status);
    assert(reply.skip(2).take(4) =~= bytes::le32(word));
    assert(reply.skip(6).take(4) =~= bytes::le32(status));
    assert(bytes::read32(reply.skip(2)) == bytes::read32(reply.skip(2).take(4)));
    assert(bytes::read32(reply.skip(6)) == bytes::read32(reply.skip(6).take(4)));
    bytes::law_read32_undoes_le32(word);
    bytes::law_read32_undoes_le32(status);
    assert((status / 128 % 2 == 1) == (status & 0x80 != 0) && (status / 32 % 2 == 1) == (status
        & 0x20 != 0)) by (bit_vector);
}

/// The sticky errors are the port's bits 5, 7 and 1.
pub proof fn law_sticky_errors_are_the_ports_bits(step: Seq<char>, status: u32)
    ensures
        sticky_line(step, status) == padded(step, 22) + " ctrl_stat=0x"@ + text::hex(
            status as nat,
            8,
        ) + " sticky_err="@ + digit_of(status & 0x20 != 0) + " wdata_err="@ + digit_of(
            status & 0x80 != 0,
        ) + " sticky_orun="@ + digit_of(status & 0x02 != 0),
{
    assert((status / 128 % 2 == 1) == (status & 0x80 != 0) && (status / 32 % 2 == 1) == (status
        & 0x20 != 0) && (status / 2 % 2 == 1) == (status & 0x02 != 0)) by (bit_vector);
}

/// A field without its lowest bits is what is left of it above their weight.
pub proof fn law_lowest_bits_are_left_out_by_their_weight(field: nat, count: nat)
    ensures
        without_lowest(field, count) == field / pow2(count),
    decreases count,
{
    if count == 0 {
        lemma2_to64();
        assert(pow2(0) == 1);
        assert(field / 1nat == field);
    } else {
        let less = (count - 1) as nat;
        law_lowest_bits_are_left_out_by_their_weight(field / 2, less);
        lemma_pow2_unfold(count);
        lemma_pow2_pos(less);
        let (p, n) = (pow2(less) as int, field as int);
        vstd::arithmetic::div_mod::lemma_div_denominator(n, 2, p);
        assert(pow2(count) == 2 * pow2(less));
        assert((n / 2) / p == n / (2 * p));
    }
}

/// The three acknowledgements of a handover are told one by one, each by its
/// three bits, and bit 7 of the port's status tells of a write that was refused.
pub proof fn law_a_handover_is_told_acknowledgement_by_acknowledgement(
    one: u8,
    two: u8,
    three: u8,
    status: u64,
    after_read: u8,
    before_write: u8,
)
    ensures
        handover_line(
            after_read,
            before_write,
            (one + 256 * two + 65536 * three) as u64,
            status,
        ) == "after_read="@ + text::decimal(after_read as nat) + " before_write="@ + text::decimal(
            before_write as nat,
        ) + " acks="@ + ack_text(one as nat) + ","@ + ack_text(two as nat) + ","@ + ack_text(
            three as nat,
        ) + " ctrl_stat=0x"@ + text::hex(status as nat, 8) + " wdata_err="@ + digit_of(
            status & 0x80 != 0,
        ),
{
    let acks = (one + 256 * two + 65536 * three) as u64;
    let (a, b, c) = (one as u64, two as u64, three as u64);
    assert(acks % 2 == a % 2 && acks / 2 % 2 == a / 2 % 2 && acks / 4 % 2 == a / 4 % 2 && acks / 256
        % 2 == b % 2 && acks / 256 / 2 % 2 == b / 2 % 2 && acks / 256 / 4 % 2 == b / 4 % 2 && acks
        / 65536 % 2 == c % 2 && acks / 65536 / 2 % 2 == c / 2 % 2 && acks / 65536 / 4 % 2 == c / 4
        % 2) by (bit_vector)
        requires
            acks == a + 256 * b + 65536 * c,
            a < 256,
            b < 256,
            c < 256,
    ;
    assert((status / 128 % 2 == 1) == (status & 0x80 != 0)) by (bit_vector);
    assert(ack_text(acks as nat) == ack_text(one as nat));
    assert(ack_text((acks / 256) as nat) == ack_text(two as nat));
    assert(ack_text((acks / 65536) as nat) == ack_text(three as nat));
}

/// What the bridge tells of its radio is told on as it is: the network by its
/// name, and its address where it is on it.
pub proof fn law_a_network_is_told_as_it_is(control: crate::hub::radio::WifiControl)
    requires
        crate::hub::radio::well_formed(control),
    ensures
        ({
            let line = network_line(crate::hub::radio::status(control));
            let ip = control.ip@;
            &&& control.connected ==> line == "connected ssid="@ + control.ssid@ + " ip="@
                + text::decimal(ip[0] as nat) + "."@ + text::decimal(ip[1] as nat) + "."@
                + text::decimal(ip[2] as nat) + "."@ + text::decimal(ip[3] as nat)
            &&& !control.connected && control.ssid@.len() == 0 ==> line == "no network configured"@
            &&& !control.connected && control.ssid@.len() > 0 ==> line == "configured ssid="@
                + control.ssid@ + " but not connected"@
        }),
{
    let reply = crate::hub::radio::status(control);
    let name = encode_utf8(control.ssid@);
    assert(reply.len() == 6 + name.len());
    assert(reply[5] == name.len());
    assert(reply.subrange(6, 6 + name.len() as int) =~= name);
    assert(reply[1] == control.ip@[0] && reply[2] == control.ip@[1]);
    assert(reply[3] == control.ip@[2] && reply[4] == control.ip@[3]);
    encode_utf8_valid_utf8(control.ssid@);
    encode_utf8_decode_utf8(control.ssid@);
}

} // verus!
