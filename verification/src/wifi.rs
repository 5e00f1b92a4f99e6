//! How network credentials travel between the bridge and its host.
//!
//! Credentials belong in storage on the device, not compiled into an image: a
//! probe that needs rebuilding and reflashing to join a different network is a
//! probe that stays on the bench. The format is length-prefixed so a
//! passphrase containing anything at all survives the trip.

use core::str::Utf8Error;
use vstd::prelude::*;
use vstd::slice::*;
use vstd::string::*;
use vstd::utf8::*;

verus! {

/// Longest values 802.11 and WPA2 allow.
pub const MAX_SSID: usize = 32;

pub const MAX_PASSWORD: usize = 64;

/// `core::str::Utf8Error`, why bytes are not UTF-8. Nothing here reads it.
#[verifier::external_type_specification]
#[verifier::external_body]
pub struct ExUtf8Error(Utf8Error);

/// `core::str::from_utf8` gives the text that the bytes encode, exactly when
/// they are well-formed UTF-8.
pub assume_specification[ core::str::from_utf8 ](v: &[u8]) -> (result: Result<&str, Utf8Error>)
    ensures
        result is Ok <==> valid_utf8(v@),
        result matches Ok(text) ==> text.spec_bytes() == v@,
;

/// The message that carries credentials.
pub open spec fn packed(ssid: Seq<u8>, password: Seq<u8>) -> Seq<u8> {
    seq![ssid.len() as u8, password.len() as u8] + ssid + password
}

/// Are credentials short enough to exist?
pub open spec fn within_limits(ssid: Seq<u8>, password: Seq<u8>) -> bool {
    ssid.len() <= MAX_SSID && password.len() <= MAX_PASSWORD
}

/// Where the password starts in a message that is all there, `None` for one
/// that is not.
pub open spec fn parted(payload: Seq<u8>) -> Option<int> {
    if payload.len() >= 2 && payload[0] <= MAX_SSID && payload[1] <= MAX_PASSWORD && payload.len()
        == 2 + payload[0] + payload[1] {
        Some(2 + payload[0])
    } else {
        None
    }
}

/// The credentials in a message, `None` for a malformed one.
pub open spec fn unpacked(payload: Seq<u8>) -> Option<(Seq<char>, Seq<char>)> {
    match parted(payload) {
        Some(at) => {
            let (ssid, password) = (payload.subrange(2, at), payload.skip(at));
            if valid_utf8(ssid) && valid_utf8(password) {
                Some((decode_utf8(ssid), decode_utf8(password)))
            } else {
                None
            }
        },
        None => None,
    }
}

/// Packs an SSID and passphrase for `WifiSet`.
pub fn encode(ssid: &str, password: &str, out: &mut [u8]) -> (length: Option<usize>)
    ensures
        ({
            let message = packed(ssid.spec_bytes(), password.spec_bytes());
            let fits = message.len() <= old(out)@.len();
            if within_limits(ssid.spec_bytes(), password.spec_bytes()) && fits {
                length == Some(message.len() as usize) && final(out)@ == message + old(out)@.skip(
                    message.len() as int,
                )
            } else {
                length is None && final(out)@ == old(out)@
            }
        }),
{
    let ssid_bytes: &[u8] = ssid.as_bytes();
    let password_bytes: &[u8] = password.as_bytes();
    let ssid_len: usize = ssid_bytes.len();
    let password_len: usize = password_bytes.len();
    if ssid_len > MAX_SSID || password_len > MAX_PASSWORD {
        return None;
    }
    let length: usize = 2 + ssid_len + password_len;
    if out.len() < length {
        return None;
    }
    let ghost message = packed(ssid.spec_bytes(), password.spec_bytes());
    out[0] = ssid_len as u8;
    out[1] = password_len as u8;
    let mut at: usize = 0;
    while at < ssid_len
        invariant
            at <= ssid_len,
            ssid_len == ssid_bytes@.len(),
            2 + ssid_len + password_len == message.len(),
            message.len() <= out@.len(),
            out@.len() == old(out)@.len(),
            ssid_bytes@ == ssid.spec_bytes(),
            ssid_len <= MAX_SSID,
            password_len <= MAX_PASSWORD,
            password_len == password.spec_bytes().len(),
            message == packed(ssid.spec_bytes(), password.spec_bytes()),
            forall|i: int| 0 <= i < 2 + at ==> out@[i] == message[i],
            forall|i: int| 2 + at <= i < out@.len() ==> out@[i] == old(out)@[i],
        decreases ssid_len - at,
    {
        out[2 + at] = ssid_bytes[at];
        at += 1;
    }
    at = 0;
    while at < password_len
        invariant
            at <= password_len,
            ssid_len == ssid.spec_bytes().len(),
            password_len == password_bytes@.len(),
            2 + ssid_len + password_len == message.len(),
            message.len() <= out@.len(),
            out@.len() == old(out)@.len(),
            password_bytes@ == password.spec_bytes(),
            ssid_len <= MAX_SSID,
            password_len <= MAX_PASSWORD,
            message == packed(ssid.spec_bytes(), password.spec_bytes()),
            forall|i: int| 0 <= i < 2 + ssid_len + at ==> out@[i] == message[i],
            forall|i: int| 2 + ssid_len + at <= i < out@.len() ==> out@[i] == old(out)@[i],
        decreases password_len - at,
    {
        out[2 + ssid_len + at] = password_bytes[at];
        at += 1;
    }
    assert(out@ =~= message + old(out)@.skip(message.len() as int));
    Some(length)
}

/// Unpacks what `encode` produced, rejecting anything malformed.
pub fn decode<'a>(payload: &'a [u8]) -> (credentials: Option<(&'a str, &'a str)>)
    ensures
        match credentials {
            Some((ssid, password)) => unpacked(payload@) == Some((ssid@, password@)),
            None => unpacked(payload@) is None,
        },
{
    if payload.len() < 2 {
        return None;
    }
    let ssid_len: usize = payload[0] as usize;
    let password_len: usize = payload[1] as usize;
    if ssid_len > MAX_SSID || password_len > MAX_PASSWORD || payload.len() != 2 + ssid_len
        + password_len {
        return None;
    }
    let ssid: &'a [u8] = slice_subrange(payload, 2, 2 + ssid_len);
    let password: &'a [u8] = slice_subrange(payload, 2 + ssid_len, payload.len());
    assert(password@ =~= payload@.skip(2 + ssid_len));
    match (core::str::from_utf8(ssid), core::str::from_utf8(password)) {
        (Ok(ssid_text), Ok(password_text)) => {
            proof {
                encode_utf8_decode_utf8(ssid_text@);
                encode_utf8_decode_utf8(password_text@);
            }
            Some((ssid_text, password_text))
        },
        _ => None,
    }
}

/// Unpacking gives back the credentials that were packed.
pub proof fn law_credentials_survive_the_round_trip(ssid: Seq<char>, password: Seq<char>)
    requires
        within_limits(encode_utf8(ssid), encode_utf8(password)),
    ensures
        unpacked(packed(encode_utf8(ssid), encode_utf8(password))) == Some((ssid, password)),
{
    let (s, p) = (encode_utf8(ssid), encode_utf8(password));
    let message = packed(s, p);
    encode_utf8_valid_utf8(ssid);
    encode_utf8_valid_utf8(password);
    encode_utf8_decode_utf8(ssid);
    encode_utf8_decode_utf8(password);
    assert(message.subrange(2, 2 + s.len() as int) =~= s);
    assert(message.skip(2 + s.len() as int) =~= p);
}

/// A message tells both lengths first, no name longer than 32 bytes and no
/// passphrase longer than 64, and nothing is missing or left over.
pub proof fn law_a_message_tells_its_lengths(payload: Seq<u8>, ssid: Seq<u8>, password: Seq<u8>)
    ensures
        unpacked(payload) is Some ==> payload.len() >= 2 && payload[0] <= 32 && payload[1] <= 64
            && payload.len() == 2 + payload[0] + payload[1],
        ssid.len() <= 32 && password.len() <= 64 <==> within_limits(ssid, password),
        ssid.len() <= 32 && password.len() <= 64 ==> ({
            let message = packed(ssid, password);
            &&& message.len() == 2 + ssid.len() + password.len()
            &&& message[0] == ssid.len() && message[1] == password.len()
            &&& message.subrange(2, 2 + ssid.len() as int) == ssid
            &&& message.skip(2 + ssid.len() as int) == password
        }),
{
    let message = packed(ssid, password);
    assert(message.subrange(2, 2 + ssid.len() as int) =~= ssid);
    assert(message.skip(2 + ssid.len() as int) =~= password);
}

} // verus!
