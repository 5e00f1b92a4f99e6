//! SHA-256 of what was read from a target or is to be written to one.

use crate::text;
use sha2::{Digest, Sha256};
use vstd::prelude::*;

verus! {

/// The SHA-256 of some bytes, as `sha2::Sha256` computes it.
pub uninterp spec fn sha256(bytes: Seq<u8>) -> Seq<u8>;

/// `sha2::Sha256::digest` hashes the bytes in one call; a digest is thirty-two
/// bytes.
#[verifier::external_body]
fn digest(bytes: &[u8]) -> (out: Vec<u8>)
    ensures
        out@ == sha256(bytes@),
        out@.len() == 32,
{
    Sha256::digest(bytes).to_vec()
}

/// Bytes as text: each as two lower-case hexadecimal digits.
pub fn hex_text(bytes: &[u8]) -> (told: String)
    ensures
        told@ == text::hex_bytes(bytes@),
{
    let mut out: String = String::new();
    text::push_hex_bytes(&mut out, bytes);
    assert(out@ =~= text::hex_bytes(bytes@));
    out
}

/// The SHA-256 of some bytes as text.
pub fn hex_digest(bytes: &[u8]) -> (told: String)
    ensures
        told@ == text::hex_bytes(sha256(bytes@)),
{
    hex_text(digest(bytes).as_slice())
}

} // verus!
