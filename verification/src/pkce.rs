//! The proof key of a code exchange: a challenge is made from a verifier, and
//! only who holds the verifier can answer it.
use base64::engine::general_purpose::URL_SAFE_NO_PAD;
use base64::Engine;
use sha2::{Digest, Sha256};
use vstd::prelude::*;
use vstd::utf8::encode_utf8;

use crate::text::same_text;

verus! {

/// The SHA-256 digest of a byte sequence.
pub uninterp spec fn sha256(bytes: Seq<u8>) -> Seq<u8>;

/// `sha2::Sha256::digest`: the SHA-256 digest of the bytes, which is 32 bytes
/// long.
#[verifier::external_body]
pub(crate) fn sha256_digest(bytes: &[u8]) -> (digest: Vec<u8>)
    ensures
        digest@ == sha256(bytes@),
        digest@.len() == 32,
{
    Sha256::digest(bytes).to_vec()
}

/// The characters of URL-safe base64: letters, digits, `-` and `_`.
pub open spec fn base64_char(v: nat) -> char {
    if v < 26 {
        (65 + v) as char
    } else if v < 52 {
        (97 + (v - 26)) as char
    } else if v < 62 {
        (48 + (v - 52)) as char
    } else if v == 62 {
        '-'
    } else {
        '_'
    }
}

/// One byte of a sequence; zero past its end.
pub open spec fn byte_at(b: Seq<u8>, i: int) -> nat {
    if 0 <= i < b.len() {
        b[i] as nat
    } else {
        0
    }
}

/// The `i`th group of six bits of a byte sequence.
pub open spec fn sextet(b: Seq<u8>, i: int) -> nat {
    let p = 3 * (i / 4);
    let k = i % 4;
    if k == 0 {
        byte_at(b, p) / 4
    } else if k == 1 {
        (byte_at(b, p) % 4) * 16 + byte_at(b, p + 1) / 16
    } else if k == 2 {
        (byte_at(b, p + 1) % 16) * 4 + byte_at(b, p + 2) / 64
    } else {
        byte_at(b, p + 2) % 64
    }
}

/// A byte sequence in URL-safe base64 without padding.
pub open spec fn base64url(b: Seq<u8>) -> Seq<char> {
    Seq::new((4 * b.len() + 2) / 3, |i: int| base64_char(sextet(b, i)))
}

/// `base64::engine::general_purpose::URL_SAFE_NO_PAD.encode`: six bits to a
/// character of the URL-safe alphabet, without padding. It panics where the
/// length of the result does not fit in a `usize`.
#[verifier::external_body]
pub(crate) fn base64url_encode(bytes: &[u8]) -> (text: String)
    requires
        4 * bytes@.len() + 2 <= usize::MAX,
    ensures
        text@ == base64url(bytes@),
{
    URL_SAFE_NO_PAD.encode(bytes)
}

/// The challenge that a verifier answers, by the method called `S256`.
pub open spec fn challenge(verifier: Seq<char>) -> Seq<char> {
    base64url(sha256(encode_utf8(verifier)))
}

/// Computes the challenge that a verifier answers.
pub fn challenge_of(verifier: &str) -> (text: String)
    ensures
        text@ == challenge(verifier@),
        text@.len() == 43,
{
    let digest = sha256_digest(verifier.as_bytes());
    base64url_encode(digest.as_slice())
}

/// Whether a digest, written in URL-safe base64, is the challenge.
pub fn digest_answers(digest: &Vec<u8>, challenge: &str) -> (b: bool)
    requires
        digest@.len() == 32,
    ensures
        b == (base64url(digest@) == challenge@),
{
    let text = base64url_encode(digest.as_slice());
    same_text(text.as_str(), challenge)
}

} // verus!
