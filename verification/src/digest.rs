//! Content fingerprints: the SHA-256 digest of a payload, rendered as
//! `"sha256:"` followed by the lowercase hex digest. Fingerprints drive
//! dedup-on-write and the recovery merge.

use vstd::prelude::*;
use crate::text::{bytes_to_hex, hex_of};

verus! {

/// The SHA-256 digest of the UTF-8 encoding of a text: 32 bytes that are
/// a function of the text alone.
pub uninterp spec fn sha256_of(text: Seq<char>) -> Seq<u8>;

/// Relies on sha2's `Sha256` through `Digest::digest`: the digest depends
/// on the input bytes alone and is 32 bytes long.
#[verifier::external_body]
fn sha256_digest(text: &str) -> (r: Vec<u8>)
    ensures
        r@ == sha256_of(text@),
        r@.len() == 32,
{
    let out = <sha2::Sha256 as sha2::Digest>::digest(text.as_bytes());
    out.to_vec()
}

/// The fingerprint stored in an entry's `hash` field.
pub open spec fn fingerprint_of(text: Seq<char>) -> Seq<char> {
    "sha256:"@ + hex_of(sha256_of(text))
}

/// Computes the fingerprint of a payload.
pub fn fingerprint(content: &str) -> (s: String)
    ensures
        s@ == fingerprint_of(content@),
{
    let bytes = sha256_digest(content);
    let hex = bytes_to_hex(&bytes);
    let mut s = String::from_str("sha256:");
    s.append(hex.as_str());
    s
}

} // verus!
