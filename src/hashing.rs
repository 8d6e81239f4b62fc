use vstd::prelude::*;
use sha1::Digest;
use crate::encoding::{enc, encode};
use crate::value::{Bencode, BencodeValue};

verus! {

/// The SHA-1 digest of a byte sequence.
pub uninterp spec fn sha1_digest(b: Seq<u8>) -> Seq<u8>;

/// Relies on `sha1::Sha1::digest`: the 20-byte SHA-1 digest of the input.
#[verifier::external_body]
fn sha1_of(b: &[u8]) -> (r: Vec<u8>)
    ensures
        r@ == sha1_digest(b@),
        r@.len() == 20,
{
    sha1::Sha1::digest(b).to_vec()
}

pub open spec fn hex_digit(n: u8) -> char {
    if n < 10 {
        (48 + n) as char
    } else {
        (87 + n) as char
    }
}

/// Two lowercase hexadecimal digits per byte, high nibble first.
pub open spec fn hex_text(b: Seq<u8>) -> Seq<char>
    decreases b.len(),
{
    if b.len() == 0 {
        Seq::empty()
    } else {
        hex_text(b.drop_last()) + seq![hex_digit(b.last() / 16), hex_digit(b.last() % 16)]
    }
}

/// Relies on `hex::encode`: two lowercase hexadecimal digits per byte, high
/// nibble first.
#[verifier::external_body]
fn hex_of(b: &[u8]) -> (r: String)
    ensures
        r@ == hex_text(b@),
{
    hex::encode(b)
}

/// Lowercase hexadecimal text of a digest, for display.
pub fn to_hex(b: &[u8]) -> (r: String)
    ensures
        r@ == hex_text(b@),
        r@.len() == 2 * b@.len(),
{
    proof {
        lemma_hex_len(b@);
    }
    hex_of(b)
}

proof fn lemma_hex_len(b: Seq<u8>)
    ensures
        hex_text(b).len() == 2 * b.len(),
    decreases b.len(),
{
    if b.len() > 0 {
        lemma_hex_len(b.drop_last());
    }
}

/// The info-hash of a torrent: the SHA-1 digest of the bencoding of its
/// `info` dictionary, exactly as it was decoded.
pub fn info_hash(info: &BencodeValue) -> (r: Vec<u8>)
    ensures
        r@ == sha1_digest(enc(info@)),
        r@.len() == 20,
{
    let bytes = encode(info);
    sha1_of(bytes.as_slice())
}

/// Hashing is a function of the term: equal terms give equal info-hashes.
pub proof fn lemma_info_hash_deterministic(a: Bencode, b: Bencode)
    requires
        a == b,
    ensures
        sha1_digest(enc(a)) == sha1_digest(enc(b)),
{
}

} // verus!
