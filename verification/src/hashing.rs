//! Content ids of preview blocks: the first twelve hexadecimal digits of
//! the SHA-256 digest of the block's UTF-8 bytes.

use vstd::prelude::*;
use vstd::utf8::encode_utf8;
use sha2::Digest;
use crate::text::{chars_of, string_of};

verus! {

/// SHA-256 of `data`.
pub uninterp spec fn sha256(data: Seq<u8>) -> Seq<u8>;

/// `Sha256::digest`: the 32-byte SHA-256 digest of `data`.
#[verifier::external_body]
fn sha256_digest(data: &[u8]) -> (r: Vec<u8>)
    ensures
        r@ == sha256(data@),
        r@.len() == 32,
{
    sha2::Sha256::digest(data).to_vec()
}

/// Lower-case hexadecimal digit of `v`, for `0 <= v < 16`.
pub open spec fn hex_digit(v: int) -> char {
    seq!['0', '1', '2', '3', '4', '5', '6', '7', '8', '9', 'a', 'b', 'c', 'd', 'e', 'f'][v]
}

/// `data` in lower-case hexadecimal, two digits per byte, high nibble
/// first.
pub open spec fn hex_lower(data: Seq<u8>) -> Seq<char>
    decreases data.len(),
{
    if data.len() == 0 {
        Seq::empty()
    } else {
        hex_lower(data.drop_last()) + seq![
            hex_digit(data.last() as int / 16),
            hex_digit(data.last() as int % 16),
        ]
    }
}

/// Two hexadecimal digits per byte.
pub proof fn lemma_hex_len(data: Seq<u8>)
    ensures
        hex_lower(data).len() == 2 * data.len(),
    decreases data.len(),
{
    if data.len() > 0 {
        lemma_hex_len(data.drop_last());
    }
}

/// `hex::encode`: each byte as two lower-case hexadecimal digits.
#[verifier::external_body]
fn hex_encode(data: &[u8]) -> (r: String)
    ensures
        r@ == hex_lower(data@),
{
    hex::encode(data)
}

/// The id of a block whose source is `s`.
pub open spec fn block_id(s: Seq<char>) -> Seq<char> {
    hex_lower(sha256(encode_utf8(s))).take(12)
}

/// The id of the source `s`: the first twelve lower-case hexadecimal
/// digits of the SHA-256 digest of its UTF-8 bytes.
pub fn hash_str(s: &str) -> (id: String)
    ensures
        id@ == block_id(s@),
        id@.len() == 12,
{
    let digest = sha256_digest(s.as_bytes());
    let hex = hex_encode(digest.as_slice());
    proof {
        lemma_hex_len(digest@);
    }
    let cs = chars_of(hex.as_str());
    string_of(&cs, 0, 12)
}

} // verus!
