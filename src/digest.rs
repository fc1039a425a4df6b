//! Content hashes: the lower-case hex SHA-256 digest of a file's bytes.

use vstd::prelude::*;

verus! {

/// The 32-byte SHA-256 digest of a byte string.
pub uninterp spec fn sha256_of(data: Seq<u8>) -> Seq<u8>;

/// Longest input, in bytes, whose SHA-256 bit length fits in 64 bits.
pub open spec fn digestible(data: Seq<u8>) -> bool {
    data.len() < 0x2000_0000_0000_0000
}

pub open spec fn hex_digit(v: u8) -> char
    recommends
        v < 16,
{
    seq!['0', '1', '2', '3', '4', '5', '6', '7', '8', '9', 'a', 'b', 'c', 'd', 'e', 'f'][v as int]
}

/// Two lower-case hex digits per byte, the high nibble first.
pub open spec fn hex_lower(b: Seq<u8>) -> Seq<char>
    decreases b.len(),
{
    if b.len() == 0 {
        Seq::empty()
    } else {
        let last = b.last();
        hex_lower(b.drop_last()) + seq![hex_digit(last / 16), hex_digit(last % 16)]
    }
}

/// The content hash of a file: its SHA-256 digest in lower-case hex.
pub open spec fn content_hash(data: Seq<u8>) -> Seq<char> {
    hex_lower(sha256_of(data))
}

/// Relies on ring::digest::digest with ring::digest::SHA256: it returns the
/// SHA-256 digest of `data`, 32 bytes long, and panics only on inputs of
/// 2^61 bytes or more.
#[verifier::external_body]
fn sha256(data: &[u8]) -> (r: Vec<u8>)
    requires
        digestible(data@),
    ensures
        r@ == sha256_of(data@),
        r@.len() == 32,
{
    ring::digest::digest(&ring::digest::SHA256, data).as_ref().to_vec()
}

/// Relies on data_encoding::HEXLOWER.encode: two lower-case hex digits for
/// each byte, most significant nibble first. It asserts that the input is at
/// most `usize::MAX / 512` bytes long, which on a 32-bit target is 8,388,607.
#[verifier::external_body]
fn hex_encode(data: &[u8]) -> (r: String)
    requires
        data@.len() <= 8_388_607,
    ensures
        r@ == hex_lower(data@),
{
    data_encoding::HEXLOWER.encode(data)
}

pub proof fn lemma_hex_lower_len(b: Seq<u8>)
    ensures
        hex_lower(b).len() == 2 * b.len(),
    decreases b.len(),
{
    if b.len() > 0 {
        lemma_hex_lower_len(b.drop_last());
    }
}

/// The content hash of `data`: 64 lower-case hex digits.
pub fn hash(data: &[u8]) -> (r: String)
    requires
        digestible(data@),
    ensures
        r@ == content_hash(data@),
        r@.len() == 64,
{
    let d = sha256(data);
    proof {
        lemma_hex_lower_len(d@);
    }
    hex_encode(d.as_slice())
}

} // verus!
