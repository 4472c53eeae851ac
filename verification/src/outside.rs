//! Trusted boundary with the outside crates this library calls.
use vstd::bytes::spec_u32_from_le_bytes;
use vstd::prelude::*;

verus! {

/// `bytes::Bytes`, an immutable byte buffer, known to Verus only through `bytes_contents`.
#[verifier::external_type_specification]
#[verifier::external_body]
pub struct ExBytes(bytes::Bytes);

/// `anyhow::Error`, the error a storage iterator may report; it is only passed along.
#[verifier::external_type_specification]
#[verifier::external_body]
pub struct ExAnyhowError(anyhow::Error);

/// The bytes held by a `bytes::Bytes` buffer.
pub uninterp spec fn bytes_contents(b: bytes::Bytes) -> Seq<u8>;

/// Calls `Bytes::from(Vec<u8>)`: the buffer holds exactly the vector's bytes.
#[verifier::external_body]
pub(crate) fn bytes_from_vec(v: Vec<u8>) -> (b: bytes::Bytes)
    ensures
        bytes_contents(b) == v@,
{
    bytes::Bytes::from(v)
}

/// Calls `<[u8]>::to_vec` on the bytes a `bytes::Bytes` buffer derefs to: a copy of them.
#[verifier::external_body]
pub(crate) fn bytes_to_vec(b: &bytes::Bytes) -> (v: Vec<u8>)
    ensures
        v@ == bytes_contents(*b),
{
    b.to_vec()
}

/// The little-endian `u32` at `pos` of `s`: what farmhash's `fetch32` reads there.
pub open spec fn word_at(s: Seq<u8>, pos: int) -> u32 {
    spec_u32_from_le_bytes(s.subrange(pos, pos + 4))
}

/// None of the plain (not wrapping) `u32` additions of `farmhash::fingerprint32` overflows on
/// `s`. For 5 to 12 bytes it adds the length to the first word, five times the length to the
/// last word, and 9 to the word at 4 (at 0 below 8 bytes); for 13 to 24 bytes it adds the
/// length to the middle word times `0xcc9e2d51` (wrapped). Other lengths only wrap. Built with
/// overflow checks, the call panics where such an addition overflows.
pub open spec fn fingerprint32_no_overflow(s: Seq<u8>) -> bool {
    let len = s.len() as int;
    if 5 <= len <= 12 {
        &&& word_at(s, 0) + len <= u32::MAX
        &&& word_at(s, len - 4) + 5 * len <= u32::MAX
        &&& word_at(s, if len >= 8 { 4 } else { 0 }) + 9 <= u32::MAX
    } else if 13 <= len <= 24 {
        (word_at(s, len / 2) as int * 0xcc9e2d51) % 0x1_0000_0000 + len <= u32::MAX
    } else {
        true
    }
}

/// The 32-bit farmhash fingerprint of a byte string.
pub uninterp spec fn farmhash_fingerprint32(s: Seq<u8>) -> u32;

/// Calls `farmhash::fingerprint32`, a deterministic hash of the bytes alone, on the inputs
/// where it does not overflow.
#[verifier::external_body]
pub(crate) fn fingerprint32(s: &[u8]) -> (h: u32)
    requires
        fingerprint32_no_overflow(s@),
    ensures
        h == farmhash_fingerprint32(s@),
{
    farmhash::fingerprint32(s)
}

} // verus!
