//! Content hashing used for change detection.

use vstd::prelude::*;

verus! {

/// The hex-encoded BLAKE3 hash of the given bytes, as [`hash_bytes`] computes it.
pub uninterp spec fn blake3_hex(bytes: Seq<u8>) -> Seq<char>;

/// A lowercase hexadecimal digit.
pub open spec fn is_hex(c: char) -> bool {
    ('0' <= c && c <= '9') || ('a' <= c && c <= 'f')
}

/// Hex-encoded BLAKE3 hash of `bytes`: `blake3::hash` and `Hash::to_hex`. The
/// text is a function of the bytes, and it has 64 lowercase hexadecimal digits.
#[verifier::external_body]
pub fn hash_bytes(bytes: &[u8]) -> (out: String)
    ensures
        out@ == blake3_hex(bytes@),
        out@.len() == 64,
        forall|i: int| 0 <= i < 64 ==> is_hex(#[trigger] out@[i]),
{
    blake3::hash(bytes).to_hex().to_string()
}

} // verus!
