//! SHA-256 over bytes, as lower-case hexadecimal.
//!
//! The hash itself is computed by the `sha2` crate; what it returns for given bytes is
//! named here rather than restated, and only the shape of the text is promised.

use vstd::prelude::*;

verus! {

/// The lower-case hexadecimal SHA-256 digest of a byte sequence.
pub uninterp spec fn sha256_hex(bytes: Seq<u8>) -> Seq<char>;

/// A lower-case hexadecimal digit.
pub open spec fn is_lower_hex(c: char) -> bool {
    ('0' <= c && c <= '9') || ('a' <= c && c <= 'f')
}

/// Sixty-four lower-case hexadecimal digits: the shape of a SHA-256 digest.
pub open spec fn is_sha256_text(text: Seq<char>) -> bool {
    text.len() == 64 && forall|i: int| 0 <= i < text.len() ==> is_lower_hex(#[trigger] text[i])
}

/// Hashes bytes with `sha2::Sha256` and formats the 32-byte output with its `LowerHex`
/// impl (from `generic-array`).
///
/// Claimed: the result is a function of the bytes alone, and it is two lower-case
/// hexadecimal digits per output byte, sixty-four in all. Which digits they are is not
/// stated: that is the hash function.
#[verifier::external_body]
pub(crate) fn sha256_text(bytes: &[u8]) -> (hex: String)
    ensures
        hex@ == sha256_hex(bytes@),
        is_sha256_text(hex@),
{
    format!("{:x}", <sha2::Sha256 as sha2::Digest>::digest(bytes))
}

} // verus!
