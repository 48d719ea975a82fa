//! The two places where bytes meet Rust strings.

use vstd::prelude::*;
use vstd::utf8::{decode_utf8, valid_utf8};

verus! {

/// The characters that a lossy reading of `bytes` as UTF-8 gives.
pub uninterp spec fn lossy_decoded(bytes: Seq<u8>) -> Seq<char>;

/// Reads bytes as UTF-8, by `String::from_utf8_lossy`.
///
/// The contract takes from the standard library's documentation that the
/// result depends on the bytes alone, and that valid UTF-8 is read as it is.
/// What stands in place of an invalid sequence is not stated here.
#[verifier::external_body]
pub(crate) fn lossy_string(bytes: &[u8]) -> (s: String)
    ensures
        s@ == lossy_decoded(bytes@),
        valid_utf8(bytes@) ==> s@ == decode_utf8(bytes@),
{
    String::from_utf8_lossy(bytes).into_owned()
}

/// Tests whether bytes are valid UTF-8, by `std::str::from_utf8`.
///
/// The contract takes from the standard library's documentation that the call
/// succeeds exactly on valid UTF-8.
#[verifier::external_body]
pub(crate) fn is_utf8(bytes: &[u8]) -> (r: bool)
    ensures
        r == valid_utf8(bytes@),
{
    match std::str::from_utf8(bytes) {
        Ok(_) => true,
        Err(_) => false,
    }
}

} // verus!
