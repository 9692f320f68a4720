//! Turning bytes into text.

use vstd::prelude::*;
use vstd::utf8::decode_utf8;
use vstd::utf8::valid_utf8;

verus! {

/// What `String::from_utf8_lossy` makes of a byte sequence.
pub uninterp spec fn spec_utf8_lossy(bytes: Seq<u8>) -> Seq<char>;

/// Decodes `bytes` as UTF-8 with `String::from_utf8_lossy`.
///
/// The contract names the result `spec_utf8_lossy(bytes)` and states the one
/// fact the standard library documents plainly: on valid UTF-8 the text is
/// exactly the decoded characters. What replacement characters appear for
/// invalid input is left unsaid.
#[verifier::external_body]
pub fn utf8_lossy(bytes: &[u8]) -> (s: String)
    ensures
        s@ == spec_utf8_lossy(bytes@),
        valid_utf8(bytes@) ==> s@ == decode_utf8(bytes@),
{
    String::from_utf8_lossy(bytes).into_owned()
}

/// Checks `bytes` with `std::str::from_utf8`.
///
/// The contract claims what the standard library documents: the call
/// succeeds exactly when the bytes are valid UTF-8.
#[verifier::external_body]
pub fn utf8_valid(bytes: &[u8]) -> (r: bool)
    ensures
        r == valid_utf8(bytes@),
{
    std::str::from_utf8(bytes).is_ok()
}

} // verus!
