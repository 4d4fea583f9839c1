//! The few `std` text operations that vstd leaves unspecified.

use std::string::FromUtf8Error;
use vstd::prelude::*;
use vstd::string::to_string_from_display_ensures;
use vstd::utf8::{decode_utf8, valid_utf8};
use crate::text_model::trimmed;

verus! {

#[verifier::external_type_specification]
#[verifier::external_body]
pub struct ExFromUtf8Error(FromUtf8Error);

/// The error that `String::from_utf8` reports for bytes that are not
/// UTF-8; it depends on the bytes alone.
pub uninterp spec fn utf8_decode_error(bytes: Seq<u8>) -> FromUtf8Error;

/// `message` is the `Display` text of the error that converting `bytes`
/// reports.
pub open spec fn is_utf8_error_text(bytes: Seq<u8>, message: String) -> bool {
    to_string_from_display_ensures::<FromUtf8Error>(&utf8_decode_error(bytes), message)
}

/// Calls `str::trim`. Trusted: the result is `s` without leading and
/// trailing characters that have the Unicode `White_Space` property, as the
/// `std` documentation of `trim` and `char::is_whitespace` describes.
#[verifier::external_body]
pub(crate) fn trim_white_space(s: &str) -> (t: &str)
    ensures
        t@ == trimmed(s@),
{
    s.trim()
}

/// Calls `String::from_utf8`. Trusted: it succeeds exactly on valid UTF-8,
/// and then holds the characters that the bytes encode; the error it
/// reports otherwise (which carries the bytes and the position of the
/// first invalid sequence) is named, as a function of the bytes, by
/// `utf8_decode_error`.
#[verifier::external_body]
pub(crate) fn string_from_utf8(bytes: Vec<u8>) -> (r: Result<String, FromUtf8Error>)
    ensures
        r is Ok <==> valid_utf8(bytes@),
        r matches Ok(s) ==> s@ == decode_utf8(bytes@),
        r matches Err(e) ==> e == utf8_decode_error(bytes@),
{
    String::from_utf8(bytes)
}

} // verus!
