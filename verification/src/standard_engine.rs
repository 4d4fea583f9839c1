//! The `base64` crate's `STANDARD` engine (padded standard alphabet).

use base64::Engine;
use base64::DecodeError;
use vstd::prelude::*;
use vstd::string::to_string_from_display_ensures;
use crate::base64_model::{base64_encoding, base64_text, is_base64_encoding};

verus! {

#[verifier::external_type_specification]
#[verifier::external_body]
pub struct ExDecodeError(DecodeError);

/// The error that the `STANDARD` engine reports for a text it refuses; it
/// depends on the text alone.
pub uninterp spec fn base64_decode_error(encoded: Seq<u8>) -> DecodeError;

/// `message` is the `Display` text of the error that decoding `encoded`
/// reports.
pub open spec fn is_base64_error_text(encoded: Seq<u8>, message: String) -> bool {
    to_string_from_display_ensures::<DecodeError>(&base64_decode_error(encoded), message)
}

/// Calls `Engine::encode` of `base64::engine::general_purpose::STANDARD`.
/// Trusted: the text is the padded standard base64 encoding of `data`
/// (RFC 4648; the engine writes four symbols per three bytes and pads with
/// `=`).
#[verifier::external_body]
pub(crate) fn standard_encode(data: &[u8]) -> (text: String)
    ensures
        text@ == base64_text(data@),
{
    base64::engine::general_purpose::STANDARD.encode(data)
}

/// Calls `Engine::decode` of `base64::engine::general_purpose::STANDARD`.
/// Trusted: with canonical padding required and trailing bits refused (the
/// engine's configuration), it succeeds exactly on the canonical encodings,
/// and then returns the encoded bytes. The error it reports is named, as a
/// function of the input, by `base64_decode_error`; which variant it is is
/// not stated.
#[verifier::external_body]
pub(crate) fn standard_decode(encoded: &[u8]) -> (r: Result<Vec<u8>, DecodeError>)
    ensures
        r is Ok <==> is_base64_encoding(encoded@),
        r matches Ok(data) ==> base64_encoding(data@) == encoded@,
        r matches Err(e) ==> e == base64_decode_error(encoded@),
{
    base64::engine::general_purpose::STANDARD.decode(encoded)
}

} // verus!
