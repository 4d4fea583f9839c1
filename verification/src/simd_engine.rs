//! The `base64_simd` crate's `STANDARD` codec (padded standard alphabet).

use base64_simd::Error;
use vstd::prelude::*;
use crate::base64_model::{base64_encoding, base64_text, is_base64_encoding};

verus! {

#[verifier::external_type_specification]
#[verifier::external_body]
pub struct ExSimdError(Error);

/// Calls `Base64::encode_to_string` of `base64_simd::STANDARD`. Trusted: the
/// text is the padded standard base64 encoding of `data` (RFC 4648).
#[verifier::external_body]
pub(crate) fn simd_encode(data: &[u8]) -> (text: String)
    ensures
        text@ == base64_text(data@),
{
    base64_simd::STANDARD.encode_to_string(data)
}

/// Calls `Base64::decode_to_vec` of `base64_simd::STANDARD`. Trusted: it
/// succeeds exactly on canonical padded encodings (length a multiple of
/// four, at most two trailing `=`, alphabet symbols elsewhere, unused low
/// bits of the last symbol zero), and then returns the encoded bytes.
#[verifier::external_body]
pub(crate) fn simd_decode(encoded: &[u8]) -> (r: Result<Vec<u8>, Error>)
    ensures
        r is Ok <==> is_base64_encoding(encoded@),
        r matches Ok(data) ==> base64_encoding(data@) == encoded@,
{
    base64_simd::STANDARD.decode_to_vec(encoded)
}

} // verus!
