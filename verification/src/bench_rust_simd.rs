//! The pipeline with the `base64_simd` codec, and the benchmark input
//! generator.

use base64_simd::Error;
use vstd::prelude::*;
use vstd::utf8::encode_utf8;
use crate::base64_model::base64_text;
use crate::model::obfuscated;
use crate::obxrac32b64::{decode_outcome, unmasked, CodecError, GROUP_SIZE, MARKER};
use crate::simd_engine::{simd_decode, simd_encode};
use crate::std_text::{string_from_utf8, trim_white_space, utf8_decode_error};
use crate::text_model::trimmed;
use crate::base64_model::lemma_decoded_encoding;

pub use crate::obxrac32b64::{inject_markers, reverse_bytes, strip_markers, xor_bytes};

verus! {

/// The text that benchmark inputs repeat.
pub open spec fn bench_pattern() -> Seq<char> {
    "The quick brown fox jumps over the lazy dog. Pack my box with five dozen liquor jugs 0123456789 ABCDEFGHIJKLMNOPQRSTUVWXYZ"@
}

/// Obfuscates `text` with `secret_key`, writing base64 with `base64_simd`.
pub fn encode(text: &str, secret_key: &str) -> (encoded: String)
    requires
        encode_utf8(text@).len() + (encode_utf8(text@).len() / 5) * 2 <= usize::MAX,
    ensures
        encoded@ == base64_text(obfuscated(encode_utf8(text@), encode_utf8(secret_key@))),
{
    let mut res = reverse_bytes(text.as_bytes());
    res = inject_markers(&res, GROUP_SIZE, MARKER.as_slice());
    res = xor_bytes(&res, secret_key.as_bytes());
    simd_encode(&res)
}

/// Recovers the text that `encode` obfuscated with `secret_key`, reading
/// base64 with `base64_simd`; an error carries the base64 or UTF-8 error
/// behind it.
pub fn decode(encoded: &str, secret_key: &str) -> (r: Result<String, CodecError<Error>>)
    ensures
        decode_outcome(r, encoded@, encode_utf8(secret_key@)),
        r matches Err(CodecError::InvalidUtf8(e)) ==> e == utf8_decode_error(
            unmasked(encoded@, encode_utf8(secret_key@)).unwrap(),
        ),
{
    let trimmed_text = trim_white_space(encoded);
    let mut res = match simd_decode(trimmed_text.as_bytes()) {
        Ok(bytes) => bytes,
        Err(e) => {
            return Err(CodecError::InvalidBase64(e));
        },
    };
    proof {
        lemma_decoded_encoding(res@, encode_utf8(trimmed(encoded@)));
    }
    res = xor_bytes(&res, secret_key.as_bytes());
    res = strip_markers(&res, GROUP_SIZE, MARKER.len());
    res = reverse_bytes(&res);
    match string_from_utf8(res) {
        Ok(text) => Ok(text),
        Err(e) => Err(CodecError::InvalidUtf8(e)),
    }
}

/// A benchmark input of `bytes` characters: the pattern text repeated and
/// cut to length.
pub fn gen_data(bytes: usize) -> (out: String)
    ensures
        out@ == Seq::new(bytes as nat, |i: int| bench_pattern()[i % (bench_pattern().len() as int)]),
{
    let pattern = "The quick brown fox jumps over the lazy dog. Pack my box with five dozen liquor jugs 0123456789 ABCDEFGHIJKLMNOPQRSTUVWXYZ";
    proof {
        reveal_strlit("The quick brown fox jumps over the lazy dog. Pack my box with five dozen liquor jugs 0123456789 ABCDEFGHIJKLMNOPQRSTUVWXYZ");
    }
    let plen = pattern.unicode_len();
    assert(pattern.is_ascii());
    let mut out = String::new();
    let mut len: usize = 0;
    let ghost mut rounds: int = 0;
    while len < bytes
        invariant
            pattern@ == bench_pattern(),
            pattern.is_ascii(),
            plen == pattern@.len(),
            plen > 0,
            len <= bytes,
            out@.len() == len,
            len == rounds * plen || len == bytes,
            rounds >= 0,
            forall|i: int| 0 <= i < len ==> #[trigger] out@[i] == pattern@[i % (plen as int)],
        decreases bytes - len,
    {
        let take = if bytes - len < plen {
            bytes - len
        } else {
            plen
        };
        let ghost before = out@;
        out.append(pattern.substring_ascii(0, take));
        proof {
            assert forall|i: int| 0 <= i < len + take implies #[trigger] out@[i] == pattern@[i % (
            plen as int)] by {
                if i >= len {
                    vstd::arithmetic::div_mod::lemma_mod_multiples_vanish(
                        rounds,
                        i - len,
                        plen as int,
                    );
                    vstd::arithmetic::div_mod::lemma_small_mod((i - len) as nat, plen as nat);
                    assert(len == plen * rounds) by (nonlinear_arith)
                        requires
                            len == rounds * plen,
                    ;
                } else {
                    assert(out@[i] == before[i]);
                }
            }
            assert((rounds + 1) * plen == rounds * plen + plen) by (nonlinear_arith);
            rounds = rounds + 1;
        }
        len = len + take;
    }
    assert(out@ =~= Seq::new(bytes as nat, |i: int| bench_pattern()[i % (bench_pattern().len() as int)]));
    out
}

} // verus!
