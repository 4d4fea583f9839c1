//! Laws that relate the operations of the library to each other.

use vstd::prelude::*;
use vstd::utf8::{encode_utf8, encode_utf8_decode_utf8, encode_utf8_valid_utf8};
use crate::base64_model::{
    base64_decoded,
    base64_encoding,
    base64_text,
    lemma_decoded_encoding,
    lemma_encoding_symbols,
};
use crate::model::{
    lemma_obfuscated_len,
    lemma_obfuscated_masks,
    lemma_recovered_obfuscated,
    lemma_xor_doubled_key,
    obfuscated,
    xor_with_key,
};
use crate::obxrac32b64::{decode_outcome, decoded_text, unmasked, CodecError};
use crate::text_model::{all_white_space, lemma_base64_text, lemma_trimmed_surrounded};

verus! {

/// Decoding, with the same key, what encoding a text wrote yields that text.
pub proof fn law_round_trip(text: Seq<char>, key: Seq<char>)
    ensures
        decoded_text(base64_text(obfuscated(encode_utf8(text), encode_utf8(key))), encode_utf8(key))
            == Some(text),
{
    let k = encode_utf8(key);
    let masked = obfuscated(encode_utf8(text), k);
    lemma_base64_text(masked);
    lemma_decoded_encoding(masked, base64_encoding(masked));
    lemma_recovered_obfuscated(encode_utf8(text), k);
    encode_utf8_valid_utf8(text);
    encode_utf8_decode_utf8(text);
}

/// Decoding, with the same key, the text that `encode` produced gives the
/// original text back: whatever `decode` may return on that input by its
/// contract is `Ok` of the original text.
pub proof fn law_decode_inverts_encode<B>(
    text: Seq<char>,
    key: Seq<char>,
    r: Result<String, CodecError<B>>,
)
    requires
        decode_outcome(r, base64_text(obfuscated(encode_utf8(text), encode_utf8(key))), encode_utf8(key)),
    ensures
        r matches Ok(t) && t@ == text,
{
    law_round_trip(text, key);
}

/// White space before and after any encoded text changes nothing of what
/// decoding it yields.
pub proof fn law_decode_ignores_surrounding_white_space(
    encoded: Seq<char>,
    pre: Seq<char>,
    post: Seq<char>,
    key: Seq<u8>,
)
    requires
        all_white_space(pre),
        all_white_space(post),
    ensures
        unmasked(pre + encoded + post, key) == unmasked(encoded, key),
        decoded_text(pre + encoded + post, key) == decoded_text(encoded, key),
{
    lemma_trimmed_surrounded(pre, encoded, post);
}

/// The length of an encoded text depends on the byte length `n` of the
/// text alone: four symbols for every started group of three among the
/// `n + 2 * (n / 5)` masked bytes.
pub proof fn law_encoded_length(text: Seq<char>, key: Seq<char>)
    ensures
        base64_text(obfuscated(encode_utf8(text), encode_utf8(key))).len() == 4 * ((
        encode_utf8(text).len() + (encode_utf8(text).len() / 5) * 2 + 2) / 3),
{
    let masked = obfuscated(encode_utf8(text), encode_utf8(key));
    lemma_obfuscated_len(encode_utf8(text), encode_utf8(key));
    lemma_encoding_symbols(masked);
}

proof fn lemma_utf8_concat(a: Seq<char>, b: Seq<char>)
    ensures
        encode_utf8(a + b) == encode_utf8(a) + encode_utf8(b),
    decreases a.len(),
{
    if a.len() == 0 {
        assert(a + b =~= b);
        assert(encode_utf8(a) + encode_utf8(b) =~= encode_utf8(b));
    } else {
        assert((a + b)[0] == a[0]);
        assert((a + b).drop_first() =~= a.drop_first() + b);
        lemma_utf8_concat(a.drop_first(), b);
        assert(encode_utf8(a + b) =~= encode_utf8(a) + encode_utf8(b));
    }
}

/// A key written twice encodes every text as the key itself does.
pub proof fn law_doubled_key(text: Seq<char>, key: Seq<char>)
    requires
        key.len() > 0,
    ensures
        base64_text(obfuscated(encode_utf8(text), encode_utf8(key + key))) == base64_text(
            obfuscated(encode_utf8(text), encode_utf8(key)),
        ),
{
    lemma_utf8_concat(key, key);
    assert(encode_utf8(key) == vstd::utf8::encode_scalar(key[0] as u32) + encode_utf8(
        key.drop_first(),
    ));
    let t = encode_utf8(text);
    let k = encode_utf8(key);
    lemma_obfuscated_masks(t, k + k);
    lemma_obfuscated_masks(t, k);
    lemma_xor_doubled_key(obfuscated(t, Seq::empty()), k);
}

/// The key acts only by masking: the bytes that an encoding with a key
/// holds are those of the encoding with no key, XOR-ed with the key.
pub proof fn law_key_masks_stream(text: Seq<char>, key: Seq<char>)
    ensures
        base64_decoded(base64_encoding(obfuscated(encode_utf8(text), encode_utf8(key))))
            == Some(
            xor_with_key(
                base64_decoded(
                    base64_encoding(obfuscated(encode_utf8(text), encode_utf8(Seq::empty()))),
                ).unwrap(),
                encode_utf8(key),
            ),
        ),
{
    let t = encode_utf8(text);
    assert(encode_utf8(Seq::<char>::empty()) =~= Seq::<u8>::empty());
    let plain = obfuscated(t, Seq::empty());
    let masked = obfuscated(t, encode_utf8(key));
    lemma_decoded_encoding(plain, base64_encoding(plain));
    lemma_decoded_encoding(masked, base64_encoding(masked));
    lemma_obfuscated_masks(t, encode_utf8(key));
}

} // verus!
