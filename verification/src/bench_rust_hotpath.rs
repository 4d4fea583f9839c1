//! The pipeline written as steps that fill caller-provided buffers.

use base64::DecodeError;
use vstd::prelude::*;
use vstd::utf8::{encode_utf8, valid_utf8};
use crate::base64_model::{base64_encoding, base64_text, is_base64_encoding, lemma_decoded_encoding};
use crate::model::{
    lemma_next_key_index,
    marker_bytes,
    obfuscated,
    with_markers,
    without_markers,
    xor_with_key,
};
use crate::obxrac32b64::{decoded_text, unmasked, GROUP_SIZE, MARKER};
use crate::standard_engine::{
    base64_decode_error,
    is_base64_error_text,
    standard_decode,
    standard_encode,
};
use crate::std_text::{is_utf8_error_text, string_from_utf8, trim_white_space};
use crate::text_model::trimmed;

pub use crate::bench_rust_simd::gen_data;

verus! {

/// Replaces the contents of `out` with the bytes of `data` in reverse order.
pub fn step_reverse_bytes(data: &[u8], out: &mut Vec<u8>)
    ensures
        final(out)@ == data@.reverse(),
{
    out.clear();
    let n = data.len();
    let mut i: usize = n;
    while i > 0
        invariant
            n == data@.len(),
            i <= n,
            out@.len() == n - i,
            forall|j: int| 0 <= j < n - i ==> out@[j] == data@[n - 1 - j],
        decreases i,
    {
        i = i - 1;
        out.push(data[i]);
    }
    assert(out@ =~= data@.reverse());
}

/// Replaces the contents of `out` with `data` marked by `$$` after every
/// complete group of five bytes.
pub fn step_inject_markers(data: &[u8], out: &mut Vec<u8>)
    requires
        data@.len() + (data@.len() / 5) * 2 <= usize::MAX,
    ensures
        final(out)@ == with_markers(data@, 5, marker_bytes()),
{
    out.clear();
    out.reserve(data.len() + (data.len() / GROUP_SIZE) * MARKER.len());
    let n = data.len();
    let mut i: usize = 0;
    assert(data@.skip(0) =~= data@);
    assert(out@ =~= Seq::<u8>::empty());
    while i < n
        invariant
            n == data@.len(),
            i <= n,
            out@ + with_markers(data@.skip(i as int), 5, marker_bytes()) == with_markers(
                data@,
                5,
                marker_bytes(),
            ),
        decreases n - i,
    {
        let end = if n - i >= GROUP_SIZE {
            i + GROUP_SIZE
        } else {
            n
        };
        let ghost rest = data@.skip(i as int);
        out.extend_from_slice(&data[i..end]);
        if end - i == GROUP_SIZE {
            out.extend_from_slice(MARKER.as_slice());
            assert(rest.take(5) =~= data@.subrange(i as int, end as int));
            assert(rest.skip(5) =~= data@.skip(end as int));
        } else {
            assert(rest =~= data@.subrange(i as int, end as int));
            assert(data@.skip(end as int) =~= Seq::<u8>::empty());
        }
        i = end;
    }
    assert(data@.skip(n as int) =~= Seq::<u8>::empty());
    assert(out@ =~= out@ + Seq::<u8>::empty());
}

/// Replaces the contents of `out` with `data` XOR-ed with `key` repeated
/// cyclically; an empty key copies `data`.
pub fn step_xor(data: &[u8], key: &[u8], out: &mut Vec<u8>)
    ensures
        final(out)@ == xor_with_key(data@, key@),
{
    out.clear();
    out.reserve(data.len());
    if key.len() == 0 {
        out.extend_from_slice(data);
        assert(out@ =~= data@);
        return;
    }
    let n = data.len();
    let k = key.len();
    let mut ki: usize = 0;
    let mut i: usize = 0;
    while i < n
        invariant
            n == data@.len(),
            k == key@.len(),
            k > 0,
            i <= n,
            out@.len() == i,
            ki == (i as int) % (k as int),
            forall|j: int| 0 <= j < i ==> out@[j] == data@[j] ^ key@[j % (k as int)],
        decreases n - i,
    {
        proof {
            lemma_next_key_index(i as int, k as int, ki as int);
        }
        out.push(data[i] ^ key[ki]);
        ki = ki + 1;
        if ki == k {
            ki = 0;
            proof {
                vstd::arithmetic::div_mod::lemma_mod_self_0(k as int);
            }
        } else {
            proof {
                vstd::arithmetic::div_mod::lemma_small_mod(ki as nat, k as nat);
            }
        }
        i = i + 1;
    }
    assert(out@ =~= xor_with_key(data@, key@));
}

/// Writes `data` in padded standard base64.
pub fn step_base64_encode(data: &[u8]) -> (text: String)
    ensures
        text@ == base64_text(data@),
{
    standard_encode(data)
}

/// Reads padded standard base64: succeeds exactly on canonical encodings,
/// with the bytes they encode.
pub fn step_base64_decode(data: &[u8]) -> (r: Result<Vec<u8>, DecodeError>)
    ensures
        r is Ok <==> is_base64_encoding(data@),
        r matches Ok(bytes) ==> base64_encoding(bytes@) == data@,
        r matches Err(e) ==> e == base64_decode_error(data@),
{
    standard_decode(data)
}

/// Replaces the contents of `out` with the first five bytes of every window
/// of seven bytes of `data`.
pub fn step_strip_markers(data: &[u8], out: &mut Vec<u8>)
    ensures
        final(out)@ == without_markers(data@, 5, 2),
{
    out.clear();
    let step = GROUP_SIZE + MARKER.len();
    let n = data.len();
    let mut i: usize = 0;
    assert(data@.skip(0) =~= data@);
    assert(out@ =~= Seq::<u8>::empty());
    while i < n
        invariant
            n == data@.len(),
            step == 7,
            i <= n,
            out@ + without_markers(data@.skip(i as int), 5, 2) == without_markers(data@, 5, 2),
        decreases n - i,
    {
        let end = if n - i > step {
            i + step
        } else {
            n
        };
        let take = if end - i < GROUP_SIZE {
            end - i
        } else {
            GROUP_SIZE
        };
        let ghost rest = data@.skip(i as int);
        out.extend_from_slice(&data[i..i + take]);
        if n - i > step {
            assert(rest.take(5) =~= data@.subrange(i as int, (i + take) as int));
            assert(rest.skip(7) =~= data@.skip(end as int));
        } else {
            assert(rest.take(take as int) =~= data@.subrange(i as int, (i + take) as int));
            assert(rest =~= rest.take(rest.len() as int));
            assert(data@.skip(end as int) =~= Seq::<u8>::empty());
        }
        i = end;
    }
    assert(data@.skip(n as int) =~= Seq::<u8>::empty());
    assert(out@ =~= out@ + Seq::<u8>::empty());
}

/// Obfuscates `text` with `secret_key` through the buffer-filling steps.
pub fn module_encode(text: &str, secret_key: &str) -> (encoded: String)
    requires
        encode_utf8(text@).len() + (encode_utf8(text@).len() / 5) * 2 <= usize::MAX,
    ensures
        encoded@ == base64_text(obfuscated(encode_utf8(text@), encode_utf8(secret_key@))),
{
    let mut reversed: Vec<u8> = Vec::with_capacity(text.len());
    step_reverse_bytes(text.as_bytes(), &mut reversed);

    let mut marked: Vec<u8> = Vec::with_capacity(reversed.len() + reversed.len() / GROUP_SIZE);
    step_inject_markers(&reversed, &mut marked);

    let mut xored: Vec<u8> = Vec::with_capacity(marked.len());
    step_xor(&marked, secret_key.as_bytes(), &mut xored);

    step_base64_encode(&xored)
}

/// Recovers the text that `module_encode` obfuscated with `secret_key`; on
/// failure the error is the message of the base64 or of the UTF-8 error.
pub fn module_decode(encoded: &str, secret_key: &str) -> (r: Result<String, String>)
    ensures
        match r {
            Ok(text) => decoded_text(encoded@, encode_utf8(secret_key@)) == Some(text@),
            Err(message) => {
                ||| unmasked(encoded@, encode_utf8(secret_key@)) is None && is_base64_error_text(
                    encode_utf8(trimmed(encoded@)),
                    message,
                )
                ||| unmasked(encoded@, encode_utf8(secret_key@)) matches Some(b) && !valid_utf8(b)
                    && is_utf8_error_text(b, message)
            },
        },
{
    let trimmed_text = trim_white_space(encoded);
    let decoded_bytes = match step_base64_decode(trimmed_text.as_bytes()) {
        Ok(bytes) => bytes,
        Err(e) => {
            return Err(e.to_string());
        },
    };
    proof {
        lemma_decoded_encoding(decoded_bytes@, encode_utf8(trimmed(encoded@)));
    }

    let mut xored: Vec<u8> = Vec::with_capacity(decoded_bytes.len());
    step_xor(&decoded_bytes, secret_key.as_bytes(), &mut xored);

    let mut stripped: Vec<u8> = Vec::with_capacity(xored.len());
    step_strip_markers(&xored, &mut stripped);

    let mut reversed: Vec<u8> = Vec::with_capacity(stripped.len());
    step_reverse_bytes(&stripped, &mut reversed);

    match string_from_utf8(reversed) {
        Ok(text) => Ok(text),
        Err(e) => Err(e.to_string()),
    }
}

/// Obfuscates `text` with `secret_key`; the same as `module_encode`.
pub fn encode(text: &str, secret_key: &str) -> (encoded: String)
    requires
        encode_utf8(text@).len() + (encode_utf8(text@).len() / 5) * 2 <= usize::MAX,
    ensures
        encoded@ == base64_text(obfuscated(encode_utf8(text@), encode_utf8(secret_key@))),
{
    module_encode(text, secret_key)
}

/// Recovers an obfuscated text; the same as `module_decode`.
pub fn decode(encoded: &str, secret_key: &str) -> (r: Result<String, String>)
    ensures
        match r {
            Ok(text) => decoded_text(encoded@, encode_utf8(secret_key@)) == Some(text@),
            Err(message) => {
                ||| unmasked(encoded@, encode_utf8(secret_key@)) is None && is_base64_error_text(
                    encode_utf8(trimmed(encoded@)),
                    message,
                )
                ||| unmasked(encoded@, encode_utf8(secret_key@)) matches Some(b) && !valid_utf8(b)
                    && is_utf8_error_text(b, message)
            },
        },
{
    module_decode(encoded, secret_key)
}

} // verus!
