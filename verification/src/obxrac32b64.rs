//! The reference pipeline: byte transforms and the base64 text codec.

use base64::DecodeError;
use std::string::FromUtf8Error;
use vstd::prelude::*;
use vstd::utf8::{decode_utf8, encode_utf8, valid_utf8};
use crate::base64_model::{base64_decoded, base64_text, lemma_decoded_encoding};
use crate::model::{obfuscated, recovered, with_markers, without_markers, xor_with_key};
use crate::standard_engine::{base64_decode_error, standard_decode, standard_encode};
use crate::std_text::{string_from_utf8, trim_white_space, utf8_decode_error};
use crate::text_model::trimmed;

verus! {

/// The bytes of `data` in reverse order.
pub fn reverse_bytes(data: &[u8]) -> (out: Vec<u8>)
    ensures
        out@ == data@.reverse(),
{
    let n = data.len();
    let mut out: Vec<u8> = Vec::with_capacity(n);
    let mut i: usize = n;
    while i > 0
        invariant
            n == data@.len(),
            i <= n,
            out@.len() == n - i,
            forall|j: int| 0 <= j < n - i ==> out@[j] == data@[n - 1 - j],
        decreases i,
    {
        i = i - 1;
        out.push(data[i]);
    }
    assert(out@ =~= data@.reverse());
    out
}

/// `data` XOR-ed with `key` repeated cyclically; an empty key returns a copy.
pub fn xor_bytes(data: &[u8], key: &[u8]) -> (out: Vec<u8>)
    ensures
        out@ == xor_with_key(data@, key@),
{
    let n = data.len();
    let k = key.len();
    let mut out: Vec<u8> = Vec::with_capacity(n);
    let mut i: usize = 0;
    if k == 0 {
        while i < n
            invariant
                n == data@.len(),
                i <= n,
                out@ =~= data@.take(i as int),
            decreases n - i,
        {
            out.push(data[i]);
            i = i + 1;
        }
        assert(data@.take(n as int) =~= data@);
        return out;
    }
    while i < n
        invariant
            n == data@.len(),
            k == key@.len(),
            k > 0,
            i <= n,
            out@.len() == i,
            forall|j: int| 0 <= j < i ==> out@[j] == data@[j] ^ key@[j % (k as int)],
        decreases n - i,
    {
        out.push(data[i] ^ key[i % k]);
        i = i + 1;
    }
    assert(out@ =~= xor_with_key(data@, key@));
    out
}

/// Copies `data` and inserts `marker` after every complete group of
/// `group_size` bytes.
pub fn inject_markers(data: &[u8], group_size: usize, marker: &[u8]) -> (out: Vec<u8>)
    requires
        group_size > 0,
        data@.len() + (data@.len() / group_size as nat) * marker@.len() <= usize::MAX,
    ensures
        out@ == with_markers(data@, group_size as nat, marker@),
{
    let n = data.len();
    let mut out: Vec<u8> = Vec::with_capacity(n + (n / group_size) * marker.len());
    let mut i: usize = 0;
    assert(data@.skip(0) =~= data@);
    while i < n
        invariant
            n == data@.len(),
            group_size > 0,
            i <= n,
            out@ + with_markers(data@.skip(i as int), group_size as nat, marker@) == with_markers(
                data@,
                group_size as nat,
                marker@,
            ),
        decreases n - i,
    {
        let end = if n - i >= group_size {
            i + group_size
        } else {
            n
        };
        let ghost rest = data@.skip(i as int);
        out.extend_from_slice(&data[i..end]);
        if end - i == group_size {
            out.extend_from_slice(marker);
            assert(rest.take(group_size as int) =~= data@.subrange(i as int, end as int));
            assert(rest.skip(group_size as int) =~= data@.skip(end as int));
        } else {
            assert(rest =~= data@.subrange(i as int, end as int));
            assert(data@.skip(end as int) =~= Seq::<u8>::empty());
        }
        i = end;
    }
    assert(data@.skip(n as int) =~= Seq::<u8>::empty());
    assert(out@ =~= out@ + Seq::<u8>::empty());
    out
}

/// Keeps the first `group_size` bytes of every window of
/// `group_size + marker_len` bytes of `data`, dropping the rest.
pub fn strip_markers(data: &[u8], group_size: usize, marker_len: usize) -> (out: Vec<u8>)
    requires
        group_size + marker_len > 0,
        group_size + marker_len <= usize::MAX,
    ensures
        out@ == without_markers(data@, group_size as nat, marker_len as nat),
{
    let step = group_size + marker_len;
    let n = data.len();
    let mut out: Vec<u8> = Vec::new();
    let mut i: usize = 0;
    assert(data@.skip(0) =~= data@);
    while i < n
        invariant
            n == data@.len(),
            step == group_size + marker_len,
            step > 0,
            i <= n,
            out@ + without_markers(data@.skip(i as int), group_size as nat, marker_len as nat)
                == without_markers(data@, group_size as nat, marker_len as nat),
        decreases n - i,
    {
        let end = if n - i > step {
            i + step
        } else {
            n
        };
        let take = if end - i < group_size {
            end - i
        } else {
            group_size
        };
        let ghost rest = data@.skip(i as int);
        out.extend_from_slice(&data[i..i + take]);
        if end - i == step && n - i > step {
            assert(rest.take(group_size as int) =~= data@.subrange(i as int, (i + take) as int));
            assert(rest.skip(step as int) =~= data@.skip(end as int));
        } else {
            assert(rest.take(take as int) =~= data@.subrange(i as int, (i + take) as int));
            assert(rest =~= rest.take(rest.len() as int));
            assert(data@.skip(end as int) =~= Seq::<u8>::empty());
        }
        i = end;
    }
    assert(data@.skip(n as int) =~= Seq::<u8>::empty());
    assert(out@ =~= out@ + Seq::<u8>::empty());
    out
}

/// Number of text bytes between two markers.
pub const GROUP_SIZE: usize = 5;

/// The byte `$`, of which the marker is made.
pub const MARKER_BYTE: u8 = 36u8;

/// The marker written after every complete group.
pub const MARKER: [u8; 2] = [MARKER_BYTE, MARKER_BYTE];

/// Why an encoded text could not be decoded; each variant carries the
/// error behind it (`B` is the base64 codec's error type).
pub enum CodecError<B> {
    /// The trimmed text is not canonical padded standard base64.
    InvalidBase64(B),
    /// The recovered bytes are not valid UTF-8; the error holds them.
    InvalidUtf8(FromUtf8Error),
}

/// The bytes that decoding `encoded` with `key` recovers, or `None` when the
/// trimmed text is not canonical base64.
pub open spec fn unmasked(encoded: Seq<char>, key: Seq<u8>) -> Option<Seq<u8>> {
    match base64_decoded(encode_utf8(trimmed(encoded))) {
        Some(masked) => Some(recovered(masked, key)),
        None => None,
    }
}

/// The text that decoding `encoded` with `key` yields, or `None` when the
/// base64 or the UTF-8 step fails.
pub open spec fn decoded_text(encoded: Seq<char>, key: Seq<u8>) -> Option<Seq<char>> {
    match unmasked(encoded, key) {
        Some(b) => if valid_utf8(b) {
            Some(decode_utf8(b))
        } else {
            None
        },
        None => None,
    }
}

/// What decoding `encoded` with `key` yields: the text, or which step
/// failed.
pub open spec fn decode_outcome<B>(r: Result<String, CodecError<B>>, encoded: Seq<char>, key: Seq<u8>) -> bool {
    match r {
        Ok(text) => unmasked(encoded, key) matches Some(b) && valid_utf8(b) && text@
            == decode_utf8(b),
        Err(CodecError::InvalidBase64(_)) => unmasked(encoded, key) is None,
        Err(CodecError::InvalidUtf8(_)) => unmasked(encoded, key) matches Some(b) && !valid_utf8(
            b,
        ),
    }
}

/// Obfuscates `text` with `secret_key`.
pub fn encode(text: &str, secret_key: &str) -> (encoded: String)
    requires
        encode_utf8(text@).len() + (encode_utf8(text@).len() / 5) * 2 <= usize::MAX,
    ensures
        encoded@ == base64_text(obfuscated(encode_utf8(text@), encode_utf8(secret_key@))),
{
    let reversed = reverse_bytes(text.as_bytes());
    let marked = inject_markers(&reversed, GROUP_SIZE, MARKER.as_slice());
    let encrypted = xor_bytes(&marked, secret_key.as_bytes());
    standard_encode(&encrypted)
}

/// Recovers the text that `encode` obfuscated with `secret_key`;
/// surrounding white space of `encoded` is ignored. An error carries the
/// base64 or UTF-8 error behind it.
pub fn decode(encoded: &str, secret_key: &str) -> (r: Result<String, CodecError<DecodeError>>)
    ensures
        decode_outcome(r, encoded@, encode_utf8(secret_key@)),
        r matches Err(CodecError::InvalidBase64(e)) ==> e == base64_decode_error(
            encode_utf8(trimmed(encoded@)),
        ),
        r matches Err(CodecError::InvalidUtf8(e)) ==> e == utf8_decode_error(
            unmasked(encoded@, encode_utf8(secret_key@)).unwrap(),
        ),
{
    let trimmed_text = trim_white_space(encoded);
    let decoded_bytes = match standard_decode(trimmed_text.as_bytes()) {
        Ok(bytes) => bytes,
        Err(e) => {
            return Err(CodecError::InvalidBase64(e));
        },
    };
    proof {
        lemma_decoded_encoding(decoded_bytes@, encode_utf8(trimmed(encoded@)));
    }
    let decrypted = xor_bytes(&decoded_bytes, secret_key.as_bytes());
    let stripped = strip_markers(&decrypted, GROUP_SIZE, MARKER.len());
    let original_bytes = reverse_bytes(&stripped);
    match string_from_utf8(original_bytes) {
        Ok(text) => Ok(text),
        Err(e) => Err(CodecError::InvalidUtf8(e)),
    }
}

} // verus!
