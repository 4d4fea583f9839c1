//! A single-pass variant of the encoder: reversal, marking and masking are
//! fused into one loop over the text.

use vstd::prelude::*;
use vstd::utf8::encode_utf8;
use crate::base64_model::base64_text;
use crate::model::{lemma_next_key_index, marker_bytes, obfuscated, with_markers, xor_with_key};
use crate::obxrac32b64::{GROUP_SIZE, MARKER, MARKER_BYTE};
use crate::standard_engine::standard_encode;

pub use crate::obxrac32b64::{decode, inject_markers, reverse_bytes, strip_markers, xor_bytes};

verus! {

proof fn lemma_utf8_nonempty(s: Seq<char>)
    requires
        s.len() > 0,
    ensures
        encode_utf8(s).len() > 0,
{
    assert(encode_utf8(s) == vstd::utf8::encode_scalar(s[0] as u32) + encode_utf8(
        s.drop_first(),
    ));
}

/// Obfuscates `text` with `secret_key` in one pass: the text is walked from
/// its end in groups of five bytes, each byte is masked as it is written,
/// and the masked marker follows every complete group. The key must not be
/// empty unless the text is.
pub fn encode(text: &str, secret_key: &str) -> (encoded: String)
    requires
        encode_utf8(text@).len() + (encode_utf8(text@).len() / 5) * 2 <= usize::MAX,
        secret_key@.len() > 0 || text@.len() == 0,
    ensures
        encoded@ == base64_text(obfuscated(encode_utf8(text@), encode_utf8(secret_key@))),
{
    let src = text.as_bytes();
    let n = src.len();
    let key = secret_key.as_bytes();
    let key_len = key.len();
    proof {
        if secret_key@.len() > 0 {
            lemma_utf8_nonempty(secret_key@);
        }
        if text@.len() == 0 {
            assert(encode_utf8(text@) =~= Seq::<u8>::empty());
        }
    }
    let full_groups = n / GROUP_SIZE;
    let out_len = n + full_groups * MARKER.len();
    let mut middle: Vec<u8> = Vec::with_capacity(out_len);
    let ghost rev = src@.reverse();
    let ghost marked = with_markers(rev, 5, marker_bytes());

    let mut i: usize = n;
    let mut ki: usize = 0;
    assert(rev.skip(0) =~= rev);
    assert(marked.take(0) + marked =~= marked);
    while i > 0
        invariant
            n == src@.len(),
            key_len == key@.len(),
            n > 0 ==> key_len > 0,
            i <= n,
            rev == src@.reverse(),
            marked == with_markers(rev, 5, marker_bytes()),
            marked == marked.take(middle@.len() as int) + with_markers(
                rev.skip(n - i),
                5,
                marker_bytes(),
            ),
            middle@.len() <= marked.len(),
            forall|p: int|
                0 <= p < middle@.len() ==> #[trigger] middle@[p] == marked[p] ^ key@[p % (
                key_len as int)],
            key_len > 0 ==> ki == (middle@.len() as int) % (key_len as int),
        decreases i,
    {
        let start = if i >= GROUP_SIZE {
            i - GROUP_SIZE
        } else {
            0
        };
        let cnt = i - start;
        let ghost j = n - i;
        let ghost l0 = middle@.len() as int;
        let ghost rest = rev.skip(j);
        let ghost w = with_markers(rest, 5, marker_bytes());
        proof {
            assert(marked.take(l0).len() == l0);
            assert forall|q: int| 0 <= q < cnt implies #[trigger] marked[l0 + q] == src@[i - 1
                - q] by {
                assert(marked[l0 + q] == w[q]);
                if cnt == 5 {
                    assert(w[q] == rest[q]);
                }
                assert(rest[q] == rev[j + q]);
            }
            if cnt == 5 {
                assert(marked[l0 + 5] == w[5]);
                assert(marked[l0 + 6] == w[6]);
                assert(rest.skip(5) =~= rev.skip(j + 5));
                assert(marked =~= marked.take(l0 + 7) + with_markers(
                    rev.skip(j + 5),
                    5,
                    marker_bytes(),
                ));
            } else {
                assert(rev.skip(n as int) =~= Seq::<u8>::empty());
                assert(w =~= rest);
                assert(marked =~= marked.take(l0 + cnt) + with_markers(
                    rev.skip(n as int),
                    5,
                    marker_bytes(),
                ));
            }
        }
        let mut r = cnt;
        while r > 0
            invariant
                key_len == key@.len(),
                key_len > 0,
                n == src@.len(),
                start + cnt == i,
                i <= n,
                r <= cnt,
                cnt <= 5,
                middle@.len() == l0 + (cnt - r),
                l0 + cnt <= marked.len(),
                forall|q: int| 0 <= q < cnt ==> #[trigger] marked[l0 + q] == src@[i - 1 - q],
                forall|p: int|
                    0 <= p < middle@.len() ==> #[trigger] middle@[p] == marked[p] ^ key@[p % (
                    key_len as int)],
                ki == (middle@.len() as int) % (key_len as int),
            decreases r,
        {
            r = r - 1;
            proof {
                lemma_next_key_index(middle@.len() as int, key_len as int, ki as int);
                assert(marked[l0 + (cnt - 1 - r)] == src@[i - 1 - (cnt - 1 - r)]);
            }
            middle.push(src[start + r] ^ key[ki]);
            ki = (ki + 1) % key_len;
        }
        i = start;
        if cnt == GROUP_SIZE {
            proof {
                lemma_next_key_index(middle@.len() as int, key_len as int, ki as int);
            }
            middle.push(MARKER_BYTE ^ key[ki]);
            ki = (ki + 1) % key_len;
            proof {
                lemma_next_key_index(middle@.len() as int, key_len as int, ki as int);
            }
            middle.push(MARKER_BYTE ^ key[ki]);
            ki = (ki + 1) % key_len;
        }
    }
    proof {
        assert(rev.skip(n as int) =~= Seq::<u8>::empty());
        assert(middle@.len() == marked.len());
        assert(middle@ =~= xor_with_key(marked, key@));
    }
    standard_encode(&middle)
}

} // verus!
