//! Text facts: Unicode white space, trimming, and how base64 text reads.

use vstd::prelude::*;
use vstd::utf8::{encode_utf8, is_ascii_chars, is_ascii_chars_encode_utf8};
use crate::base64_model::{base64_encoding, base64_text, is_base64_symbol, lemma_encoding_symbols};

verus! {

/// `c` has the Unicode `White_Space` property (what `char::is_whitespace`
/// tests).
pub open spec fn is_white_space(c: char) -> bool {
    let u = c as u32;
    (0x09 <= u <= 0x0D) || u == 0x20 || u == 0x85 || u == 0xA0 || u == 0x1680 || (0x2000 <= u
        <= 0x200A) || u == 0x2028 || u == 0x2029 || u == 0x202F || u == 0x205F || u == 0x3000
}

/// `s` without its leading white space.
pub open spec fn trim_start_chars(s: Seq<char>) -> Seq<char>
    decreases s.len(),
{
    if s.len() > 0 && is_white_space(s[0]) {
        trim_start_chars(s.drop_first())
    } else {
        s
    }
}

/// `s` without its trailing white space.
pub open spec fn trim_end_chars(s: Seq<char>) -> Seq<char>
    decreases s.len(),
{
    if s.len() > 0 && is_white_space(s.last()) {
        trim_end_chars(s.drop_last())
    } else {
        s
    }
}

/// `s` without leading and trailing white space.
pub open spec fn trimmed(s: Seq<char>) -> Seq<char> {
    trim_end_chars(trim_start_chars(s))
}

/// Every character of `s` is white space.
pub open spec fn all_white_space(s: Seq<char>) -> bool {
    forall|i: int| 0 <= i < s.len() ==> is_white_space(#[trigger] s[i])
}

proof fn lemma_trim_start_skips(pre: Seq<char>, x: Seq<char>)
    requires
        all_white_space(pre),
    ensures
        trim_start_chars(pre + x) == trim_start_chars(x),
    decreases pre.len(),
{
    if pre.len() == 0 {
        assert(pre + x =~= x);
    } else {
        assert((pre + x)[0] == pre[0]);
        assert((pre + x).drop_first() =~= pre.drop_first() + x);
        lemma_trim_start_skips(pre.drop_first(), x);
    }
}

proof fn lemma_trim_end_skips(x: Seq<char>, post: Seq<char>)
    requires
        all_white_space(post),
    ensures
        trim_end_chars(x + post) == trim_end_chars(x),
    decreases post.len(),
{
    if post.len() == 0 {
        assert(x + post =~= x);
    } else {
        assert((x + post).last() == post.last());
        assert((x + post).drop_last() =~= x + post.drop_last());
        lemma_trim_end_skips(x, post.drop_last());
    }
}

proof fn lemma_trim_start_append(s: Seq<char>, y: Seq<char>)
    requires
        !all_white_space(s),
    ensures
        trim_start_chars(s + y) == trim_start_chars(s) + y,
    decreases s.len(),
{
    assert((s + y)[0] == s[0]);
    if is_white_space(s[0]) {
        assert((s + y).drop_first() =~= s.drop_first() + y);
        assert(!all_white_space(s.drop_first())) by {
            let i = choose|i: int| 0 <= i < s.len() && !is_white_space(#[trigger] s[i]);
            assert(s.drop_first()[i - 1] == s[i]);
        }
        lemma_trim_start_append(s.drop_first(), y);
    }
}

/// White space added before and after a text changes nothing of what
/// trimming it gives.
pub proof fn lemma_trimmed_surrounded(pre: Seq<char>, s: Seq<char>, post: Seq<char>)
    requires
        all_white_space(pre),
        all_white_space(post),
    ensures
        trimmed(pre + s + post) == trimmed(s),
{
    assert(pre + s + post =~= pre + (s + post));
    lemma_trim_start_skips(pre, s + post);
    if all_white_space(s) {
        lemma_trim_start_skips(s, post);
        lemma_trim_start_skips(post, Seq::<char>::empty());
        lemma_trim_start_skips(s, Seq::<char>::empty());
        assert(post + Seq::<char>::empty() =~= post);
        assert(s + Seq::<char>::empty() =~= s);
    } else {
        lemma_trim_start_append(s, post);
        lemma_trim_end_skips(trim_start_chars(s), post);
    }
}

proof fn lemma_trim_start_shape(s: Seq<char>) -> (a: int)
    ensures
        0 <= a <= s.len(),
        trim_start_chars(s) == s.skip(a),
        forall|i: int| 0 <= i < a ==> is_white_space(#[trigger] s[i]),
        a < s.len() ==> !is_white_space(s[a]),
    decreases s.len(),
{
    if s.len() > 0 && is_white_space(s[0]) {
        let a1 = lemma_trim_start_shape(s.drop_first());
        assert(s.drop_first().skip(a1) =~= s.skip(a1 + 1));
        assert forall|i: int| 0 <= i < a1 + 1 implies is_white_space(#[trigger] s[i]) by {
            if i > 0 {
                assert(s[i] == s.drop_first()[i - 1]);
            }
        }
        assert(a1 + 1 < s.len() ==> s[a1 + 1] == s.drop_first()[a1]);
        a1 + 1
    } else {
        assert(s.skip(0) =~= s);
        0
    }
}

proof fn lemma_trim_end_shape(s: Seq<char>) -> (b: int)
    ensures
        0 <= b <= s.len(),
        trim_end_chars(s) == s.take(b),
        forall|i: int| b <= i < s.len() ==> is_white_space(#[trigger] s[i]),
        b > 0 ==> !is_white_space(s[b - 1]),
    decreases s.len(),
{
    if s.len() > 0 && is_white_space(s.last()) {
        let b1 = lemma_trim_end_shape(s.drop_last());
        assert(s.drop_last().take(b1) =~= s.take(b1));
        assert forall|i: int| b1 <= i < s.len() implies is_white_space(#[trigger] s[i]) by {
            if i < s.len() - 1 {
                assert(s[i] == s.drop_last()[i]);
            }
        }
        b1
    } else {
        assert(s.take(s.len() as int) =~= s);
        s.len() as int
    }
}

/// Trimming keeps a contiguous part of the text: everything before and
/// after it is white space, and the part neither starts nor ends with white
/// space.
pub proof fn law_trimmed_shape(s: Seq<char>)
    ensures
        exists|a: int, b: int|
            0 <= a <= b <= s.len() && trimmed(s) == s.subrange(a, b) && (forall|i: int|
                0 <= i < a ==> is_white_space(#[trigger] s[i])) && (forall|i: int|
                b <= i < s.len() ==> is_white_space(#[trigger] s[i])) && (a < b ==> !is_white_space(
                s[a]) && !is_white_space(s[b - 1])),
{
    let a = lemma_trim_start_shape(s);
    let t = s.skip(a);
    let b1 = lemma_trim_end_shape(t);
    let b = a + b1;
    assert(trimmed(s) == t.take(b1));
    assert(t.take(b1) =~= s.subrange(a, b));
    assert forall|i: int| b <= i < s.len() implies is_white_space(#[trigger] s[i]) by {
        assert(s[i] == t[i - a]);
    }
    if a < b {
        assert(s[a] == t[0]);
        assert(s[b - 1] == t[b1 - 1]);
    }
    assert(0 <= a <= b <= s.len() && trimmed(s) == s.subrange(a, b) && (forall|i: int|
        0 <= i < a ==> is_white_space(#[trigger] s[i])) && (forall|i: int|
        b <= i < s.len() ==> is_white_space(#[trigger] s[i])) && (a < b ==> !is_white_space(s[a])
        && !is_white_space(s[b - 1])));
}

/// Base64 text is ASCII: its UTF-8 bytes are the encoding bytes themselves,
/// and it has no white space to trim.
pub proof fn lemma_base64_text(data: Seq<u8>)
    ensures
        is_ascii_chars(base64_text(data)),
        encode_utf8(base64_text(data)) == base64_encoding(data),
        trimmed(base64_text(data)) == base64_text(data),
{
    let e = base64_encoding(data);
    let t = base64_text(data);
    lemma_encoding_symbols(data);
    assert forall|i: int| 0 <= i < t.len() implies '\0' <= #[trigger] t[i] <= '\u{7f}' by {
        assert(is_base64_symbol(e[i]));
    }
    is_ascii_chars_encode_utf8(t);
    assert(encode_utf8(t) =~= e);
    if t.len() > 0 {
        assert(is_base64_symbol(e[0]));
        assert(!is_white_space(t[0]));
        assert(trim_start_chars(t) == t);
        assert(is_base64_symbol(e[t.len() - 1]));
        assert(!is_white_space(t.last()));
    }
}

} // verus!
