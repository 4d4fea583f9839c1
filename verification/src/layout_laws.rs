//! Laws that say, position by position, what the byte transforms produce:
//! which byte of the input, the marker or the key stands at every place of
//! the output.

use vstd::prelude::*;
use crate::base64_model::{b64_quad, b64_symbol, base64_encoding, lemma_encoding_symbols};
use crate::model::{
    lemma_with_markers_len,
    obfuscated,
    recovered,
    with_markers,
    without_markers,
    xor_with_key,
};

verus! {

/// Masking XORs byte `i` of the data with byte `i % key.len()` of the key,
/// at every position; an empty key leaves the data as it is.
pub proof fn law_xor_masks_each_byte(data: Seq<u8>, key: Seq<u8>)
    ensures
        xor_with_key(data, key).len() == data.len(),
        forall|i: int|
            0 <= i < data.len() ==> #[trigger] xor_with_key(data, key)[i] == if key.len() == 0 {
                data[i]
            } else {
                data[i] ^ key[i % (key.len() as int)]
            },
{
}

proof fn lemma_marker_at(data: Seq<u8>, g: nat, marker: Seq<u8>, k: int, j: int)
    requires
        g > 0,
        0 <= k < data.len() / g,
        0 <= j < marker.len(),
    ensures
        k * (g + marker.len()) + g + j < with_markers(data, g, marker).len(),
        with_markers(data, g, marker)[k * (g + marker.len()) + g + j] == marker[j],
    decreases k,
{
    let n = data.len() as int;
    let gi = g as int;
    let m = marker.len() as int;
    assert(n >= gi) by (nonlinear_arith)
        requires
            0 <= k < n / gi,
            gi > 0,
    ;
    let rest = data.skip(gi);
    let out = with_markers(data, g, marker);
    let ro = with_markers(rest, g, marker);
    assert(out == data.take(gi) + marker + ro);
    if k == 0 {
        assert(out[gi + j] == marker[j]);
    } else {
        assert((n - gi) / gi == n / gi - 1) by (nonlinear_arith)
            requires
                n >= gi,
                gi > 0,
        ;
        lemma_marker_at(rest, g, marker, k - 1, j);
        assert(k * (gi + m) + gi + j == (gi + m) + ((k - 1) * (gi + m) + gi + j)) by (
        nonlinear_arith);
        assert(out[k * (gi + m) + gi + j] == ro[(k - 1) * (gi + m) + gi + j]);
    }
}

proof fn lemma_data_at(data: Seq<u8>, g: nat, marker: Seq<u8>, k: int, r: int)
    requires
        g > 0,
        0 <= k,
        0 <= r < g,
        k * g + r < data.len(),
    ensures
        k * (g + marker.len()) + r < with_markers(data, g, marker).len(),
        with_markers(data, g, marker)[k * (g + marker.len()) + r] == data[k * g + r],
    decreases k,
{
    let n = data.len() as int;
    let gi = g as int;
    let m = marker.len() as int;
    let out = with_markers(data, g, marker);
    if n < gi {
        assert(k == 0) by (nonlinear_arith)
            requires
                gi > 0,
                k * gi + r < n,
                n < gi,
                k >= 0,
                r >= 0,
        ;
    } else {
        let rest = data.skip(gi);
        let ro = with_markers(rest, g, marker);
        assert(out == data.take(gi) + marker + ro);
        if k == 0 {
            assert(out[r] == data[r]);
        } else {
            assert((k - 1) * gi + r == k * gi + r - gi) by (nonlinear_arith);
            lemma_data_at(rest, g, marker, k - 1, r);
            assert(k * (gi + m) + r == (gi + m) + ((k - 1) * (gi + m) + r)) by (nonlinear_arith);
            assert(out[k * (gi + m) + r] == ro[(k - 1) * (gi + m) + r]);
            assert(rest[(k - 1) * gi + r] == data[k * gi + r]);
        }
    }
}

/// Marking writes the data in windows of `g + m` places (`m` the marker's
/// length): the first `g` places of a window hold the next `g` data bytes,
/// the last `m` hold the marker; only the last window may be cut short,
/// after fewer than `g` data bytes.
pub proof fn law_markers_layout(data: Seq<u8>, g: nat, marker: Seq<u8>)
    requires
        g > 0,
    ensures
        with_markers(data, g, marker).len() == data.len() + (data.len() / g) * marker.len(),
        forall|p: int|
            0 <= p < with_markers(data, g, marker).len() ==> (#[trigger] with_markers(
                data,
                g,
                marker,
            )[p] == if p % ((g + marker.len()) as int) < g {
                data[g * (p / ((g + marker.len()) as int)) + p % ((g + marker.len()) as int)]
            } else {
                marker[p % ((g + marker.len()) as int) - g]
            }) && (p % ((g + marker.len()) as int) < g ==> g * (p / ((g + marker.len()) as int))
                + p % ((g + marker.len()) as int) < data.len()),
{
    let n = data.len() as int;
    let gi = g as int;
    let m = marker.len() as int;
    let s = gi + m;
    let out = with_markers(data, g, marker);
    lemma_with_markers_len(data, g, marker);
    assert forall|p: int| 0 <= p < out.len() implies (#[trigger] out[p] == if p % s < gi {
        data[gi * (p / s) + p % s]
    } else {
        marker[p % s - gi]
    }) && (p % s < gi ==> gi * (p / s) + p % s < n) by {
        let k = p / s;
        let r = p % s;
        assert(p == s * k + r && 0 <= r < s && k >= 0) by (nonlinear_arith)
            requires
                s > 0,
                p >= 0,
                k == p / s,
                r == p % s,
        ;
        let q = n / gi;
        let t = n % gi;
        assert(n == gi * q + t && 0 <= t < gi && q >= 0) by (nonlinear_arith)
            requires
                gi > 0,
                n >= 0,
                q == n / gi,
                t == n % gi,
        ;
        assert(out.len() == q * s + t) by (nonlinear_arith)
            requires
                out.len() == n + q * m,
                n == gi * q + t,
                s == gi + m,
        ;
        if r < gi {
            assert(gi * k + r < n) by (nonlinear_arith)
                requires
                    p == s * k + r,
                    p < q * s + t,
                    n == gi * q + t,
                    0 <= r < gi,
                    0 <= t < gi,
                    s == gi + m,
                    m >= 0,
                    k >= 0,
                    q >= 0,
            ;
            assert(k * gi + r == gi * k + r) by (nonlinear_arith);
            assert(k * s + r == p) by (nonlinear_arith)
                requires
                    p == s * k + r,
            ;
            lemma_data_at(data, g, marker, k, r);
        } else {
            assert(k < q) by (nonlinear_arith)
                requires
                    p == s * k + r,
                    p < q * s + t,
                    gi <= r < s,
                    0 <= t < gi,
                    k >= 0,
                    q >= 0,
            ;
            assert(k * s + gi + (r - gi) == p) by (nonlinear_arith)
                requires
                    p == s * k + r,
            ;
            lemma_marker_at(data, g, marker, k, r - gi);
        }
    }
}

/// The masked bytes of a text, unmasked with the key, are the text's bytes
/// from last to first in groups of five, each complete group followed by
/// the marker `$$`: at place `p`, with `p = 7 q + r`, stands text byte
/// `n - 1 - (5 q + r)` when `r < 5`, and `$` (36) otherwise.
pub proof fn law_obfuscated_layout(text: Seq<u8>, key: Seq<u8>)
    ensures
        obfuscated(text, key).len() == text.len() + (text.len() / 5) * 2,
        forall|p: int|
            0 <= p < obfuscated(text, key).len() ==> (if key.len() == 0 {
                #[trigger] obfuscated(text, key)[p]
            } else {
                obfuscated(text, key)[p] ^ key[p % (key.len() as int)]
            }) == if p % 7 < 5 {
                text[text.len() - 1 - (5 * (p / 7) + p % 7)]
            } else {
                36u8
            },
{
    let n = text.len() as int;
    let rev = text.reverse();
    let marked = with_markers(rev, 5, seq![36u8, 36u8]);
    let masked = obfuscated(text, key);
    law_markers_layout(rev, 5, seq![36u8, 36u8]);
    law_xor_masks_each_byte(marked, key);
    assert forall|p: int| 0 <= p < masked.len() implies (if key.len() == 0 {
        #[trigger] masked[p]
    } else {
        masked[p] ^ key[p % (key.len() as int)]
    }) == if p % 7 < 5 {
        text[n - 1 - (5 * (p / 7) + p % 7)]
    } else {
        36u8
    } by {
        let b = marked[p];
        if key.len() > 0 {
            let kb = key[p % (key.len() as int)];
            assert((b ^ kb) ^ kb == b) by (bit_vector);
        }
        if p % 7 < 5 {
            assert(marked[p] == rev[5 * (p / 7) + p % 7]);
        } else {
            assert(marked[p] == seq![36u8, 36u8][p % 7 - 5]);
        }
    }
}

proof fn lemma_strip_len(data: Seq<u8>, g: nat, ml: nat)
    requires
        g > 0,
    ensures
        without_markers(data, g, ml).len() == ((data.len() as int) / ((g + ml) as int)) * g + if (
        data.len() as int) % ((g + ml) as int) < g {
            (data.len() as int) % ((g + ml) as int)
        } else {
            g as int
        },
    decreases data.len(),
{
    let n = data.len() as int;
    let gi = g as int;
    let s = (g + ml) as int;
    if n <= s {
        if n == s {
            assert(n / s == 1 && n % s == 0) by (nonlinear_arith)
                requires
                    n == s,
                    s > 0,
            ;
        } else {
            assert(n / s == 0 && n % s == n) by (nonlinear_arith)
                requires
                    0 <= n < s,
            ;
        }
    } else {
        let rest = data.skip(s);
        lemma_strip_len(rest, g, ml);
        assert((n - s) / s == n / s - 1 && (n - s) % s == n % s) by (nonlinear_arith)
            requires
                n > s,
                s > 0,
        ;
        assert((n / s - 1) * gi + gi == (n / s) * gi) by (nonlinear_arith);
    }
}

proof fn lemma_strip_at(data: Seq<u8>, g: nat, ml: nat, k: int, r: int)
    requires
        g > 0,
        0 <= k,
        0 <= r < g,
        k * ((g + ml) as int) + r < data.len(),
    ensures
        k * g + r < without_markers(data, g, ml).len(),
        without_markers(data, g, ml)[k * g + r] == data[k * ((g + ml) as int) + r],
    decreases k,
{
    let n = data.len() as int;
    let gi = g as int;
    let s = (g + ml) as int;
    let out = without_markers(data, g, ml);
    if n <= s {
        assert(k == 0) by (nonlinear_arith)
            requires
                k * s + r < n,
                n <= s,
                k >= 0,
                r >= 0,
                s > 0,
        ;
    } else {
        let rest = data.skip(s);
        assert(out == data.take(gi) + without_markers(rest, g, ml));
        if k > 0 {
            assert((k - 1) * s + r == k * s + r - s) by (nonlinear_arith);
            assert((k - 1) * gi + r == k * gi + r - gi) by (nonlinear_arith);
            lemma_strip_at(rest, g, ml, k - 1, r);
            assert(rest[(k - 1) * s + r] == data[k * s + r]);
        }
    }
}

/// Stripping keeps, of every window of `g + ml` bytes, the first `g`: place
/// `p` of the result holds data byte `(g + ml) * (p / g) + p % g`, and the
/// result has `g` bytes per complete window plus at most `g` from the last,
/// cut-short one.
pub proof fn law_strip_layout(data: Seq<u8>, g: nat, ml: nat)
    requires
        g > 0,
    ensures
        without_markers(data, g, ml).len() == ((data.len() as int) / ((g + ml) as int)) * g + if (
        data.len() as int) % ((g + ml) as int) < g {
            (data.len() as int) % ((g + ml) as int)
        } else {
            g as int
        },
        forall|p: int|
            0 <= p < without_markers(data, g, ml).len() ==> (#[trigger] without_markers(
                data,
                g,
                ml,
            )[p] == data[((g + ml) as int) * (p / (g as int)) + p % (g as int)]) && (((g
                + ml) as int) * (p / (g as int)) + p % (g as int) < data.len()),
{
    let n = data.len() as int;
    let gi = g as int;
    let s = (g + ml) as int;
    let out = without_markers(data, g, ml);
    lemma_strip_len(data, g, ml);
    assert forall|p: int| 0 <= p < out.len() implies (#[trigger] out[p] == data[s * (p / gi) + p
        % gi]) && (s * (p / gi) + p % gi < n) by {
        let k = p / gi;
        let r = p % gi;
        assert(p == gi * k + r && 0 <= r < gi && k >= 0) by (nonlinear_arith)
            requires
                gi > 0,
                p >= 0,
                k == p / gi,
                r == p % gi,
        ;
        let q = n / s;
        let t = n % s;
        assert(n == s * q + t && 0 <= t < s && q >= 0) by (nonlinear_arith)
            requires
                s > 0,
                n >= 0,
                q == n / s,
                t == n % s,
        ;
        let last = if t < gi { t } else { gi };
        assert(s * k + r < n) by (nonlinear_arith)
            requires
                p == gi * k + r,
                p < q * gi + last,
                last <= t,
                last <= gi,
                n == s * q + t,
                0 <= r < gi,
                gi <= s,
                k >= 0,
                q >= 0,
        ;
        assert(k * s + r == s * k + r && k * gi + r == p) by (nonlinear_arith)
            requires
                p == gi * k + r,
        ;
        lemma_strip_at(data, g, ml, k, r);
    }
}

/// Recovering reads masked bytes back: unmasked with the key, of every
/// window of seven bytes the first five are kept, and the kept bytes come
/// out last to first; byte `i` of the result is unmasked byte
/// `7 (j / 5) + j % 5` with `j` counted from the result's end.
pub proof fn law_recovered_layout(masked: Seq<u8>, key: Seq<u8>)
    ensures
        recovered(masked, key).len() == ((masked.len() as int) / 7) * 5 + if (masked.len() as int)
            % 7 < 5 {
            (masked.len() as int) % 7
        } else {
            5
        },
        forall|i: int|
            0 <= i < recovered(masked, key).len() ==> #[trigger] recovered(masked, key)[i] == if key.len()
                == 0 {
                masked[7 * ((recovered(masked, key).len() - 1 - i) / 5) + (recovered(masked, key).len()
                    - 1 - i) % 5]
            } else {
                masked[7 * ((recovered(masked, key).len() - 1 - i) / 5) + (recovered(masked, key).len()
                    - 1 - i) % 5] ^ key[(7 * ((recovered(masked, key).len() - 1 - i) / 5) + (
                recovered(masked, key).len() - 1 - i) % 5) % (key.len() as int)]
            },
{
    let unmasked = xor_with_key(masked, key);
    let kept = without_markers(unmasked, 5, 2);
    let out = recovered(masked, key);
    law_xor_masks_each_byte(masked, key);
    law_strip_layout(unmasked, 5, 2);
    assert forall|i: int| 0 <= i < out.len() implies #[trigger] out[i] == if key.len() == 0 {
        masked[7 * ((out.len() - 1 - i) / 5) + (out.len() - 1 - i) % 5]
    } else {
        masked[7 * ((out.len() - 1 - i) / 5) + (out.len() - 1 - i) % 5] ^ key[(7 * ((out.len() - 1
            - i) / 5) + (out.len() - 1 - i) % 5) % (key.len() as int)]
    } by {
        let j = out.len() - 1 - i;
        assert(out[i] == kept[j]);
        assert(kept[j] == unmasked[7 * (j / 5) + j % 5]);
    }
}


/// The 64 symbols of the standard alphabet, in order.
pub open spec fn standard_alphabet() -> Seq<char> {
    "ABCDEFGHIJKLMNOPQRSTUVWXYZabcdefghijklmnopqrstuvwxyz0123456789+/"@
}

/// Each 6-bit value is written as its symbol of the standard alphabet.
pub proof fn law_base64_alphabet(v: u8)
    requires
        v < 64,
    ensures
        standard_alphabet().len() == 64,
        b64_symbol(v) as char == standard_alphabet()[v as int],
{
    reveal_strlit("ABCDEFGHIJKLMNOPQRSTUVWXYZabcdefghijklmnopqrstuvwxyz0123456789+/");
}

/// Data byte `i`, or 0 past the end of the data.
pub open spec fn byte_or_zero(data: Seq<u8>, i: int) -> int {
    if 0 <= i < data.len() {
        data[i] as int
    } else {
        0
    }
}

/// Six-bit digit `c` (0 to 3, most significant first) of a 24-bit number.
pub open spec fn sextet(v: int, c: int) -> int {
    if c == 0 {
        v / 262144
    } else if c == 1 {
        (v / 4096) % 64
    } else if c == 2 {
        (v / 64) % 64
    } else {
        v % 64
    }
}

proof fn lemma_quad_digits(b0: u8, b1: u8, b2: u8, w: u32)
    by (bit_vector)
    requires
        w == (b0 as u32) * 65536 + (b1 as u32) * 256 + (b2 as u32),
    ensures
        (b0 >> 2u8) as u32 == w / 262144,
        (((b0 & 3u8) << 4u8) | (b1 >> 4u8)) as u32 == (w / 4096) % 64,
        (((b1 & 15u8) << 2u8) | (b2 >> 6u8)) as u32 == (w / 64) % 64,
        (b2 & 63u8) as u32 == w % 64,
{
}

proof fn lemma_encoding_at(data: Seq<u8>, q: int, c: int)
    requires
        0 <= q,
        3 * q < data.len(),
        0 <= c < 4,
    ensures
        4 * q + c < base64_encoding(data).len(),
        base64_encoding(data)[4 * q + c] == b64_quad(
            data[3 * q],
            byte_or_zero(data, 3 * q + 1) as u8,
            byte_or_zero(data, 3 * q + 2) as u8,
            if data.len() - 3 * q >= 3 {
                3
            } else {
                (data.len() - 3 * q) as nat
            },
        )[c],
    decreases q,
{
    let n = data.len() as int;
    let e = base64_encoding(data);
    if n >= 3 {
        let rest = data.skip(3);
        let quad = b64_quad(data[0], data[1], data[2], 3);
        assert(e == quad + base64_encoding(rest));
        lemma_encoding_symbols(rest);
        if q > 0 {
            lemma_encoding_at(rest, q - 1, c);
            assert(3 * (q - 1) + 1 == 3 * q - 2);
            assert(rest[3 * (q - 1)] == data[3 * q]);
            assert(byte_or_zero(rest, 3 * (q - 1) + 1) == byte_or_zero(data, 3 * q + 1));
            assert(byte_or_zero(rest, 3 * (q - 1) + 2) == byte_or_zero(data, 3 * q + 2));
            assert(e[4 * q + c] == base64_encoding(rest)[4 * (q - 1) + c]);
        }
    }
}

/// Standard base64 writes every group of three bytes, read as a 24-bit
/// number `v` (first byte most significant, missing bytes 0), as four
/// symbols: the symbol of six-bit digit `c` of `v` when the group reaches
/// data byte `3 q + c - 1`, and `=` otherwise.
pub proof fn law_base64_layout(data: Seq<u8>)
    ensures
        base64_encoding(data).len() == 4 * ((data.len() + 2) / 3),
        forall|p: int|
            0 <= p < base64_encoding(data).len() ==> #[trigger] base64_encoding(data)[p] == if 3 * (p
                / 4) + p % 4 <= data.len() {
                b64_symbol(
                    sextet(
                        byte_or_zero(data, 3 * (p / 4)) * 65536 + byte_or_zero(data, 3 * (p / 4) + 1)
                            * 256 + byte_or_zero(data, 3 * (p / 4) + 2),
                        p % 4,
                    ) as u8,
                )
            } else {
                61u8
            },
{
    let n = data.len() as int;
    let e = base64_encoding(data);
    lemma_encoding_symbols(data);
    assert forall|p: int| 0 <= p < e.len() implies #[trigger] e[p] == if 3 * (p / 4) + p % 4
        <= n {
        b64_symbol(
            sextet(
                byte_or_zero(data, 3 * (p / 4)) * 65536 + byte_or_zero(data, 3 * (p / 4) + 1) * 256
                    + byte_or_zero(data, 3 * (p / 4) + 2),
                p % 4,
            ) as u8,
        )
    } else {
        61u8
    } by {
        let q = p / 4;
        let c = p % 4;
        assert(p == 4 * q + c && 0 <= c < 4 && q >= 0);
        assert(3 * q < n) by (nonlinear_arith)
            requires
                p == 4 * q + c,
                0 <= c < 4,
                p < 4 * ((n + 2) / 3),
                n >= 0,
        ;
        lemma_encoding_at(data, q, c);
        let b0 = data[3 * q];
        let b1 = byte_or_zero(data, 3 * q + 1) as u8;
        let b2 = byte_or_zero(data, 3 * q + 2) as u8;
        assert(b1 as int == byte_or_zero(data, 3 * q + 1));
        assert(b2 as int == byte_or_zero(data, 3 * q + 2));
        let w: u32 = ((b0 as u32) * 65536 + (b1 as u32) * 256 + (b2 as u32)) as u32;
        assert(w as int == b0 as int * 65536 + b1 as int * 256 + b2 as int);
        lemma_quad_digits(b0, b1, b2, w);
    }
}

} // verus!
