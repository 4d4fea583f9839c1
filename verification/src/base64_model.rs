//! Standard base64 (RFC 4648, alphabet `A-Z a-z 0-9 + /`, `=` padding) as a
//! mathematical function on byte sequences, with the facts the codec relies on.

use vstd::prelude::*;

verus! {

/// The padding symbol `=`.
pub open spec fn pad_symbol() -> u8 {
    61u8
}

/// The symbol of the standard alphabet for a 6-bit value.
pub open spec fn b64_symbol(v: u8) -> u8 {
    if v < 26 {
        (v + 65) as u8
    } else if v < 52 {
        (v - 26 + 97) as u8
    } else if v < 62 {
        (v - 52 + 48) as u8
    } else if v == 62 {
        43u8
    } else {
        47u8
    }
}

/// The four symbols that encode the bytes `b0 b1 b2`, of which the first
/// `count` (1, 2 or 3) are data; missing data bytes are passed as 0 and their
/// symbols are replaced by padding.
pub open spec fn b64_quad(b0: u8, b1: u8, b2: u8, count: nat) -> Seq<u8> {
    let s0 = b0 >> 2u8;
    let s1 = ((b0 & 3u8) << 4u8) | (b1 >> 4u8);
    let s2 = ((b1 & 15u8) << 2u8) | (b2 >> 6u8);
    let s3 = b2 & 63u8;
    seq![
        b64_symbol(s0),
        b64_symbol(s1),
        if count >= 2 { b64_symbol(s2) } else { pad_symbol() },
        if count >= 3 { b64_symbol(s3) } else { pad_symbol() },
    ]
}

/// The padded standard base64 encoding of `data`, as ASCII bytes.
pub open spec fn base64_encoding(data: Seq<u8>) -> Seq<u8>
    decreases data.len(),
{
    if data.len() == 0 {
        Seq::empty()
    } else if data.len() == 1 {
        b64_quad(data[0], 0, 0, 1)
    } else if data.len() == 2 {
        b64_quad(data[0], data[1], 0, 2)
    } else {
        b64_quad(data[0], data[1], data[2], 3) + base64_encoding(data.skip(3))
    }
}

/// The padded standard base64 encoding of `data`, as text.
pub open spec fn base64_text(data: Seq<u8>) -> Seq<char> {
    base64_encoding(data).map_values(|b: u8| b as char)
}

/// `encoded` is the padded standard base64 encoding of some byte sequence.
pub open spec fn is_base64_encoding(encoded: Seq<u8>) -> bool {
    exists|data: Seq<u8>| base64_encoding(data) == encoded
}

/// The bytes whose padded standard base64 encoding is `encoded`, if any.
pub open spec fn base64_decoded(encoded: Seq<u8>) -> Option<Seq<u8>> {
    if is_base64_encoding(encoded) {
        Some(choose|data: Seq<u8>| base64_encoding(data) == encoded)
    } else {
        None
    }
}

proof fn lemma_symbol_injective(a: u8, c: u8)
    requires
        a < 64,
        c < 64,
        b64_symbol(a) == b64_symbol(c),
    ensures
        a == c,
{
}

proof fn lemma_symbol_facts(a: u8)
    requires
        a < 64,
    ensures
        b64_symbol(a) != pad_symbol(),
        b64_symbol(a) < 128,
        b64_symbol(a) == 43 || b64_symbol(a) == 47 || (48 <= b64_symbol(a) <= 57) || (65
            <= b64_symbol(a) <= 90) || (97 <= b64_symbol(a) <= 122),
{
}

proof fn lemma_sextet_ranges(b0: u8, b1: u8, b2: u8)
    by (bit_vector)
    ensures
        b0 >> 2u8 < 64u8,
        ((b0 & 3u8) << 4u8) | (b1 >> 4u8) < 64u8,
        ((b1 & 15u8) << 2u8) | (b2 >> 6u8) < 64u8,
        b2 & 63u8 < 64u8,
{
}

proof fn lemma_sextets_determine_bytes(a0: u8, a1: u8, a2: u8, c0: u8, c1: u8, c2: u8)
    by (bit_vector)
    requires
        a0 >> 2u8 == c0 >> 2u8,
        ((a0 & 3u8) << 4u8) | (a1 >> 4u8) == ((c0 & 3u8) << 4u8) | (c1 >> 4u8),
        ((a1 & 15u8) << 2u8) | (a2 >> 6u8) == ((c1 & 15u8) << 2u8) | (c2 >> 6u8),
        a2 & 63u8 == c2 & 63u8,
    ensures
        a0 == c0,
        a1 == c1,
        a2 == c2,
{
}

/// Every symbol of a quad is an alphabet symbol or padding.
proof fn lemma_quad_symbols(b0: u8, b1: u8, b2: u8, count: nat)
    ensures
        b64_quad(b0, b1, b2, count).len() == 4,
        forall|i: int|
            0 <= i < 4 ==> is_base64_symbol(#[trigger] b64_quad(b0, b1, b2, count)[i]),
{
    lemma_sextet_ranges(b0, b1, b2);
    lemma_symbol_facts(b0 >> 2u8);
    lemma_symbol_facts(((b0 & 3u8) << 4u8) | (b1 >> 4u8));
    lemma_symbol_facts(((b1 & 15u8) << 2u8) | (b2 >> 6u8));
    lemma_symbol_facts(b2 & 63u8);
}

/// A byte of the encoded alphabet, padding included.
pub open spec fn is_base64_symbol(b: u8) -> bool {
    b == 43 || b == 47 || (48 <= b <= 57) || b == 61 || (65 <= b <= 90) || (97 <= b <= 122)
}

/// Two equal quads encode the same number of data bytes, and the same bytes.
proof fn lemma_quad_injective(
    a0: u8,
    a1: u8,
    a2: u8,
    na: nat,
    c0: u8,
    c1: u8,
    c2: u8,
    nc: nat,
)
    requires
        1 <= na <= 3,
        1 <= nc <= 3,
        na < 2 ==> a1 == 0,
        na < 3 ==> a2 == 0,
        nc < 2 ==> c1 == 0,
        nc < 3 ==> c2 == 0,
        b64_quad(a0, a1, a2, na) == b64_quad(c0, c1, c2, nc),
    ensures
        na == nc,
        a0 == c0,
        a1 == c1,
        a2 == c2,
{
    let qa = b64_quad(a0, a1, a2, na);
    let qc = b64_quad(c0, c1, c2, nc);
    lemma_sextet_ranges(a0, a1, a2);
    lemma_sextet_ranges(c0, c1, c2);
    let sa0 = a0 >> 2u8;
    let sa1 = ((a0 & 3u8) << 4u8) | (a1 >> 4u8);
    let sa2 = ((a1 & 15u8) << 2u8) | (a2 >> 6u8);
    let sa3 = a2 & 63u8;
    let sc0 = c0 >> 2u8;
    let sc1 = ((c0 & 3u8) << 4u8) | (c1 >> 4u8);
    let sc2 = ((c1 & 15u8) << 2u8) | (c2 >> 6u8);
    let sc3 = c2 & 63u8;
    lemma_symbol_facts(sa2);
    lemma_symbol_facts(sa3);
    lemma_symbol_facts(sc2);
    lemma_symbol_facts(sc3);
    assert(qa[0] == qc[0] && qa[1] == qc[1] && qa[2] == qc[2] && qa[3] == qc[3]);
    lemma_symbol_injective(sa0, sc0);
    lemma_symbol_injective(sa1, sc1);
    assert(na == nc);
    if na >= 2 {
        lemma_symbol_injective(sa2, sc2);
    } else {
        assert(sa2 == sc2) by (bit_vector)
            requires
                a1 == 0u8,
                c1 == 0u8,
                a2 == 0u8,
                c2 == 0u8,
                sa2 == ((a1 & 15u8) << 2u8) | (a2 >> 6u8),
                sc2 == ((c1 & 15u8) << 2u8) | (c2 >> 6u8),
        ;
    }
    if na >= 3 {
        lemma_symbol_injective(sa3, sc3);
    } else {
        assert(sa3 == sc3);
    }
    lemma_sextets_determine_bytes(a0, a1, a2, c0, c1, c2);
}

/// Every byte of an encoding is an alphabet symbol or padding, and the
/// encoding takes four bytes for every started group of three data bytes.
pub proof fn lemma_encoding_symbols(data: Seq<u8>)
    ensures
        base64_encoding(data).len() == 4 * ((data.len() + 2) / 3),
        forall|i: int|
            0 <= i < base64_encoding(data).len() ==> is_base64_symbol(
                #[trigger] base64_encoding(data)[i],
            ),
    decreases data.len(),
{
    if data.len() == 0 {
    } else if data.len() == 1 {
        lemma_quad_symbols(data[0], 0, 0, 1);
    } else if data.len() == 2 {
        lemma_quad_symbols(data[0], data[1], 0, 2);
    } else {
        lemma_quad_symbols(data[0], data[1], data[2], 3);
        lemma_encoding_symbols(data.skip(3));
        let q = b64_quad(data[0], data[1], data[2], 3);
        let r = base64_encoding(data.skip(3));
        assert forall|i: int| 0 <= i < base64_encoding(data).len() implies is_base64_symbol(
            #[trigger] base64_encoding(data)[i],
        ) by {
            if i < 4 {
                assert(base64_encoding(data)[i] == q[i]);
            } else {
                assert(base64_encoding(data)[i] == r[i - 4]);
            }
        }
    }
}

/// Distinct byte sequences have distinct encodings.
pub proof fn lemma_encoding_injective(x: Seq<u8>, y: Seq<u8>)
    requires
        base64_encoding(x) == base64_encoding(y),
    ensures
        x == y,
    decreases x.len(),
{
    lemma_encoding_symbols(x);
    lemma_encoding_symbols(y);
    let e = base64_encoding(x);
    if x.len() == 0 || y.len() == 0 {
        assert(x.len() == 0 && y.len() == 0);
        assert(x =~= y);
    } else {
        let nx: nat = if x.len() >= 3 { 3 } else { x.len() };
        let ny: nat = if y.len() >= 3 { 3 } else { y.len() };
        let x1: u8 = if nx >= 2 { x[1] } else { 0 };
        let x2: u8 = if nx >= 3 { x[2] } else { 0 };
        let y1: u8 = if ny >= 2 { y[1] } else { 0 };
        let y2: u8 = if ny >= 3 { y[2] } else { 0 };
        let qx = b64_quad(x[0], x1, x2, nx);
        let qy = b64_quad(y[0], y1, y2, ny);
        assert(e.take(4) =~= qx);
        assert(e.take(4) =~= qy);
        lemma_quad_injective(x[0], x1, x2, nx, y[0], y1, y2, ny);
        if nx < 3 {
            assert(x.len() == y.len());
            assert(x =~= y);
        } else {
            assert(e.skip(4) =~= base64_encoding(x.skip(3)));
            assert(e.skip(4) =~= base64_encoding(y.skip(3)));
            lemma_encoding_injective(x.skip(3), y.skip(3));
            assert(x =~= x.take(3) + x.skip(3));
            assert(y =~= y.take(3) + y.skip(3));
            assert(x.take(3) =~= y.take(3));
        }
    }
}

/// Decoding the encoding of `data` gives `data` back.
pub proof fn lemma_decoded_encoding(data: Seq<u8>, e: Seq<u8>)
    requires
        base64_encoding(data) == e,
    ensures
        is_base64_encoding(e),
        base64_decoded(e) == Some(data),
{
    assert(is_base64_encoding(e));
    let d = choose|d: Seq<u8>| base64_encoding(d) == e;
    lemma_encoding_injective(d, data);
}

} // verus!
