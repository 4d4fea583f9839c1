//! Mathematical model of the byte transforms of the scheme.

use vstd::prelude::*;

verus! {

/// The bytes of `data` XOR-ed position by position with `key`, the key being
/// repeated as often as needed; an empty key leaves the data unchanged.
pub open spec fn xor_with_key(data: Seq<u8>, key: Seq<u8>) -> Seq<u8> {
    if key.len() == 0 {
        data
    } else {
        Seq::new(data.len(), |i: int| data[i] ^ key[i % (key.len() as int)])
    }
}

/// `data` with `marker` inserted after every complete group of `group_size`
/// bytes (a trailing incomplete group gets no marker).
pub open spec fn with_markers(data: Seq<u8>, group_size: nat, marker: Seq<u8>) -> Seq<u8>
    decreases data.len(),
{
    if group_size == 0 || data.len() < group_size {
        data
    } else {
        data.take(group_size as int) + marker + with_markers(
            data.skip(group_size as int),
            group_size,
            marker,
        )
    }
}

/// `data` cut into windows of `group_size + marker_len` bytes, of each of
/// which only the first `group_size` bytes are kept.
pub open spec fn without_markers(data: Seq<u8>, group_size: nat, marker_len: nat) -> Seq<u8>
    decreases data.len(),
{
    let step = group_size + marker_len;
    if step == 0 {
        Seq::empty()
    } else if data.len() <= step {
        if data.len() <= group_size {
            data
        } else {
            data.take(group_size as int)
        }
    } else {
        data.take(group_size as int) + without_markers(
            data.skip(step as int),
            group_size,
            marker_len,
        )
    }
}

/// The marker inserted after every group: two `$` bytes.
pub open spec fn marker_bytes() -> Seq<u8> {
    seq![36u8, 36u8]
}

/// The masked bytes of `text`: reversed, marked after every five bytes with
/// `$$`, XOR-ed with `key`.
pub open spec fn obfuscated(text: Seq<u8>, key: Seq<u8>) -> Seq<u8> {
    xor_with_key(with_markers(text.reverse(), 5, marker_bytes()), key)
}

/// The inverse steps on masked bytes: XOR with `key`, drop the markers,
/// reverse.
pub open spec fn recovered(masked: Seq<u8>, key: Seq<u8>) -> Seq<u8> {
    without_markers(xor_with_key(masked, key), 5, 2).reverse()
}

/// Advancing a cyclic key index by one keeps it equal to the position
/// modulo the key length.
pub proof fn lemma_next_key_index(l: int, k: int, ki: int)
    by (nonlinear_arith)
    requires
        k > 0,
        l >= 0,
        ki == l % k,
    ensures
        (ki + 1) % k == (l + 1) % k,
{
}

/// XOR-ing twice with the same key gives the data back.
pub proof fn lemma_xor_involution(data: Seq<u8>, key: Seq<u8>)
    ensures
        xor_with_key(xor_with_key(data, key), key) == data,
{
    if key.len() > 0 {
        let once = xor_with_key(data, key);
        let twice = xor_with_key(once, key);
        assert forall|i: int| 0 <= i < data.len() implies #[trigger] twice[i] == data[i] by {
            let a = data[i];
            let k = key[i % (key.len() as int)];
            assert((a ^ k) ^ k == a) by (bit_vector);
        }
        assert(twice =~= data);
    }
}

/// The length of `data` with markers: one marker per complete group.
pub proof fn lemma_with_markers_len(data: Seq<u8>, group_size: nat, marker: Seq<u8>)
    requires
        group_size > 0,
    ensures
        with_markers(data, group_size, marker).len() == data.len() + (data.len() / group_size)
            * marker.len(),
    decreases data.len(),
{
    if data.len() >= group_size {
        let rest = data.skip(group_size as int);
        lemma_with_markers_len(rest, group_size, marker);
        let n = data.len() as int;
        let g = group_size as int;
        let m = marker.len() as int;
        assert((n - g) / g + 1 == n / g) by (nonlinear_arith)
            requires
                n >= g,
                g > 0,
        ;
        assert(((n - g) / g) * m + m == (n / g) * m) by (nonlinear_arith)
            requires
                (n - g) / g + 1 == n / g,
        ;
    } else {
        assert(data.len() / group_size == 0) by (nonlinear_arith)
            requires
                data.len() < group_size,
        ;
    }
}

/// Dropping the markers from marked data gives the data back.
pub proof fn lemma_strip_inverts_inject(data: Seq<u8>, group_size: nat, marker: Seq<u8>)
    requires
        group_size > 0,
    ensures
        without_markers(with_markers(data, group_size, marker), group_size, marker.len())
            == data,
    decreases data.len(),
{
    let marked = with_markers(data, group_size, marker);
    let step = group_size + marker.len();
    if data.len() < group_size {
    } else {
        let rest = data.skip(group_size as int);
        let marked_rest = with_markers(rest, group_size, marker);
        lemma_strip_inverts_inject(rest, group_size, marker);
        assert(marked.take(group_size as int) =~= data.take(group_size as int));
        assert(marked.skip(step as int) =~= marked_rest);
        if rest.len() == 0 {
            assert(marked_rest =~= rest);
            assert(data.take(group_size as int) =~= data);
        } else {
            assert(marked.len() > step);
            assert(data =~= data.take(group_size as int) + rest);
        }
    }
}

/// A key written twice masks as the key itself does.
pub proof fn lemma_xor_doubled_key(data: Seq<u8>, key: Seq<u8>)
    requires
        key.len() > 0,
    ensures
        xor_with_key(data, key + key) == xor_with_key(data, key),
{
    let l = key.len() as int;
    let kk = key + key;
    assert forall|i: int| 0 <= i < data.len() implies #[trigger] kk[i % (kk.len() as int)] == key[i
        % l] by {
        let j = i % (2 * l);
        assert(kk.len() == 2 * l);
        vstd::arithmetic::div_mod::lemma_mod_mod(i, l, 2);
        assert(l * 2 == 2 * l);
        assert(0 <= j < 2 * l) by (nonlinear_arith)
            requires
                l > 0,
                j == i % (2 * l),
        ;
        if j < l {
            vstd::arithmetic::div_mod::lemma_small_mod(j as nat, l as nat);
        } else {
            assert(j % l == j - l) by (nonlinear_arith)
                requires
                    l <= j < 2 * l,
            ;
        }
    }
    assert(xor_with_key(data, kk) =~= xor_with_key(data, key));
}

/// Reversing twice gives the data back.
pub proof fn lemma_reverse_involution(data: Seq<u8>)
    ensures
        data.reverse().reverse() == data,
{
    assert(data.reverse().reverse() =~= data);
}

/// Obfuscating with a key is obfuscating with no key, then masking with
/// the key.
pub proof fn lemma_obfuscated_masks(text: Seq<u8>, key: Seq<u8>)
    ensures
        obfuscated(text, key) == xor_with_key(obfuscated(text, Seq::empty()), key),
{
}

/// The length of obfuscated bytes depends on the text's length alone.
pub proof fn lemma_obfuscated_len(text: Seq<u8>, key: Seq<u8>)
    ensures
        obfuscated(text, key).len() == text.len() + (text.len() / 5) * 2,
{
    lemma_with_markers_len(text.reverse(), 5, marker_bytes());
}

/// Recovering the obfuscated bytes of a text with the same key gives the
/// text's bytes back.
pub proof fn lemma_recovered_obfuscated(text: Seq<u8>, key: Seq<u8>)
    ensures
        recovered(obfuscated(text, key), key) == text,
{
    let marked = with_markers(text.reverse(), 5, marker_bytes());
    lemma_xor_involution(marked, key);
    lemma_strip_inverts_inject(text.reverse(), 5, marker_bytes());
    lemma_reverse_involution(text);
}

} // verus!
