use base64::Engine;
use obxrac32b64::bench_rust_hotpath::step_base64_decode;
use obxrac32b64::obxrac32b64::{
    decode, encode, inject_markers, reverse_bytes, strip_markers, xor_bytes, CodecError,
};

#[test]
fn reverse_bytes_reverses() {
    assert_eq!(reverse_bytes(&[1, 2, 3]), vec![3, 2, 1]);
    assert_eq!(reverse_bytes(&[]), Vec::<u8>::new());
}

#[test]
fn reverse_twice_is_identity() {
    let data = b"obfuscate me".to_vec();
    assert_eq!(reverse_bytes(&reverse_bytes(&data)), data);
}

#[test]
fn xor_bytes_cycles_key() {
    assert_eq!(xor_bytes(&[1, 2, 3, 4], &[1, 2]), vec![0, 0, 2, 6]);
    assert_eq!(xor_bytes(&[0xff, 0x00], &[0x0f]), vec![0xf0, 0x0f]);
}

#[test]
fn xor_bytes_empty_key_copies() {
    assert_eq!(xor_bytes(&[7, 8, 9], &[]), vec![7, 8, 9]);
    assert_eq!(xor_bytes(&[], &[1]), Vec::<u8>::new());
}

#[test]
fn xor_twice_is_identity() {
    let data = b"some data to mask".to_vec();
    let key = b"k3y".to_vec();
    assert_eq!(xor_bytes(&xor_bytes(&data, &key), &key), data);
}

#[test]
fn inject_markers_after_full_groups() {
    assert_eq!(
        inject_markers(&[1, 2, 3, 4, 5, 6, 7], 5, b"$$"),
        vec![1, 2, 3, 4, 5, 36, 36, 6, 7]
    );
    assert_eq!(inject_markers(&[1, 2, 3, 4, 5], 5, b"$$"), vec![1, 2, 3, 4, 5, 36, 36]);
    assert_eq!(inject_markers(&[1, 2, 3], 5, b"$$"), vec![1, 2, 3]);
    assert_eq!(inject_markers(&[], 5, b"$$"), Vec::<u8>::new());
    assert_eq!(inject_markers(&[1, 2, 3, 4], 2, &[0]), vec![1, 2, 0, 3, 4, 0]);
}

#[test]
fn inject_markers_length() {
    let data: Vec<u8> = (0..23).collect();
    assert_eq!(inject_markers(&data, 5, b"$$").len(), 23 + (23 / 5) * 2);
}

#[test]
fn strip_markers_keeps_group_prefixes() {
    assert_eq!(strip_markers(&[1, 2, 3, 4, 5, 6, 7, 8], 5, 2), vec![1, 2, 3, 4, 5, 8]);
    assert_eq!(strip_markers(&[1, 2, 3, 4, 5, 6], 5, 2), vec![1, 2, 3, 4, 5]);
    assert_eq!(strip_markers(&[1, 2], 5, 2), vec![1, 2]);
    assert_eq!(strip_markers(&[], 5, 2), Vec::<u8>::new());
    assert_eq!(strip_markers(&[1, 2, 3], 0, 2), Vec::<u8>::new());
}

#[test]
fn strip_inverts_inject() {
    for n in 0..30u8 {
        let data: Vec<u8> = (0..n).collect();
        assert_eq!(strip_markers(&inject_markers(&data, 5, b"$$"), 5, 2), data);
        assert_eq!(strip_markers(&inject_markers(&data, 3, b"#"), 3, 1), data);
    }
}

#[test]
fn encode_known_values() {
    assert_eq!(encode("Hello, World!", "key"), "SgEVGQpdTzJZRwoVT0EVDi0=");
    assert_eq!(encode("hello", ""), "b2xsZWgkJA==");
    assert_eq!(encode("", "secret"), "");
    assert_eq!(encode("abcde", "k"), "Dg8ICQpPTw==");
    assert_eq!(encode("Привет", "ключ"), "Umtla2Oq9VdoalBq9apOVw==");
    assert_eq!(encode("a", ""), "YQ==");
}

#[test]
fn decode_known_values() {
    assert_eq!(decode("SgEVGQpdTzJZRwoVT0EVDi0=", "key").ok(), Some("Hello, World!".to_string()));
    assert_eq!(decode("Umtla2Oq9VdoalBq9apOVw==", "ключ").ok(), Some("Привет".to_string()));
    assert_eq!(decode("", "key").ok(), Some(String::new()));
}

#[test]
fn decode_ignores_surrounding_white_space() {
    assert_eq!(decode("  b2xsZWgkJA==\r\n", "").ok(), Some("hello".to_string()));
    assert_eq!(decode("\t\u{3000}YQ==\u{a0}", "").ok(), Some("a".to_string()));
}

#[test]
fn decode_round_trip() {
    let texts = ["", "a", "abcd", "abcde", "abcdef", "Hello, World!", "ünïcödé ✓ text", "1234567890"];
    let keys = ["", "k", "secret", "ключ"];
    for text in texts {
        for key in keys {
            let encoded = encode(text, key);
            assert_eq!(decode(&encoded, key).ok(), Some(text.to_string()));
        }
    }
}

#[test]
fn decode_rejects_bad_base64() {
    assert!(matches!(decode("abc", "key"), Err(CodecError::InvalidBase64(_))));
    assert!(matches!(decode("YR==", "key"), Err(CodecError::InvalidBase64(_))));
    assert!(matches!(decode("YQ=", ""), Err(CodecError::InvalidBase64(_))));
    assert!(matches!(decode("Y Q==", ""), Err(CodecError::InvalidBase64(_))));
    assert!(matches!(decode("!!!!", ""), Err(CodecError::InvalidBase64(_))));
}

#[test]
fn decode_rejects_bad_utf8() {
    assert!(matches!(decode("/w==", ""), Err(CodecError::InvalidUtf8(_))));
}

#[test]
fn decode_error_messages_are_kept() {
    match decode("YQ=", "") {
        Err(CodecError::InvalidBase64(e)) => assert!(!e.to_string().is_empty()),
        _ => panic!("expected a base64 error"),
    }
    match decode("/w==", "") {
        Err(CodecError::InvalidUtf8(e)) => assert_eq!(e.into_bytes(), vec![0xff]),
        _ => panic!("expected a UTF-8 error"),
    }
}

#[test]
fn wrong_key_does_not_recover_text() {
    let encoded = encode("attack at dawn", "right");
    assert_ne!(decode(&encoded, "wrong").ok(), Some("attack at dawn".to_string()));
}

#[test]
fn encoded_length_depends_on_text_length_only() {
    for n in 0..40usize {
        let text = "x".repeat(n);
        let other = "é".repeat(n / 2) + &"y".repeat(n % 2);
        let m = n + (n / 5) * 2;
        let expected = 4 * ((m + 2) / 3);
        assert_eq!(encode(&text, "key").len(), expected);
        assert_eq!(encode(&text, "a much longer key").len(), expected);
        assert_eq!(encode(&other, "k").len(), expected);
    }
}

#[test]
fn doubled_key_encodes_alike() {
    for text in ["", "a", "Hello, World!", "Привет, мир", "0123456789abcdef"] {
        for key in ["k", "key", "ключ"] {
            let doubled = format!("{}{}", key, key);
            assert_eq!(encode(text, &doubled), encode(text, key));
        }
    }
}

#[test]
fn key_masks_the_unkeyed_stream() {
    for text in ["", "abc", "Hello, World!", "ünïcödé"] {
        let plain = step_base64_decode(encode(text, "").as_bytes()).ok().unwrap();
        let masked = step_base64_decode(encode(text, "s3cr3t").as_bytes()).ok().unwrap();
        assert_eq!(masked, xor_bytes(&plain, b"s3cr3t"));
    }
}

#[test]
fn white_space_around_any_text_is_ignored() {
    for encoded in ["YQ==", "abc", "/w==", "", " x "] {
        let padded = format!(" \t{}\n\u{2003}", encoded);
        let a = decode(encoded, "k");
        let b = decode(&padded, "k");
        match (a, b) {
            (Ok(x), Ok(y)) => assert_eq!(x, y),
            (Err(CodecError::InvalidBase64(_)), Err(CodecError::InvalidBase64(_))) => {}
            (Err(CodecError::InvalidUtf8(_)), Err(CodecError::InvalidUtf8(_))) => {}
            _ => panic!("outcomes differ for {:?}", encoded),
        }
    }
}

#[test]
fn decode_error_messages_are_the_underlying_errors() {
    let expected = base64::engine::general_purpose::STANDARD.decode("YQ=").unwrap_err().to_string();
    match decode("YQ=", "") {
        Err(CodecError::InvalidBase64(e)) => {
            assert_eq!(e.to_string(), expected);
        }
        _ => panic!("expected a base64 error"),
    }
    let expected = String::from_utf8(vec![0xff]).unwrap_err().to_string();
    match decode("/w==", "") {
        Err(CodecError::InvalidUtf8(e)) => assert_eq!(e.to_string(), expected),
        _ => panic!("expected a UTF-8 error"),
    }
    assert_eq!(obxrac32b64::bench_rust_hotpath::decode("YQ=", "").err(), Some(base64::engine::general_purpose::STANDARD.decode("YQ=").unwrap_err().to_string()));
    assert_eq!(obxrac32b64::bench_rust_hotpath::decode("/w==", "").err(), Some(expected));
}
