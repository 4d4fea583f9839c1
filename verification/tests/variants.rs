use obxrac32b64::bench_rust_hotpath;
use obxrac32b64::bench_rust_simd;
use obxrac32b64::obxrac32b64 as reference;
use obxrac32b64::obxrac32b64::CodecError;
use obxrac32b64::test_rust;

const SAMPLES: [(&str, &str); 7] = [
    ("Hello, World!", "key"),
    ("hello", "k"),
    ("", "secret"),
    ("abcde", "k"),
    ("Привет", "ключ"),
    ("a", "z"),
    ("The quick brown fox jumps over the lazy dog", "0123456789"),
];

#[test]
fn fused_encoder_matches_pipeline() {
    for (text, key) in SAMPLES {
        assert_eq!(test_rust::encode(text, key), reference::encode(text, key));
    }
    assert_eq!(test_rust::encode("", ""), "");
}

#[test]
fn fused_encoder_known_value() {
    assert_eq!(test_rust::encode("Hello, World!", "key"), "SgEVGQpdTzJZRwoVT0EVDi0=");
}

#[test]
fn fused_encoder_round_trip() {
    for (text, key) in SAMPLES {
        let encoded = test_rust::encode(text, key);
        assert_eq!(test_rust::decode(&encoded, key).ok(), Some(text.to_string()));
    }
}

#[test]
fn simd_encoder_matches_pipeline() {
    for (text, key) in SAMPLES {
        assert_eq!(bench_rust_simd::encode(text, key), reference::encode(text, key));
    }
    assert_eq!(bench_rust_simd::encode("hello", ""), "b2xsZWgkJA==");
}

#[test]
fn simd_round_trip() {
    for (text, key) in SAMPLES {
        let encoded = bench_rust_simd::encode(text, key);
        assert_eq!(bench_rust_simd::decode(&encoded, key).ok(), Some(text.to_string()));
    }
    assert_eq!(bench_rust_simd::decode(" b2xsZWgkJA== ", "").ok(), Some("hello".to_string()));
}

#[test]
fn simd_decode_errors() {
    match bench_rust_simd::decode("YR==", "") {
        Err(CodecError::InvalidBase64(e)) => assert_eq!(e.to_string(), "Base64Error"),
        _ => panic!("expected a base64 error"),
    }
    match bench_rust_simd::decode("abc", "") {
        Err(CodecError::InvalidBase64(e)) => assert_eq!(e.to_string(), "Base64Error"),
        _ => panic!("expected a base64 error"),
    }
    assert!(matches!(bench_rust_simd::decode("/w==", ""), Err(CodecError::InvalidUtf8(_))));
}

#[test]
fn gen_data_repeats_pattern() {
    let pattern = "The quick brown fox jumps over the lazy dog. Pack my box with five dozen liquor jugs 0123456789 ABCDEFGHIJKLMNOPQRSTUVWXYZ";
    assert_eq!(bench_rust_simd::gen_data(0), "");
    assert_eq!(bench_rust_simd::gen_data(5), "The q");
    assert_eq!(bench_rust_simd::gen_data(pattern.len()), pattern);
    let long = bench_rust_simd::gen_data(250);
    assert_eq!(long.len(), 250);
    assert_eq!(&long[..pattern.len()], pattern);
    assert_eq!(&long[pattern.len()..2 * pattern.len()], pattern);
    assert_eq!(&long[2 * pattern.len()..], &pattern[..250 - 2 * pattern.len()]);
    assert_eq!(bench_rust_hotpath::gen_data(3), "The");
}

#[test]
fn hotpath_steps() {
    let mut out = vec![9, 9, 9];
    bench_rust_hotpath::step_reverse_bytes(&[1, 2, 3], &mut out);
    assert_eq!(out, vec![3, 2, 1]);

    bench_rust_hotpath::step_inject_markers(&[1, 2, 3, 4, 5, 6], &mut out);
    assert_eq!(out, vec![1, 2, 3, 4, 5, 36, 36, 6]);

    bench_rust_hotpath::step_strip_markers(&[1, 2, 3, 4, 5, 36, 36, 6], &mut out);
    assert_eq!(out, vec![1, 2, 3, 4, 5, 6]);

    bench_rust_hotpath::step_xor(&[1, 2, 3, 4, 5], &[1, 2], &mut out);
    assert_eq!(out, vec![0, 0, 2, 6, 4]);

    bench_rust_hotpath::step_xor(&[1, 2, 3], &[], &mut out);
    assert_eq!(out, vec![1, 2, 3]);
}

#[test]
fn hotpath_base64_steps() {
    assert_eq!(bench_rust_hotpath::step_base64_encode(b"hello"), "aGVsbG8=");
    assert_eq!(bench_rust_hotpath::step_base64_encode(b""), "");
    assert_eq!(bench_rust_hotpath::step_base64_decode(b"aGVsbA==").ok(), Some(b"hell".to_vec()));
    assert!(bench_rust_hotpath::step_base64_decode(b"aGVsbA=").is_err());
    assert!(bench_rust_hotpath::step_base64_decode(b"aGVsbB==").is_err());
}

#[test]
fn hotpath_pipeline() {
    for (text, key) in SAMPLES {
        let encoded = bench_rust_hotpath::encode(text, key);
        assert_eq!(encoded, reference::encode(text, key));
        assert_eq!(bench_rust_hotpath::module_encode(text, key), encoded);
        assert_eq!(bench_rust_hotpath::decode(&encoded, key), Ok(text.to_string()));
        assert_eq!(bench_rust_hotpath::module_decode(&encoded, key), Ok(text.to_string()));
    }
    assert!(bench_rust_hotpath::decode("abc", "k").is_err());
    assert!(bench_rust_hotpath::decode("/w==", "").is_err());
}
