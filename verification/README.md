# obxrac32b64

A reversible text obfuscation scheme, verified with Verus. Encoding takes the
UTF-8 bytes of a text, reverses them, inserts the marker `$$` after every
complete group of five bytes, XORs the result with a cyclically repeated key
and writes it in padded standard base64. Decoding trims surrounding white
space and undoes each step; it fails on text that is not canonical base64 or
whose recovered bytes are not UTF-8.

Layout:

- `src/model.rs`, `src/base64_model.rs`, `src/text_model.rs`: the
  mathematical model (byte transforms, base64, trimming) and its lemmas.
- `src/obxrac32b64.rs`: the reference pipeline (`encode`, `decode` and the
  byte transforms).
- `src/test_rust.rs`: a single-pass encoder proved equal to the pipeline.
- `src/bench_rust_simd.rs`: the pipeline with the `base64-simd` codec, and the
  benchmark input generator.
- `src/bench_rust_hotpath.rs`: the pipeline as steps that fill caller buffers.
- `src/standard_engine.rs`, `src/simd_engine.rs`, `src/std_text.rs`: the
  trusted boundary to `base64`, `base64-simd` and `std`.
- `src/laws.rs`: round-trip and related laws.
- `app/`: the command-line front end and benchmark drivers.
