//! A reversible text obfuscation scheme: the UTF-8 bytes of a text are
//! reversed, a two-byte marker is inserted after every full group of five
//! bytes, the result is XOR-ed with a repeating key and finally written in
//! standard base64.

pub mod base64_model;
pub mod bench_rust_hotpath;
pub mod bench_rust_simd;
pub mod laws;
pub mod layout_laws;
pub mod model;
pub mod obxrac32b64;
pub mod simd_engine;
pub mod standard_engine;
pub mod std_text;
pub mod test_rust;
pub mod text_model;
