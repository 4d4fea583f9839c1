[package]
name = "obxrac32b64"
version = "0.1.0"
edition = "2021"
publish = false

[dependencies]
base64 = "0.22"
base64-simd = "0.8"
hotpath = "*"
