[package]
name = "simd_parse_int"
version = "0.1.0"
edition = "2021"
publish = false

[dependencies]
libfuzzer-sys = { version = "0.4", features = ["arbitrary-derive"] }
