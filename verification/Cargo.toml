[package]
name = "stable_fluids"
version = "0.1.0"
edition = "2021"
publish = false

[dependencies]
rust_decimal = "1"
rust_decimal_macros = "1"
lazy_static = "1.4"
wasm-bindgen = { version = "0.2", features = ["serde-serialize"] }
