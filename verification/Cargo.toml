[package]
name = "swatchthis"
version = "0.2.0"
edition = "2021"
publish = false

[dependencies]
wasm-bindgen = "0.2"
