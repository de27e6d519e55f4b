[package]
name = "svpflow"
version = "0.1.0"
edition = "2021"
publish = false

[dependencies]
rayon = "1"
libloading = "0.8"
wasm-bindgen = "0.2"
