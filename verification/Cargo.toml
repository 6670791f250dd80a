[package]
name = "kmeans_wasm"
version = "0.1.0"
edition = "2021"
publish = false

[dependencies]
rand = "0.8"
js-sys = "0.3"
wasm-bindgen = "0.2"
