[package]
name = "tiktoken"
version = "0.1.0"
edition = "2021"
publish = false

[dependencies]
base64 = "0.21"
bstr = "1"
fancy-regex = "0.11"
regex = "1"
rustc-hash = "1.1"
wasm-bindgen = "0.2"
gloo-utils = { version = "0.1", features = ["serde"] }
