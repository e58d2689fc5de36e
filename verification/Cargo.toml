[package]
name = "blue_marshal"
version = "0.1.0"
edition = "2021"
publish = false

[dependencies]
num-bigint = "0.4"
num-traits = "0.2"
base64 = "0.22"
serde_json = { version = "1", features = ["preserve_order"] }
wasm-bindgen = "0.2"
