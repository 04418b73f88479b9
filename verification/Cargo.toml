[package]
name = "matter_core"
version = "0.1.0"
edition = "2021"
publish = false

[dependencies]
indexmap = "2"
serde = { version = "1", features = ["derive"] }
wasm-bindgen = "0.2"
serde-wasm-bindgen = "0.6"
