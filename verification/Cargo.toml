[package]
name = "tron_bot"
version = "0.1.0"
edition = "2021"
publish = false

[dependencies]
serde_json = "1"
rand = { version = "0.8", features = ["small_rng"] }
wasm-bindgen = "0.2"
web-sys = { version = "0.3", features = ["console"] }
