[package]
name = "nexus_engines"
version = "0.1.0"
edition = "2021"
publish = false

[dependencies]
rand = "0.8"
smallvec = "1"
serde = { version = "1", features = ["derive"] }
wasm-bindgen = "0.2"
js-sys = "0.3"
serde-wasm-bindgen = "0.6"
console_error_panic_hook = "0.1"
