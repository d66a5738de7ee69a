[package]
name = "chat_room"
version = "0.1.0"
edition = "2021"
publish = false

[dependencies]
ohkami = { version = "=0.21.0", features = ["rt_worker", "ws"] }
worker = "=0.5.0"
serde-wasm-bindgen = "0.6"
console_error_panic_hook = "=0.1.7"
