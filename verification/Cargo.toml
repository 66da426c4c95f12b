[package]
name = "image_evaluator"
version = "0.1.0"
edition = "2021"
publish = false

[dependencies]
serde = { version = "1", features = ["derive"] }
serde_json = "1"
thiserror = "1"
ndarray = "0.15"
wasm-bindgen = "0.2"
js-sys = "0.3"
