[package]
name = "bem_mesh"
version = "0.1.0"
edition = "2021"
publish = false

[dependencies]
libm = "*"
roxmltree = "=0.21.1"
serde = { version = "=1.0.229", features = ["derive"] }
wasm-bindgen = "=0.2.129"
serde-wasm-bindgen = "=0.6.5"
