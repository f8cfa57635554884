[package]
name = "azul_engine"
version = "0.1.0"
edition = "2021"
publish = false

[dependencies]
rand = "0.8"
serde = { version = "1.0", features = ["derive"] }
serde_json = "1.0"
clap = { version = "4", features = ["derive"] }
chrono = "0.4"
rayon = "1"
wasm-bindgen = "0.2"
serde-wasm-bindgen = "*"
