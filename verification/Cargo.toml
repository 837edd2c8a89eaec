[package]
name = "llama_rs"
version = "0.1.0"
edition = "2021"
publish = false

[dependencies]
anyhow = "=1.0.104"
half = "=2.7.1"
memmap2 = "=0.9.12"
rand = "=0.8.8"
rayon = "=1.12.0"
safetensors = "=0.4.5"
serde = { version = "=1.0.229", features = ["derive"] }
serde_json = "=1.0.154"
tokenizers = { version = "=0.20.4", default-features = false, features = ["unstable_wasm"] }
