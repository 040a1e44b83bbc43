[package]
name = "rullm"
version = "0.1.0"
edition = "2021"
publish = false

[dependencies]
chacha20 = { version = "0.10", features = ["rng"] }
half = "2"
rand = "0.10"
serde = { version = "1", features = ["derive"] }
serde_json = "1"
tokenizers = { version = "*", default-features = false, features = ["fancy-regex"] }
