[package]
name = "piiredact"
version = "0.1.0"
edition = "2021"
publish = false

[dependencies]
candle-core = "*"
candle-nn = "*"
candle-transformers = "*"
log = "*"
serde = { version = "*", features = ["derive"] }
serde_json = "*"
tokenizers = { version = "*", default-features = false, features = ["onig", "esaxx_fast"] }
tokio = { version = "*", features = ["sync", "rt-multi-thread", "macros"] }
