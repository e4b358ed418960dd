[package]
name = "keryx_pom"
version = "0.2.3"
edition = "2021"
publish = false

[dependencies]
async-trait = "0.1"
blake2b_simd = "1"
blake3 = { version = "1", features = ["pure"] }
borsh = { version = "1", features = ["derive"] }
candle-core = "0.9"
candle-nn = "0.9"
candle-transformers = "0.9"
futures-util = { version = "0.3", features = ["sink"] }
hex = "0.4"
log = "0.4"
rand = "0.8"
serde_json = "1"
tokio = { version = "1", features = ["rt", "sync"] }
tokio-stream = "0.1"
tokio-util = "0.7"
