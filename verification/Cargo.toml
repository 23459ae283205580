[package]
name = "vector_engine"
version = "0.1.0"
edition = "2021"
publish = false

[dependencies]
hashring = "=0.3.6"
tar = { version = "=0.4.46", default-features = false }
smallvec = "=1.16.4"
rand = "=0.8.8"
serde_cbor = "=0.11.2"
memmap2 = "=0.9.12"
log = "=0.4.34"
tokio = { version = "=1.54.1", default-features = false, features = ["time", "rt", "sync"] }
serde_json = "1"
tracing = "0.1"
tracing-subscriber = { version = "0.3", features = ["env-filter"] }
