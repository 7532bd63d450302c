[package]
name = "rooch_store"
version = "0.1.0"
edition = "2021"
publish = false

[dependencies]
tiny-keccak = { version = "2.0", features = ["sha3"] }
anyhow = "1"
async-trait = "0.1"
clap = { version = "4", features = ["derive"] }
coerce = "0.8"
jsonrpsee = { version = "0.16", features = ["server", "http-client", "macros"] }
once_cell = "1"
prometheus = "0.13"
serde = { version = "1", features = ["derive"] }
serde_json = "1"
tokio = { version = "1", features = ["full"] }
tonic = "0.8"
tracing = "0.1"
tracing-subscriber = "0.3"
