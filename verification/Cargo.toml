[package]
name = "flow_store"
version = "0.1.0"
edition = "2021"
publish = false

[dependencies]
kvdb = "0.13"
kvdb-memorydb = "0.13"
itertools = "0.13"
tiny-keccak = { version = "2.0", features = ["keccak"] }
parking_lot = "0.12"
anyhow = "1"
tracing = "0.1"
