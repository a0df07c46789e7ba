[package]
name = "prefab_pipeline"
version = "0.1.0"
edition = "2021"
publish = false

[dependencies]
bincode = "1"
crossbeam-queue = "0.3"
fnv = "1"
inventory = "0.1"
log = "0.4"
serde = { version = "1", features = ["derive"] }
type-uuid = "0.1"
