[package]
name = "dag_consensus"
version = "0.1.0"
edition = "2021"
publish = false

[dependencies]
async-recursion = "1"
bincode = "1.3.3"
bytes = "1"
ed25519-dalek = { version = "1.0.1", features = ["batch"] }
log = "0.4"
serde = { version = "1", features = ["derive"] }
tokio = { version = "1", features = ["macros", "rt", "rt-multi-thread", "sync", "time"] }
