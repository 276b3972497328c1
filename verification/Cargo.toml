[package]
name = "dag_replay"
version = "0.1.0"
edition = "2021"
publish = false

[dependencies]
automerge = "*"
serde = { version = "*", features = ["derive"] }
serde_json = "*"
