[package]
name = "raft_core"
version = "0.1.0"
edition = "2021"
publish = false

[dependencies]
rand = "0.8"
fjall = "*"
ractor = "*"
ractor_cluster = "*"
tokio = { version = "*", features = ["sync", "time", "rt-multi-thread", "macros"] }
anyhow = "*"
