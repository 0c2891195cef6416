[package]
name = "pumpkin"
version = "0.1.0"
edition = "2021"
publish = false

[dependencies]
arc-swap = "1"
bytes = "1"
dashmap = "6"
rayon = "1"
rustc-hash = "2"
tokio = { version = "1", features = ["rt", "sync", "time"] }
