[package]
name = "kvs"
version = "0.1.0"
edition = "2021"
publish = false

[dependencies]
clap = { version = "4", features = ["derive"] }
flexbuffers = "*"
serde = { version = "1", features = ["derive"] }
sled = "0.34"
slog = "2"
slog-async = "2"
slog-term = "2"
