[package]
name = "alfanous_core"
version = "0.1.0"
edition = "2021"
publish = false

[dependencies]
serde_json = "1"
rusqlite = { version = "*", features = ["bundled"] }
clap = { version = "4", features = ["derive"] }
