[package]
name = "provenance"
version = "0.1.0"
edition = "2021"
publish = false

[dependencies]
sha2 = "0.10"
serde = { version = "1", features = ["derive"] }
serde_json = "1"
walkdir = "2"
camino = "1"
anyhow = "1"
thiserror = "2"
