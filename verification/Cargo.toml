[package]
name = "tldr_ollama"
version = "0.1.0"
edition = "2021"
publish = false

[dependencies]
crossbeam-channel = "0.5"
minreq = { version = "2", features = ["json-using-serde"] }
serde = { version = "1", features = ["derive"] }
serde_json = "1"
