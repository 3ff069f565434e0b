[package]
name = "pastemax"
version = "0.1.0"
edition = "2021"
publish = false

[dependencies]
glob = "0.3"
serde = { version = "1", features = ["derive"] }
walkdir = "2"
tokio = { version = "1", features = ["full"] }
clipboard = "0.5"
