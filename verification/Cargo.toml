[package]
name = "skillleaf"
version = "0.2.0"
edition = "2021"
publish = false

[dependencies]
sha2 = "0.10"
pulldown-cmark = { version = "*", default-features = false }
serde = { version = "1", features = ["derive"] }
serde_json = "1"
walkdir = "2"
tempfile = "3"
fs2 = "0.4"
anyhow = "1"
thiserror = "*"
clap = { version = "4", features = ["derive", "env"] }
axum = "*"
tokio = { version = "1", features = ["rt-multi-thread", "net", "macros"] }
