[package]
name = "fyrer"
version = "0.1.0"
edition = "2021"
publish = false

[dependencies]
anyhow = "1"
blake3 = "1"
clap = { version = "4", features = ["derive"] }
colored = "*"
crossterm = "*"
glob = "0.3"
libc = "0.2"
notify = "*"
owo-colors = "*"
ratatui = "*"
serde = { version = "1", features = ["derive"] }
serde_derive = "1"
serde_json = "1"
serde_yaml = "0.9"
tar = "0.4"
tempfile = "3"
thiserror = "*"
tokio = { version = "1", features = ["full"] }
zstd = "*"
