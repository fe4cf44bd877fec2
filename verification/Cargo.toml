[package]
name = "caseconv"
version = "0.1.0"
edition = "2021"
publish = false

[dependencies]
anyhow = "*"
async-walkdir = "*"
clap = { version = "*", features = ["derive"] }
serde = { version = "*", features = ["derive"] }
serde_yml = "*"
tar = "*"
tempfile = "*"
thiserror = "*"
tokio = { version = "*", features = ["full"] }
tokio-stream = "*"
toml = "*"
zip = "*"
zstd = "*"
