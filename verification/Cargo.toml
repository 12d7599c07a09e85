[package]
name = "resl"
version = "0.1.0"
edition = "2021"

[dependencies]
anyhow = "1"
clap = { version = "4", features = ["derive"] }
indexmap = "2"
serde = { version = "1", features = ["derive"] }
serde_json = "1"
string-interner = "*"
toml = "*"
winnow = "0.7"
yansi = "1"
