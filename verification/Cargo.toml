[package]
name = "opencode_agency"
version = "0.1.0"
edition = "2021"
publish = false

[dependencies]
indexmap = { version = "=2.14.2", features = ["serde"] }
petgraph = "=0.6.5"
serde = { version = "=1.0.229", features = ["derive"] }
serde_json = "=1.0.154"
jsonc-parser = { version = "=0.29.0", features = ["serde", "preserve_order"] }
anyhow = "=1.0.104"
bincode = "=1.3.3"
clap = { version = "=4.6.7", features = ["derive"] }
