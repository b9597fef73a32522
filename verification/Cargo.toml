[package]
name = "clipstack"
version = "0.1.0"
edition = "2021"
publish = false

[dependencies]
anyhow = "*"
chrono = "*"
clap = { version = "*", features = ["derive"] }
clap_complete = "*"
ctrlc = "*"
dirs = "*"
fs2 = "*"
serde = { version = "*", features = ["derive"] }
serde_json = "*"
sha2 = "*"
