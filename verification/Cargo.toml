[package]
name = "nreplops-tool"
version = "0.1.0"
edition = "2021"
publish = false

[dependencies]
anstyle = "1"
anyhow = "1"
clap = { version = "4", features = ["derive"] }
dns-lookup = "2"
is-terminal = "0.4"
regex = "1"
serde = { version = "1", features = ["derive"] }
serde_bencode = "0.2"
toml = "0.8"
