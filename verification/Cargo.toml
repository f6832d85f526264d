[package]
name = "ts_bnf_tool"
version = "0.1.0"
edition = "2021"
publish = false

[dependencies]
indexmap = "=2.14.2"
railroad = "=0.3.7"
regex = "=1.13.1"
serde = { version = "=1.0.229", features = ["derive"] }
serde_json = "=1.0.154"
clap = { version = "=4.6.7", features = ["derive"] }
syn = { version = "=2.0.118", features = ["full"] }
toml = "=1.1.2"
