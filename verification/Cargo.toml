[package]
name = "chain_access"
version = "0.1.0"
edition = "2021"
publish = false

[dependencies]
alloy-rpc-types = "1"
eyre = "0.6"
tokio = { version = "1", features = ["rt-multi-thread", "macros", "sync"] }
