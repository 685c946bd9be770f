[package]
name = "jsonrpc_client"
version = "0.1.0"
edition = "2021"
publish = false

[dependencies]
http = "1"

[dev-dependencies]
serde_json = "1"
