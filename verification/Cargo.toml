[package]
name = "jsonrpc_param_ord"
version = "0.1.0"
edition = "2021"
publish = false

[dependencies]
serde_json = { version = "1", features = ["preserve_order"] }
glob = "0.3"
url = "2"
