[package]
name = "relay_node"
version = "0.1.0"
edition = "2021"
publish = false

[dependencies]
base64 = "0.21"
config = { version = "0.13", default-features = false, features = ["toml"] }
jsonrpc-core = "18"
libp2p = { version = "0.53", features = ["ed25519", "gossipsub", "macros", "mdns", "noise", "tcp", "tokio", "yamux"] }
serde = { version = "1", features = ["derive"] }
serde_json = "1"
tokio = { version = "1", features = ["full"] }
tracing = "0.1"
tracing-subscriber = "0.3"
