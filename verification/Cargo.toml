[package]
name = "talk_protocol"
version = "0.1.0"
edition = "2021"
publish = false

[dependencies]
serde_json = "=1.0.154"
serde = { version = "=1.0.229", features = ["derive"] }
generational-arena = "=0.2.9"
erased-serde = "=0.3.31"
jsonrpc-stdio-server = "=18.0.0"
tokio = { version = "=1.54.1", features = ["rt"] }
syn = { version = "=3.0.9", default-features = false, features = ["parsing", "full"] }
proc-macro2 = "=1.0.107"
