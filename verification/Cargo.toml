[package]
name = "p2p_node"
version = "0.1.0"
edition = "2021"
publish = false

[dependencies]
prost = "*"
tokio = { version = "*", features = ["full"] }
