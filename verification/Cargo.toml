[package]
name = "mesh_node"
version = "0.1.0"
edition = "2021"
publish = false

[dependencies]
crossbeam-channel = "=0.5.17"
serde = { version = "=1.0.229", features = ["derive"] }
serde_json = "=1.0.151"
