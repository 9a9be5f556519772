[package]
name = "petrinet_core"
version = "0.1.0"
edition = "2021"
publish = false

[dependencies]
petgraph = "0.6"
rand = "0.8"
lazy_static = "1"
serde = { version = "1", features = ["derive"] }
